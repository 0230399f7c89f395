use ben_process::error::Error;
use ben_process::geometry::{
    build_polsby_popper_geometry, check_edge_geometry, classify_effective_source_crs,
    classify_geoparquet_crs, classify_projjson_crs, plan_reprojection,
    require_geo_column_metadata, require_hull, require_shape, require_shares_within_perimeter,
    resolve_geometry_column, resolve_source_crs, validate_area, validate_effective_crs,
    validate_geometry_encoding, validate_length, validate_unit, CrsMetadata, CrsStatus,
    EdgeGeometry, GeoColumn, GeoMetadata, GeometryEncoding, Magnitude,
};

fn column(name: &str) -> GeoColumn {
    GeoColumn {
        name: name.to_string(),
        encoding: GeometryEncoding::Wkb,
        crs: CrsMetadata::Missing,
    }
}

fn metadata() -> GeoMetadata {
    GeoMetadata {
        primary_column: "geometry".to_string(),
        columns: vec![column("outline"), column("geometry")],
    }
}

fn described(crs_type: Option<&str>) -> CrsMetadata {
    CrsMetadata::Described {
        crs_type: crs_type.map(|name| name.to_string()),
        text: "{\"type\":1}".to_string(),
    }
}

#[test]
fn geometry_column_is_the_one_asked_for_or_the_primary_one() {
    assert_eq!(
        resolve_geometry_column(&metadata(), None).unwrap(),
        "geometry"
    );
    assert_eq!(
        resolve_geometry_column(&metadata(), Some("outline")).unwrap(),
        "outline"
    );
    assert_eq!(
        resolve_geometry_column(&metadata(), Some("shape"))
            .unwrap_err()
            .message(),
        "GeoParquet error: Geometry column 'shape' not found in GeoParquet metadata"
    );
    let lost = GeoMetadata {
        primary_column: "geom".to_string(),
        columns: vec![],
    };
    assert_eq!(
        resolve_geometry_column(&lost, None).unwrap_err().message(),
        "GeoParquet error: Primary geometry column 'geom' not found in GeoParquet metadata"
    );
    assert_eq!(
        require_geo_column_metadata(&metadata(), "outline")
            .unwrap()
            .name,
        "outline"
    );
    assert!(require_geo_column_metadata(&metadata(), "x").is_err());
}

#[test]
fn only_well_known_binary_is_read() {
    assert!(validate_geometry_encoding(&column("g"), "g").is_ok());
    let other = GeoColumn {
        encoding: GeometryEncoding::Other("point".to_string()),
        ..column("g")
    };
    assert_eq!(
        validate_geometry_encoding(&other, "g").unwrap_err().message(),
        "GeoParquet error: Geometry column 'g' has unsupported encoding: point"
    );
}

#[test]
fn reference_systems_are_classified_by_type() {
    assert_eq!(
        classify_projjson_crs(Some("ProjectedCRS")),
        CrsStatus::Projected
    );
    assert_eq!(
        classify_projjson_crs(Some("GeodeticCRS")),
        CrsStatus::Geographic
    );
    assert_eq!(classify_projjson_crs(Some("VerticalCRS")), CrsStatus::Unknown);
    assert_eq!(classify_projjson_crs(None), CrsStatus::Unknown);
    assert_eq!(
        classify_geoparquet_crs(&CrsMetadata::Missing),
        CrsStatus::Geographic
    );
    assert_eq!(
        classify_geoparquet_crs(&CrsMetadata::Null),
        CrsStatus::Unknown
    );
    assert_eq!(
        classify_geoparquet_crs(&described(Some("DerivedProjectedCRS"))),
        CrsStatus::Projected
    );
    assert_eq!(
        classify_effective_source_crs(&CrsMetadata::Null, Some(CrsStatus::Projected)),
        CrsStatus::Projected
    );
    assert_eq!(
        classify_effective_source_crs(&CrsMetadata::Null, None),
        CrsStatus::Unknown
    );
}

#[test]
fn source_system_is_the_one_given_or_the_file_s() {
    assert_eq!(
        resolve_source_crs(&CrsMetadata::Null, Some("EPSG:1")).unwrap(),
        "EPSG:1"
    );
    assert_eq!(
        resolve_source_crs(&CrsMetadata::Missing, None).unwrap(),
        "OGC:CRS84"
    );
    assert_eq!(
        resolve_source_crs(&described(Some("GeographicCRS")), None).unwrap(),
        "{\"type\":1}"
    );
    for unknown in [CrsMetadata::Null, described(None)] {
        assert_eq!(
            resolve_source_crs(&unknown, None).unwrap_err().message(),
            "CRS error: GeoParquet geometry CRS is unknown; pass --source-crs to reproject"
        );
    }
}

#[test]
fn only_projected_targets_are_accepted() {
    let plan = plan_reprojection(&CrsMetadata::Missing, None, "EPSG:5070", CrsStatus::Projected)
        .unwrap();
    assert_eq!(plan.source_crs, "OGC:CRS84");
    assert_eq!(plan.target_crs, "EPSG:5070");
    assert_eq!(
        plan_reprojection(&CrsMetadata::Null, None, "EPSG:4326", CrsStatus::Geographic)
            .unwrap_err()
            .message(),
        "CRS error: Target CRS 'EPSG:4326' is not a projected CRS"
    );
    assert!(plan_reprojection(&CrsMetadata::Null, None, "x", CrsStatus::Projected).is_err());
}

#[test]
fn coordinates_have_to_be_planar_or_allowed() {
    assert!(validate_effective_crs(CrsStatus::Projected, false, false).is_ok());
    assert!(validate_effective_crs(CrsStatus::Geographic, true, false).is_ok());
    assert!(validate_effective_crs(CrsStatus::Unknown, false, true).is_ok());
    assert_eq!(
        validate_effective_crs(CrsStatus::Geographic, false, true)
            .unwrap_err()
            .message(),
        "CRS error: effective geometry CRS is geographic; pass --allow-geographic-crs to use it"
    );
    assert_eq!(
        validate_effective_crs(CrsStatus::Unknown, true, false)
            .unwrap_err()
            .message(),
        "CRS error: effective geometry CRS is Unknown; pass --allow-unknown-crs to use it"
    );
}

#[test]
fn measures_have_to_be_in_range() {
    assert!(validate_area(Magnitude::Positive, "1").is_ok());
    assert_eq!(
        validate_area(Magnitude::Zero, "0").unwrap_err().message(),
        "geometry error: computed non-positive geometry area 0"
    );
    assert_eq!(
        validate_area(Magnitude::NotFinite, "NaN")
            .unwrap_err()
            .message(),
        "geometry error: computed non-finite geometry area NaN"
    );
    assert!(validate_length("shared boundary", Magnitude::Zero, "0").is_ok());
    assert_eq!(
        validate_length("shared boundary", Magnitude::Negative, "-1")
            .unwrap_err()
            .message(),
        "geometry error: computed negative shared boundary -1"
    );
    assert!(validate_unit(Magnitude::Positive, "1", Magnitude::Positive, "4").is_ok());
    assert_eq!(
        validate_unit(Magnitude::Positive, "1", Magnitude::Zero, "0")
            .unwrap_err()
            .message(),
        "geometry error: computed non-positive geometry perimeter"
    );
    assert!(require_hull(3).is_ok());
    assert_eq!(
        require_hull(2).unwrap_err().message(),
        "geometry error: computed convex hull has fewer than 3 distinct points"
    );
    assert_eq!(require_shape(Some(vec![1, 2]), 0).unwrap(), vec![1, 2]);
    assert_eq!(
        require_shape(None, 17).unwrap_err().message(),
        "geometry error: Geometry column contains null value at index 17"
    );
}

fn shared(length: f64) -> EdgeGeometry<f64> {
    EdgeGeometry {
        overlap: None,
        shared: Some(length),
    }
}

#[test]
fn shared_boundaries_are_collected_by_edge_and_node() {
    let edges = [(0, 1), (1, 2)];
    let built =
        build_polsby_popper_geometry(3, 3, &edges, &[shared(1.5), shared(2.0)]).unwrap();
    assert_eq!(built.shared_perimeters, vec![1.5, 2.0]);
    assert_eq!(
        built.shared_by_node,
        vec![vec![1.5], vec![1.5, 2.0], vec![2.0]]
    );
    assert!(matches!(
        build_polsby_popper_geometry(2, 3, &edges, &[shared(1.5), shared(2.0)]),
        Err(Error::AssignmentLength {
            actual: 2,
            actual_label: "geometry row count",
            expected: 3,
            expected_label: "graph node count",
        })
    ));
    let apart = EdgeGeometry {
        overlap: None,
        shared: None,
    };
    assert_eq!(
        build_polsby_popper_geometry(3, 3, &edges, &[shared(1.5), apart])
            .unwrap_err()
            .message(),
        "geometry error: graph edge (1, 2) has no shared geometry boundary"
    );
    let overlapping = EdgeGeometry {
        overlap: Some("0.25".to_string()),
        shared: Some(1.0),
    };
    assert_eq!(
        check_edge_geometry((4, 9), &overlapping)
            .unwrap_err()
            .message(),
        "geometry error: graph edge (4, 9) has geometries that overlap by area 0.25"
    );
}

#[test]
fn node_cannot_share_more_than_it_has() {
    assert!(require_shares_within_perimeter(&[false, false]).is_ok());
    assert_eq!(
        require_shares_within_perimeter(&[false, true, true])
            .unwrap_err()
            .message(),
        "geometry error: shared boundary lengths for node 1 exceed its perimeter"
    );
}

//! What is asked of a file with geometry: its column, its coordinate reference system, and the
//! measures of its shapes.
//!
//! Shapes are read and measured elsewhere. Here is decided what is acceptable, on what a reader
//! found: names, kinds, and which measures are in range.
use crate::error::Error;
use crate::metrics::polsby_popper::node_shares;
use crate::text::{decimal, optional_text, push_decimal, same_text};
use vstd::prelude::*;

verus! {

/// How the geometry of units is to be read.
#[derive(Debug, Clone, Copy)]
pub struct ReockLoadOptions<'a> {
    pub geometry_column: Option<&'a str>,
    pub source_crs: Option<&'a str>,
    pub target_crs: Option<&'a str>,
    pub allow_geographic_crs: bool,
    pub allow_unknown_crs: bool,
}

/// How a geometry column is encoded.
#[derive(Debug)]
pub enum GeometryEncoding {
    Wkb,
    /// Any other encoding, by name.
    Other(String),
}

/// What a file says of the coordinate reference system of a column.
#[derive(Debug)]
pub enum CrsMetadata {
    /// Nothing: longitude and latitude are meant.
    Missing,
    /// That it is unknown.
    Null,
    /// A description, with the type that it gives.
    Described { crs_type: Option<String>, text: String },
}

/// What a file says of a geometry column.
#[derive(Debug)]
pub struct GeoColumn {
    pub name: String,
    pub encoding: GeometryEncoding,
    pub crs: CrsMetadata,
}

/// What a file says of its geometry.
#[derive(Debug)]
pub struct GeoMetadata {
    pub primary_column: String,
    pub columns: Vec<GeoColumn>,
}

impl GeoMetadata {
    /// Whether there is a geometry column of that name.
    pub open spec fn has_column(&self, name: Seq<char>) -> bool {
        exists|i: int| 0 <= i < self.columns@.len() && (#[trigger] self.columns@[i]).name@ == name
    }

    /// The first geometry column of that name.
    fn find(&self, name: &str) -> (r: Option<&GeoColumn>)
        ensures
            r is Some <==> self.has_column(name@),
            r matches Some(column) ==> self.columns@.contains(*column) && column.name@ == name@,
    {
        let mut i: usize = 0;
        while i < self.columns.len()
            invariant
                i <= self.columns@.len(),
                forall|k: int| 0 <= k < i ==> (#[trigger] self.columns@[k]).name@ != name@,
            decreases self.columns.len() - i,
        {
            if same_text(self.columns[i].name.as_str(), name) {
                return Some(&self.columns[i]);
            }
            i += 1;
        }
        None
    }
}

/// The message for a geometry column that the file does not describe.
pub open spec fn no_column_text(name: Seq<char>) -> Seq<char> {
    "Geometry column '"@ + name + "' not found in GeoParquet metadata"@
}

/// The message for a primary geometry column that the file does not describe.
pub open spec fn no_primary_column_text(name: Seq<char>) -> Seq<char> {
    "Primary geometry column '"@ + name + "' not found in GeoParquet metadata"@
}

/// Pick the geometry column: the one asked for, or the file's primary one.
pub fn resolve_geometry_column(geo_meta: &GeoMetadata, geometry_column: Option<&str>) -> (r: Result<
    String,
    Error,
>)
    ensures
        match geometry_column {
            Some(name) => match r {
                Ok(column) => geo_meta.has_column(name@) && column@ == name@,
                Err(e) => !geo_meta.has_column(name@) && (e matches Error::GeoParquet(message)
                    && message@ == no_column_text(name@)),
            },
            None => match r {
                Ok(column) => geo_meta.has_column(geo_meta.primary_column@) && column@
                    == geo_meta.primary_column@,
                Err(e) => !geo_meta.has_column(geo_meta.primary_column@) && (
                e matches Error::GeoParquet(message) && message@ == no_primary_column_text(
                    geo_meta.primary_column@,
                )),
            },
        },
{
    match geometry_column {
        Some(name) => {
            if geo_meta.find(name).is_some() {
                Ok(name.to_owned())
            } else {
                Err(no_column(name))
            }
        },
        None => {
            let name = geo_meta.primary_column.as_str();
            if geo_meta.find(name).is_some() {
                Ok(name.to_owned())
            } else {
                let mut message = "Primary geometry column '".to_owned();
                message.append(name);
                message.append("' not found in GeoParquet metadata");
                Err(Error::GeoParquet(message))
            }
        },
    }
}

fn no_column(name: &str) -> (r: Error)
    ensures
        r matches Error::GeoParquet(message) && message@ == no_column_text(name@),
{
    let mut message = "Geometry column '".to_owned();
    message.append(name);
    message.append("' not found in GeoParquet metadata");
    Error::GeoParquet(message)
}

/// What the file says of a geometry column.
pub fn require_geo_column_metadata<'a>(
    geo_meta: &'a GeoMetadata,
    geometry_column: &str,
) -> (r: Result<&'a GeoColumn, Error>)
    ensures
        match r {
            Ok(column) => geo_meta.columns@.contains(*column) && column.name@ == geometry_column@,
            Err(e) => !geo_meta.has_column(geometry_column@) && (
            e matches Error::GeoParquet(message) && message@ == no_column_text(geometry_column@)),
        },
{
    match geo_meta.find(geometry_column) {
        Some(column) => Ok(column),
        None => Err(no_column(geometry_column)),
    }
}

/// The message for an encoding that cannot be read.
pub open spec fn bad_encoding_text(column: Seq<char>, encoding: Seq<char>) -> Seq<char> {
    "Geometry column '"@ + column + "' has unsupported encoding: "@ + encoding
}

/// Check that a column holds well-known binary.
pub fn validate_geometry_encoding(column: &GeoColumn, geometry_column: &str) -> (r: Result<
    (),
    Error,
>)
    ensures
        match (column.encoding, r) {
            (GeometryEncoding::Wkb, Ok(())) => true,
            (GeometryEncoding::Other(name), Err(e)) => e matches Error::GeoParquet(message)
                && message@ == bad_encoding_text(geometry_column@, name@),
            _ => false,
        },
{
    match &column.encoding {
        GeometryEncoding::Wkb => Ok(()),
        GeometryEncoding::Other(name) => {
            let mut message = "Geometry column '".to_owned();
            message.append(geometry_column);
            message.append("' has unsupported encoding: ");
            message.append(name.as_str());
            Err(Error::GeoParquet(message))
        },
    }
}

// ---------------------------------------------------------------------------------------------
// Coordinate reference systems
// ---------------------------------------------------------------------------------------------

/// What kind of coordinates a reference system gives.
#[derive(Clone, Copy, PartialEq, Eq, Structural, Debug)]
pub enum CrsStatus {
    Projected,
    Geographic,
    Unknown,
}

/// The kind that a type name stands for.
pub open spec fn status_of_type(crs_type: Option<Seq<char>>) -> CrsStatus {
    match crs_type {
        Some(name) => if name == "ProjectedCRS"@ || name == "DerivedProjectedCRS"@ {
            CrsStatus::Projected
        } else if name == "GeographicCRS"@ || name == "GeodeticCRS"@ || name
            == "DerivedGeographicCRS"@ || name == "DerivedGeodeticCRS"@ {
            CrsStatus::Geographic
        } else {
            CrsStatus::Unknown
        },
        None => CrsStatus::Unknown,
    }
}

/// The kind that a description with the given type stands for.
pub fn classify_projjson_crs(crs_type: Option<&str>) -> (r: CrsStatus)
    ensures
        r == status_of_type(optional_text(crs_type)),
{
    match crs_type {
        Some(name) => if same_text(name, "ProjectedCRS") || same_text(
            name,
            "DerivedProjectedCRS",
        ) {
            CrsStatus::Projected
        } else if same_text(name, "GeographicCRS") || same_text(name, "GeodeticCRS") || same_text(
            name,
            "DerivedGeographicCRS",
        ) || same_text(name, "DerivedGeodeticCRS") {
            CrsStatus::Geographic
        } else {
            CrsStatus::Unknown
        },
        None => CrsStatus::Unknown,
    }
}

impl CrsMetadata {
    /// The kind of coordinates that a file's word on them stands for.
    pub open spec fn status(&self) -> CrsStatus {
        match self {
            CrsMetadata::Missing => CrsStatus::Geographic,
            CrsMetadata::Null => CrsStatus::Unknown,
            CrsMetadata::Described { crs_type, .. } => status_of_type(
                match crs_type {
                    Some(name) => Some(name@),
                    None => None,
                },
            ),
        }
    }
}

/// The kind of coordinates that a file's word on them stands for.
pub fn classify_geoparquet_crs(crs: &CrsMetadata) -> (r: CrsStatus)
    ensures
        r == crs.status(),
{
    match crs {
        CrsMetadata::Missing => CrsStatus::Geographic,
        CrsMetadata::Null => CrsStatus::Unknown,
        CrsMetadata::Described { crs_type, text: _ } => match crs_type {
            Some(name) => classify_projjson_crs(Some(name.as_str())),
            None => CrsStatus::Unknown,
        },
    }
}

/// The message for a transformation from an unknown reference system.
pub open spec fn unknown_source_text() -> Seq<char> {
    "GeoParquet geometry CRS is unknown; pass --source-crs to reproject"@
}

/// The reference system to transform from: the one given, or the file's.
pub fn resolve_source_crs(metadata: &CrsMetadata, source_crs_override: Option<&str>) -> (r: Result<
    String,
    Error,
>)
    ensures
        match source_crs_override {
            Some(given) => r matches Ok(source) && source@ == given@,
            None => match metadata {
                CrsMetadata::Missing => r matches Ok(source) && source@ == "OGC:CRS84"@,
                CrsMetadata::Described { text, .. } if metadata.status() != CrsStatus::Unknown => {
                    r matches Ok(source) && source@ == text@
                },
                _ => r matches Err(Error::Crs(message)) && message@ == unknown_source_text(),
            },
        },
{
    if let Some(given) = source_crs_override {
        return Ok(given.to_owned());
    }
    match metadata {
        CrsMetadata::Missing => Ok("OGC:CRS84".to_owned()),
        CrsMetadata::Null => Err(
            Error::Crs(
                "GeoParquet geometry CRS is unknown; pass --source-crs to reproject".to_owned(),
            ),
        ),
        CrsMetadata::Described { crs_type: _, text } => match classify_geoparquet_crs(metadata) {
            CrsStatus::Unknown => Err(
                Error::Crs(
                    "GeoParquet geometry CRS is unknown; pass --source-crs to reproject".to_owned(),
                ),
            ),
            _ => Ok(text.clone()),
        },
    }
}

/// A transformation between reference systems.
#[derive(Debug)]
pub struct Reprojection {
    pub source_crs: String,
    pub target_crs: String,
}

/// The message for a target reference system without plane coordinates.
pub open spec fn unprojected_target_text(target: Seq<char>) -> Seq<char> {
    "Target CRS '"@ + target + "' is not a projected CRS"@
}

/// Decide on a transformation. Only plane coordinates can be asked for; `target_status` is the kind
/// of the system asked for.
pub fn plan_reprojection(
    metadata: &CrsMetadata,
    source_crs_override: Option<&str>,
    target_crs: &str,
    target_status: CrsStatus,
) -> (r: Result<Reprojection, Error>)
    ensures
        match r {
            Ok(reprojection) => {
                &&& target_status == CrsStatus::Projected
                &&& reprojection.target_crs@ == target_crs@
                &&& match source_crs_override {
                    Some(given) => reprojection.source_crs@ == given@,
                    None => match metadata {
                        CrsMetadata::Missing => reprojection.source_crs@ == "OGC:CRS84"@,
                        CrsMetadata::Null => false,
                        CrsMetadata::Described { text, .. } => metadata.status()
                            != CrsStatus::Unknown && reprojection.source_crs@ == text@,
                    },
                }
            },
            Err(e) => e matches Error::Crs(message) && if target_status != CrsStatus::Projected {
                message@ == unprojected_target_text(target_crs@)
            } else {
                source_crs_override is None && metadata.status() == CrsStatus::Unknown && message@
                    == unknown_source_text()
            },
        },
{
    match target_status {
        CrsStatus::Projected => {},
        _ => {
            let mut message = "Target CRS '".to_owned();
            message.append(target_crs);
            message.append("' is not a projected CRS");
            return Err(Error::Crs(message));
        },
    }
    match resolve_source_crs(metadata, source_crs_override) {
        Ok(source_crs) => Ok(Reprojection { source_crs, target_crs: target_crs.to_owned() }),
        Err(e) => Err(e),
    }
}

/// The kind of coordinates that shapes have without a transformation: that of the system given, or
/// the file's.
pub fn classify_effective_source_crs(
    metadata: &CrsMetadata,
    override_status: Option<CrsStatus>,
) -> (r: CrsStatus)
    ensures
        r == override_status.unwrap_or(metadata.status()),
{
    match override_status {
        Some(status) => status,
        None => classify_geoparquet_crs(metadata),
    }
}

/// The message for geographic coordinates.
pub open spec fn geographic_text() -> Seq<char> {
    "effective geometry CRS is geographic; pass --allow-geographic-crs to use it"@
}

/// The message for coordinates of an unknown kind.
pub open spec fn unknown_text() -> Seq<char> {
    "effective geometry CRS is Unknown; pass --allow-unknown-crs to use it"@
}

/// Check that shapes have coordinates in which they can be measured, or that others are allowed.
pub fn validate_effective_crs(
    effective_target_crs: CrsStatus,
    allow_geographic_crs: bool,
    allow_unknown_crs: bool,
) -> (r: Result<(), Error>)
    ensures
        match (effective_target_crs, r) {
            (CrsStatus::Projected, Ok(())) => true,
            (CrsStatus::Geographic, Ok(())) => allow_geographic_crs,
            (CrsStatus::Geographic, Err(e)) => !allow_geographic_crs && (
            e matches Error::Crs(message) && message@ == geographic_text()),
            (CrsStatus::Unknown, Ok(())) => allow_unknown_crs,
            (CrsStatus::Unknown, Err(e)) => !allow_unknown_crs && (e matches Error::Crs(message)
                && message@ == unknown_text()),
            _ => false,
        },
{
    match effective_target_crs {
        CrsStatus::Projected => Ok(()),
        CrsStatus::Geographic => if allow_geographic_crs {
            Ok(())
        } else {
            Err(
                Error::Crs(
                    "effective geometry CRS is geographic; pass --allow-geographic-crs to use it".to_owned(),
                ),
            )
        },
        CrsStatus::Unknown => if allow_unknown_crs {
            Ok(())
        } else {
            Err(
                Error::Crs(
                    "effective geometry CRS is Unknown; pass --allow-unknown-crs to use it".to_owned(),
                ),
            )
        },
    }
}

// ---------------------------------------------------------------------------------------------
// Measures
// ---------------------------------------------------------------------------------------------

/// Where a measure lies.
#[derive(Clone, Copy, PartialEq, Eq, Structural, Debug)]
pub enum Magnitude {
    NotFinite,
    Negative,
    Zero,
    Positive,
}

/// Check an area. `area_text` is how the area reads.
pub fn validate_area(area: Magnitude, area_text: &str) -> (r: Result<(), Error>)
    ensures
        match (area, r) {
            (Magnitude::Positive, Ok(())) => true,
            (Magnitude::NotFinite, Err(e)) => e matches Error::Geometry(message) && message@
                == "computed non-finite geometry area "@ + area_text@,
            (Magnitude::Negative, Err(e)) => e matches Error::Geometry(message) && message@
                == "computed non-positive geometry area "@ + area_text@,
            (Magnitude::Zero, Err(e)) => e matches Error::Geometry(message) && message@
                == "computed non-positive geometry area "@ + area_text@,
            _ => false,
        },
{
    match area {
        Magnitude::Positive => Ok(()),
        Magnitude::NotFinite => {
            let mut message = "computed non-finite geometry area ".to_owned();
            message.append(area_text);
            Err(Error::Geometry(message))
        },
        _ => {
            let mut message = "computed non-positive geometry area ".to_owned();
            message.append(area_text);
            Err(Error::Geometry(message))
        },
    }
}

/// Check a length. `length_text` is how the length reads, and `label` what it measures.
pub fn validate_length(label: &str, length: Magnitude, length_text: &str) -> (r: Result<(), Error>)
    ensures
        match (length, r) {
            (Magnitude::Positive, Ok(())) => true,
            (Magnitude::Zero, Ok(())) => true,
            (Magnitude::NotFinite, Err(e)) => e matches Error::Geometry(message) && message@
                == "computed non-finite "@ + label@ + " "@ + length_text@,
            (Magnitude::Negative, Err(e)) => e matches Error::Geometry(message) && message@
                == "computed negative "@ + label@ + " "@ + length_text@,
            _ => false,
        },
{
    let mut message = match length {
        Magnitude::Positive => {
            return Ok(());
        },
        Magnitude::Zero => {
            return Ok(());
        },
        Magnitude::NotFinite => "computed non-finite ".to_owned(),
        Magnitude::Negative => "computed negative ".to_owned(),
    };
    message.append(label);
    message.append(" ");
    message.append(length_text);
    Err(Error::Geometry(message))
}

/// The message for a perimeter of zero.
pub open spec fn flat_perimeter_text() -> Seq<char> {
    "computed non-positive geometry perimeter"@
}

/// Check the area and perimeter of a unit: the area first.
pub fn validate_unit(
    area: Magnitude,
    area_text: &str,
    perimeter: Magnitude,
    perimeter_text: &str,
) -> (r: Result<(), Error>)
    ensures
        r is Ok <==> area == Magnitude::Positive && perimeter == Magnitude::Positive,
        r matches Err(e) ==> e matches Error::Geometry(message) && message@ == (match (
            area,
            perimeter,
        ) {
            (Magnitude::NotFinite, _) => "computed non-finite geometry area "@ + area_text@,
            (Magnitude::Negative, _) => "computed non-positive geometry area "@ + area_text@,
            (Magnitude::Zero, _) => "computed non-positive geometry area "@ + area_text@,
            (_, Magnitude::NotFinite) => "computed non-finite "@ + "perimeter"@ + " "@
                + perimeter_text@,
            (_, Magnitude::Negative) => "computed negative "@ + "perimeter"@ + " "@
                + perimeter_text@,
            _ => flat_perimeter_text(),
        }),
{
    match validate_area(area, area_text) {
        Ok(()) => {},
        Err(e) => {
            return Err(e);
        },
    }
    match validate_length("perimeter", perimeter, perimeter_text) {
        Ok(()) => {},
        Err(e) => {
            return Err(e);
        },
    }
    match perimeter {
        Magnitude::Zero => Err(
            Error::Geometry("computed non-positive geometry perimeter".to_owned()),
        ),
        _ => Ok(()),
    }
}

/// Check that a convex hull has corners enough to enclose an area.
pub fn require_hull(distinct_points: usize) -> (r: Result<(), Error>)
    ensures
        r is Ok <==> distinct_points >= 3,
        r matches Err(e) ==> e matches Error::Geometry(message) && message@
            == "computed convex hull has fewer than 3 distinct points"@,
{
    if distinct_points < 3 {
        Err(
            Error::Geometry("computed convex hull has fewer than 3 distinct points".to_owned()),
        )
    } else {
        Ok(())
    }
}

/// The message for a row without a shape.
pub open spec fn null_geometry_text(index: nat) -> Seq<char> {
    "Geometry column contains null value at index "@ + decimal(index)
}

/// The shape of a row, which has to be there.
pub fn require_shape(row: Option<Vec<u8>>, index: usize) -> (r: Result<Vec<u8>, Error>)
    ensures
        match row {
            Some(bytes) => r == Ok::<Vec<u8>, Error>(bytes),
            None => r matches Err(Error::Geometry(message)) && message@ == null_geometry_text(
                index as nat,
            ),
        },
{
    match row {
        Some(bytes) => Ok(bytes),
        None => {
            let mut message = "Geometry column contains null value at index ".to_owned();
            push_decimal(&mut message, index as u64);
            Err(Error::Geometry(message))
        },
    }
}

// ---------------------------------------------------------------------------------------------
// Shared boundaries
// ---------------------------------------------------------------------------------------------

/// What was found of the shapes at the ends of an edge: how their overlap reads where they overlap,
/// and the length of the boundary that they share where they share one.
#[derive(Debug)]
pub struct EdgeGeometry<W> {
    pub overlap: Option<String>,
    pub shared: Option<W>,
}

/// The lengths of shared boundaries, by edge and as addends by node.
#[derive(Debug)]
pub struct SharedBoundaries<W> {
    pub shared_perimeters: Vec<W>,
    pub shared_by_node: Vec<Vec<W>>,
}

/// An edge in messages.
pub open spec fn edge_text(edge: (u32, u32)) -> Seq<char> {
    "graph edge ("@ + decimal(edge.0 as nat) + ", "@ + decimal(edge.1 as nat) + ")"@
}

/// Whether the shapes at the ends of an edge share a boundary and no more.
pub open spec fn edge_fits<W>(found: EdgeGeometry<W>) -> bool {
    found.overlap is None && found.shared is Some
}

/// Whether `e` reports what is wrong with an edge: an overlap comes first.
pub open spec fn reports_edge<W>(edge: (u32, u32), found: EdgeGeometry<W>, e: Error) -> bool {
    e matches Error::Geometry(message) && message@ == match found.overlap {
        Some(area) => edge_text(edge) + " has geometries that overlap by area "@ + area@,
        None => edge_text(edge) + " has no shared geometry boundary"@,
    }
}

/// Check an edge. Gives the length of the boundary that its ends share.
pub fn check_edge_geometry<W: Copy>(edge: (u32, u32), found: &EdgeGeometry<W>) -> (r: Result<
    W,
    Error,
>)
    ensures
        r is Ok <==> edge_fits(*found),
        r matches Ok(shared) ==> found.shared == Some(shared),
        r matches Err(e) ==> reports_edge(edge, *found, e),
{
    let mut message = "graph edge (".to_owned();
    push_decimal(&mut message, edge.0 as u64);
    message.append(", ");
    push_decimal(&mut message, edge.1 as u64);
    message.append(")");
    match &found.overlap {
        Some(area) => {
            message.append(" has geometries that overlap by area ");
            message.append(area.as_str());
            Err(Error::Geometry(message))
        },
        None => match found.shared {
            Some(shared) => Ok(shared),
            None => {
                message.append(" has no shared geometry boundary");
                Err(Error::Geometry(message))
            },
        },
    }
}

/// Collect shared boundaries.
///
/// There must be one unit per graph node, and the shapes at the ends of every edge must share a
/// boundary and no more; the first edge that is wrong is reported.
pub fn build_polsby_popper_geometry<W: Copy>(
    unit_count: usize,
    graph_node_count: usize,
    graph_edges: &[(u32, u32)],
    found: &[EdgeGeometry<W>],
) -> (r: Result<SharedBoundaries<W>, Error>)
    requires
        found@.len() == graph_edges@.len(),
        forall|e: int|
            0 <= e < graph_edges@.len() ==> (#[trigger] graph_edges@[e]).0 < graph_node_count
                && graph_edges@[e].1 < graph_node_count,
    ensures
        r is Ok <==> unit_count == graph_node_count && forall|i: int|
            0 <= i < found@.len() ==> edge_fits(#[trigger] found@[i]),
        r matches Err(e) ==> if unit_count != graph_node_count {
            e matches Error::AssignmentLength {
                actual,
                actual_label,
                expected,
                expected_label,
            } && actual == unit_count && actual_label@ == "geometry row count"@ && expected
                == graph_node_count && expected_label@ == "graph node count"@
        } else {
            exists|i: int|
                0 <= i < found@.len() && !edge_fits(#[trigger] found@[i]) && (forall|j: int|
                    0 <= j < i ==> edge_fits(#[trigger] found@[j])) && reports_edge(
                    graph_edges@[i],
                    found@[i],
                    e,
                )
        },
        r matches Ok(shared) ==> {
            &&& shared.shared_perimeters@.len() == graph_edges@.len()
            &&& forall|i: int|
                0 <= i < graph_edges@.len() ==> found@[i].shared == Some(
                    #[trigger] shared.shared_perimeters@[i],
                )
            &&& shared.shared_by_node@.len() == unit_count
            &&& forall|n: int|
                0 <= n < unit_count ==> (#[trigger] shared.shared_by_node@[n])@ == node_shares(
                    graph_edges@,
                    shared.shared_perimeters@,
                    n,
                    graph_edges@.len() as int,
                )
        },
{
    if unit_count != graph_node_count {
        return Err(
            Error::AssignmentLength {
                actual: unit_count,
                actual_label: "geometry row count",
                expected: graph_node_count,
                expected_label: "graph node count",
            },
        );
    }
    let mut shared_perimeters: Vec<W> = Vec::new();
    let mut i: usize = 0;
    while i < graph_edges.len()
        invariant
            i <= graph_edges@.len(),
            found@.len() == graph_edges@.len(),
            unit_count == graph_node_count,
            shared_perimeters@.len() == i,
            forall|k: int| 0 <= k < i ==> edge_fits(#[trigger] found@[k]),
            forall|k: int|
                0 <= k < i ==> found@[k].shared == Some(#[trigger] shared_perimeters@[k]),
        decreases graph_edges.len() - i,
    {
        match check_edge_geometry(graph_edges[i], &found[i]) {
            Ok(shared) => {
                shared_perimeters.push(shared);
            },
            Err(e) => {
                assert(!edge_fits(found@[i as int]));
                return Err(e);
            },
        }
        i += 1;
    }
    let mut shared_by_node: Vec<Vec<W>> = Vec::new();
    let mut n: usize = 0;
    while n < unit_count
        invariant
            n <= unit_count,
            shared_by_node@.len() == n,
            forall|k: int|
                0 <= k < n ==> (#[trigger] shared_by_node@[k])@ == node_shares(
                    graph_edges@,
                    shared_perimeters@,
                    k,
                    0,
                ),
        decreases unit_count - n,
    {
        shared_by_node.push(Vec::new());
        n += 1;
    }
    let mut e: usize = 0;
    while e < graph_edges.len()
        invariant
            e <= graph_edges@.len(),
            shared_perimeters@.len() == graph_edges@.len(),
            shared_by_node@.len() == unit_count,
            unit_count == graph_node_count,
            forall|k: int|
                0 <= k < graph_edges@.len() ==> (#[trigger] graph_edges@[k]).0 < graph_node_count
                    && graph_edges@[k].1 < graph_node_count,
            forall|k: int|
                0 <= k < unit_count ==> (#[trigger] shared_by_node@[k])@ == node_shares(
                    graph_edges@,
                    shared_perimeters@,
                    k,
                    e as int,
                ),
        decreases graph_edges.len() - e,
    {
        let (node_u, node_v) = graph_edges[e];
        let u: usize = node_u as usize;
        let v: usize = node_v as usize;
        let shared: W = shared_perimeters[e];
        assert(graph_edges@[e as int].0 < graph_node_count);
        shared_by_node[u].push(shared);
        shared_by_node[v].push(shared);
        e += 1;
    }
    Ok(SharedBoundaries { shared_perimeters, shared_by_node })
}

/// The message for a node whose shared boundaries are longer than its perimeter.
pub open spec fn node_exceeds_text(node: nat) -> Seq<char> {
    "shared boundary lengths for node "@ + decimal(node) + " exceed its perimeter"@
}

/// Check that no node shares more boundary than it has. `exceeds` tells for each node.
pub fn require_shares_within_perimeter(exceeds: &[bool]) -> (r: Result<(), Error>)
    ensures
        r is Ok <==> forall|i: int| 0 <= i < exceeds@.len() ==> !#[trigger] exceeds@[i],
        r matches Err(e) ==> exists|i: int|
            0 <= i < exceeds@.len() && #[trigger] exceeds@[i] && (forall|j: int|
                0 <= j < i ==> !#[trigger] exceeds@[j]) && (e matches Error::Geometry(message)
                && message@ == node_exceeds_text(i as nat)),
{
    let mut i: usize = 0;
    while i < exceeds.len()
        invariant
            i <= exceeds@.len(),
            forall|j: int| 0 <= j < i ==> !#[trigger] exceeds@[j],
        decreases exceeds.len() - i,
    {
        if exceeds[i] {
            let mut message = "shared boundary lengths for node ".to_owned();
            push_decimal(&mut message, i as u64);
            message.append(" exceed its perimeter");
            assert(exceeds@[i as int]);
            return Err(Error::Geometry(message));
        }
        i += 1;
    }
    Ok(())
}

/// Which type names stand for plane coordinates, and which for coordinates on the globe.
pub proof fn law_status_of_type(name: Seq<char>)
    ensures
        status_of_type(None) == CrsStatus::Unknown,
        status_of_type(Some(name)) == CrsStatus::Projected <==> name == "ProjectedCRS"@ || name
            == "DerivedProjectedCRS"@,
        status_of_type(Some(name)) == CrsStatus::Geographic <==> !(name == "ProjectedCRS"@ || name
            == "DerivedProjectedCRS"@) && (name == "GeographicCRS"@ || name == "GeodeticCRS"@
            || name == "DerivedGeographicCRS"@ || name == "DerivedGeodeticCRS"@),
{
}

/// A file that says nothing of its coordinates has geographic ones, and one that says null has
/// unknown ones.
pub proof fn law_unstated_crs()
    ensures
        CrsMetadata::Missing.status() == CrsStatus::Geographic,
        CrsMetadata::Null.status() == CrsStatus::Unknown,
{
}

/// An edge fits exactly when the shapes at its ends do not overlap and share a boundary.
pub proof fn law_edge_fits<W>(found: EdgeGeometry<W>)
    ensures
        edge_fits(found) <==> found.overlap is None && found.shared is Some,
{
}

/// A file has a geometry column of a name exactly when one of its columns has that name.
pub proof fn law_has_column(geo_meta: GeoMetadata, name: Seq<char>)
    ensures
        geo_meta.has_column(name) <==> exists|i: int|
            0 <= i < geo_meta.columns@.len() && (#[trigger] geo_meta.columns@[i]).name@ == name,
{
}

} // verus!

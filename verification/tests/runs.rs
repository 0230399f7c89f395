use ben_process::error::Error;
use ben_process::graph::{CsrAdjacency, Graph};
use ben_process::metrics::cut_edges::CutValue;
use ben_process::metrics::extract_unique_plans::{extract_unique_plans, UniquePlanExtraction};
use ben_process::metrics::polsby_popper::PERIMETER_TABLE;
use ben_process::metrics::region::RegionMetric;
use ben_process::metrics::region_rows::{
    push_region_rows, region_column_indices, region_values, run_incremental_twodelta_region_metric,
    tally_region_metric,
};
use ben_process::metrics::runs::{
    numeric_column_indices, polsby_popper_columns, tally_cut_edges, tally_from_key_list,
    tally_polsby_popper, tally_reock,
};
use ben_process::metrics::twodelta::TwoDeltaEvent;
use ben_process::metrics::unique_plans::{count_unique_plans, UniqueCounts, UniquePlans};

/// A path of four nodes with populations, lengths and two counties.
fn graph() -> Graph<f64> {
    let edges = vec![(0, 1), (1, 2), (2, 3)];
    Graph {
        node_count: 4,
        attr_columns: vec![vec![1.0, 2.0, 4.0, 8.0], vec![3.0, 2.0, 2.0, 3.0]],
        attr_keys: vec!["area".to_string(), "boundary_perim".to_string()],
        region_columns: vec![vec![Some(0), Some(0), Some(1), Some(1)]],
        region_keys: vec!["county".to_string()],
        region_id_counts: vec![2],
        adjacency: Some(CsrAdjacency::new(4, &edges)),
        edges,
        edge_weights: Some(vec![1.0, 1.0, 1.0]),
    }
}

fn records() -> Vec<(Vec<u16>, u16)> {
    vec![(vec![1, 1, 2, 2], 2), (vec![1, 2, 2, 2], 3), (vec![2, 1, 1, 2], 1)]
}

fn keys(names: &[&str]) -> Vec<String> {
    names.iter().map(|name| name.to_string()).collect()
}

#[test]
fn tallies_list_the_addends_of_every_key() {
    let graph = graph();
    let indices = numeric_column_indices(&graph, &keys(&["boundary_perim", "area"]));
    assert_eq!(indices, vec![1, 0]);
    let (rows, ended) = tally_from_key_list(&graph, records(), &indices, Some(4));
    ended.unwrap();
    assert_eq!(rows.len(), 2);
    assert_eq!((rows[0].step, rows[0].n_reps, rows[0].accepted), (1, 2, 1));
    assert_eq!((rows[1].step, rows[1].n_reps, rows[1].accepted), (3, 2, 2));
    assert_eq!(
        rows[1].row.totals,
        vec![
            vec![vec![], vec![3.0], vec![2.0, 2.0, 3.0]],
            vec![vec![], vec![1.0], vec![2.0, 4.0, 8.0]],
        ]
    );
    assert_eq!(rows[1].row.observed, 0b110);
}

#[test]
fn tallies_stop_at_a_plan_with_other_labels() {
    let graph = graph();
    let mut records = records();
    records[2].0 = vec![1, 1, 1, 1];
    let (rows, ended) = tally_from_key_list(&graph, records, &[0], None);
    assert_eq!(rows.len(), 2);
    assert_eq!(
        ended.unwrap_err().message(),
        "districts [2] from the first assignment are missing from a later plan; every plan in the \
         ensemble must use the same district labels to stream tally output with a fixed schema"
    );
}

#[test]
fn first_record_without_a_score_ends_a_run() {
    let graph = graph();
    let mut failing = records();
    failing[1].0 = vec![1, 2, 200, 2];
    failing[2].0 = vec![1, 2];
    let (rows, ended) = tally_from_key_list(&graph, failing, &[0], None);
    assert!(rows.is_empty());
    assert!(matches!(
        ended,
        Err(Error::DistrictLimitExceeded { id: 200, limit: 128 })
    ));

    let mut long: Vec<(Vec<u16>, u16)> = vec![(vec![1, 1, 2, 2], 1); 300];
    long[260].0 = vec![1, 2];
    let (rows, ended) = tally_cut_edges(&graph, long, None);
    assert_eq!(rows.len(), 256);
    assert!(matches!(ended, Err(Error::AssignmentLength { actual: 2, .. })));

    let mut changing: Vec<(Vec<u16>, u16)> = vec![(vec![1, 1, 2, 2], 1); 300];
    changing[40].0 = vec![1, 1, 1, 1];
    let (rows, _) = tally_reock(4, changing, None);
    assert_eq!(rows.len(), 40);
}

#[test]
fn cut_edges_of_a_run_are_weighted() {
    let graph = graph();
    let (rows, ended) = tally_cut_edges(&graph, records(), None);
    ended.unwrap();
    let cuts: Vec<f64> = rows
        .iter()
        .map(|row| match &row.row {
            CutValue::Count(_) => panic!("the graph has weights"),
            CutValue::Weights(weights) => weights.iter().sum(),
        })
        .collect();
    assert_eq!(cuts, vec![1.0, 1.0, 2.0]);
}

#[test]
fn perimeters_are_derived_or_direct() {
    let graph = graph();
    let derived = polsby_popper_columns(&graph, "area", None, Some("boundary_perim")).unwrap();
    assert_eq!(derived.area_values, &[1.0, 2.0, 4.0, 8.0]);
    assert_eq!(
        derived.perimeter_addends,
        vec![
            vec![3.0, 1.0],
            vec![2.0, 1.0, 1.0],
            vec![2.0, 1.0, 1.0],
            vec![3.0, 1.0]
        ]
    );
    assert_eq!(derived.shared_perimeters, &[1.0, 1.0, 1.0]);
    let direct = polsby_popper_columns(&graph, "area", Some("boundary_perim"), None).unwrap();
    assert_eq!(direct.perimeter_addends[0], vec![3.0]);
    assert!(polsby_popper_columns(&graph, "acres", None, Some("boundary_perim")).is_none());
    assert!(polsby_popper_columns(&graph, "area", None, None).is_none());
}

#[test]
fn polsby_popper_run_posts_every_plan() {
    let graph = graph();
    let (rows, ended) = tally_polsby_popper(
        &graph,
        &[1.0; 4],
        &[4.0; 4],
        &[1.0; 3],
        records(),
        None,
    );
    ended.unwrap();
    assert_eq!(rows.len(), 3);
    let perimeter: f64 = rows[0]
        .row
        .postings
        .iter()
        .filter(|posting| posting.table == PERIMETER_TABLE && posting.district == 1)
        .map(|posting| posting.value)
        .sum();
    assert_eq!(perimeter, 8.0);
    let (none, wrong) = tally_polsby_popper(
        &graph,
        &[1.0; 4],
        &[4.0; 4],
        &[1.0; 3],
        vec![(vec![1, 2], 1)],
        None,
    );
    assert!(none.is_empty());
    assert_eq!(
        wrong.unwrap_err().message(),
        "BEN assignment has 2 entries but graph has 4 nodes"
    );
}

#[test]
fn reock_run_places_the_units() {
    let (rows, ended) = tally_reock(4, records(), None);
    ended.unwrap();
    assert_eq!(rows[2].row.nodes_by_district[1], vec![1, 2]);
    assert_eq!(rows[2].row.nodes_by_district[2], vec![0, 3]);
    assert!(matches!(
        tally_reock(5, records(), None).1,
        Err(Error::AssignmentLength {
            actual: 4,
            expected: 5,
            expected_label: "geometry row count",
            ..
        })
    ));
}

#[test]
fn region_tables_have_one_row_per_plan_and_key() {
    let graph = graph();
    let keys = keys(&["county"]);
    let indices = region_column_indices(&graph, &keys);
    let (observed, values) =
        region_values(&graph, &[2, 1, 1, 2], &indices, RegionMetric::Splits).unwrap();
    assert_eq!((observed, values), (0b110, vec![2]));
    let (rows, ended) = tally_region_metric(&graph, records(), &indices, RegionMetric::Pieces, None);
    ended.unwrap();
    let pieces: Vec<Vec<u32>> = rows.iter().map(|row| row.row.clone()).collect();
    assert_eq!(pieces, vec![vec![2], vec![3], vec![4]]);
    let pushed = push_region_rows(&keys, 6, 1, 3, &pieces[2]);
    assert_eq!(pushed.len(), 1);
    assert_eq!(pushed[0].region_key, "county");
    assert_eq!(
        (pushed[0].step, pushed[0].n_reps, pushed[0].accepted_count, pushed[0].value),
        (6, 1, 3, 4)
    );
}

#[test]
fn patched_region_tables_are_recomputed_tables() {
    let graph = graph();
    let events = vec![
        TwoDeltaEvent::Snapshot {
            assignment: vec![1, 1, 2, 2],
            count: 2,
        },
        TwoDeltaEvent::Delta {
            changes: vec![(1, 1, 2)],
            count: 3,
        },
        TwoDeltaEvent::Delta {
            changes: vec![(0, 1, 2), (1, 2, 1), (2, 2, 1)],
            count: 1,
        },
    ];
    for metric in [RegionMetric::Splits, RegionMetric::Pieces] {
        let patched = run_incremental_twodelta_region_metric(
            &graph,
            vec![
                TwoDeltaEvent::Snapshot {
                    assignment: vec![1, 1, 2, 2],
                    count: 2,
                },
                TwoDeltaEvent::Delta {
                    changes: vec![(1, 1, 2)],
                    count: 3,
                },
                TwoDeltaEvent::Delta {
                    changes: vec![(0, 1, 2), (1, 2, 1), (2, 2, 1)],
                    count: 1,
                },
            ],
            &[0],
            metric,
            Some(5),
        );
        let full = tally_region_metric(&graph, records(), &[0], metric, Some(5));
        patched.1.unwrap();
        full.1.unwrap();
        assert_eq!(patched.0.len(), 2);
        for (a, b) in patched.0.iter().zip(&full.0) {
            assert_eq!((a.step, a.n_reps, a.accepted), (b.step, b.n_reps, b.accepted));
            assert_eq!(a.row, b.row);
        }
    }
    let chain = run_incremental_twodelta_region_metric(
        &graph,
        events,
        &[0],
        RegionMetric::Pieces,
        None,
    );
    chain.1.unwrap();
    assert_eq!(chain.0[2].row, vec![4]);
}

#[test]
fn unique_plans_are_counted_up_to_labels() {
    let plans = vec![
        vec![1, 1, 2, 2],
        vec![2, 2, 1, 1],
        vec![1, 2, 1, 2],
        vec![7, 7, 9, 9],
    ];
    assert_eq!(
        count_unique_plans(&plans).unwrap(),
        UniqueCounts {
            unique_plans: 2,
            total_accepted_frames: 4
        }
    );
    let mut seen = UniquePlans::new();
    assert!(seen.insert(5));
    assert!(!seen.insert(5));
    assert!(seen.insert(6));
    assert_eq!(
        seen.counts(),
        UniqueCounts {
            unique_plans: 2,
            total_accepted_frames: 3
        }
    );
}

#[test]
fn plans_of_mixed_lengths_are_not_counted() {
    let err = count_unique_plans(&vec![vec![1, 2, 2], vec![2, 1, 1], vec![1, 2]]).unwrap_err();
    assert_eq!(
        err.message(),
        "assignment length changed from 3 to 2 within the BEN file; every plan in an ensemble \
         must assign the same node set"
    );
    let none = count_unique_plans(&vec![]).unwrap();
    assert_eq!((none.unique_plans, none.total_accepted_frames), (0, 0));
}

#[test]
fn extraction_keeps_the_first_plan_of_each_partition() {
    let plans = vec![
        vec![3, 3, 2, 2],
        vec![2, 2, 1, 1],
        vec![1, 2, 1, 2],
        vec![7, 7, 9, 9],
    ];
    let (kept, total) = extract_unique_plans(plans).unwrap();
    assert_eq!(kept, vec![vec![3, 3, 2, 2], vec![1, 2, 1, 2]]);
    assert_eq!(total, 4);
    let (again, left) = extract_unique_plans(kept.clone()).unwrap();
    assert_eq!(again, kept);
    assert_eq!(left, 2);
}

#[test]
fn extraction_rejects_mixed_lengths() {
    let err = extract_unique_plans(vec![vec![1, 2], vec![1, 2], vec![1]]).unwrap_err();
    assert_eq!(
        err.message(),
        "assignment length changed from 2 to 1 within the BEN file; \
         every plan in an ensemble must assign the same node set"
    );
    let mut extraction = UniquePlanExtraction::new(3);
    assert_eq!(extraction.offer(vec![1, 2], 1).unwrap(), Some(vec![1, 2]));
    assert_eq!(extraction.offer(vec![2, 1], 4).unwrap(), None);
    assert!(extraction.offer(vec![1], 1).is_err());
    assert_eq!(extraction.frames.accepted_count, 2);
}

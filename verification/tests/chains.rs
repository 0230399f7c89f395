use ben_process::error::Error;
use ben_process::graph::{CsrAdjacency, Graph};
use ben_process::metrics::chain::{run_incremental_twodelta, ChainRow};
use ben_process::metrics::chain_runs::{
    run_incremental_twodelta_polsby_popper, run_incremental_twodelta_tallies, ChainPostings,
};
use ben_process::metrics::composite::{CompositeTwoDeltaMetric, IncrementalRustBackedMetric};
use ben_process::metrics::ledger::Posting;
use ben_process::metrics::polsby_popper::{
    IncrementalPolsbyPopper, AREA_TABLE, PERIMETER_TABLE, SHARED_TABLE,
};
use ben_process::metrics::region::RegionMetric;
use ben_process::metrics::region_rows::run_incremental_twodelta_region_metric;
use ben_process::metrics::reock::{reock_rows, IncrementalReock};
use ben_process::metrics::reock_chain::run_incremental_twodelta_reock;
use ben_process::metrics::runs::{tally_from_key_list, tally_polsby_popper, tally_reock};
use ben_process::metrics::scorer::validate_observed;
use ben_process::metrics::tally_keys::IncrementalTallies;
use ben_process::metrics::twodelta::{
    validate_changes, IncrementalTwoDeltaMetric, TwoDeltaEvent,
};
use ben_process::pipeline::PipelineRow;

/// A path of four nodes with populations and lengths.
fn graph() -> Graph<f64> {
    let edges = vec![(0, 1), (1, 2), (2, 3)];
    Graph {
        node_count: 4,
        attr_columns: vec![vec![1.0, 2.0, 4.0, 8.0], vec![3.0, 2.0, 2.0, 3.0]],
        attr_keys: vec!["area".to_string(), "boundary_perim".to_string()],
        region_columns: vec![vec![Some(0), Some(0), Some(1), Some(1)]],
        region_keys: vec!["county".to_string()],
        region_id_counts: vec![2],
        adjacency: Some(CsrAdjacency::new(4, &edges)),
        edges,
        edge_weights: Some(vec![1.0, 2.0, 4.0]),
    }
}

fn snapshot(assignment: &[u16], count: u16) -> TwoDeltaEvent {
    TwoDeltaEvent::Snapshot { assignment: assignment.to_vec(), count }
}

fn delta(changes: &[(u32, u16, u16)], count: u16) -> TwoDeltaEvent {
    TwoDeltaEvent::Delta { changes: changes.to_vec(), count }
}

/// Four plans: a full one, two deltas, and a full one again.
fn events() -> Vec<TwoDeltaEvent> {
    vec![
        snapshot(&[1, 1, 2, 2], 2),
        delta(&[(1, 1, 2)], 1),
        delta(&[(3, 2, 1), (0, 1, 2)], 3),
        snapshot(&[2, 1, 1, 2], 1),
    ]
}

/// The plans of [`events`].
fn records() -> Vec<(Vec<u16>, u16)> {
    vec![
        (vec![1, 1, 2, 2], 2),
        (vec![1, 2, 2, 2], 1),
        (vec![2, 2, 2, 1], 3),
        (vec![2, 1, 1, 2], 1),
    ]
}

fn post(totals: &mut [[f64; 3]], postings: &[Posting<f64>]) {
    for posting in postings {
        let value = if posting.negative { -posting.value } else { posting.value };
        totals[posting.district as usize][posting.table] += value;
    }
}

/// The totals after every row of a chain.
fn running(rows: &[PipelineRow<ChainRow<ChainPostings<f64>>>]) -> Vec<Vec<[f64; 3]>> {
    let mut totals = vec![[0.0; 3]; 4];
    rows.iter()
        .map(|row| {
            if row.row.starts_over {
                totals = vec![[0.0; 3]; 4];
            }
            post(&mut totals, &row.row.row.postings);
            totals.clone()
        })
        .collect()
}

#[test]
fn chain_tallies_are_those_of_each_plan() {
    let graph = graph();
    let indices = vec![0, 1];
    let (rows, ended) = run_incremental_twodelta_tallies(&graph, events(), &indices, None);
    ended.unwrap();
    let numbers: Vec<(u64, u32, u64)> =
        rows.iter().map(|row| (row.step, row.n_reps, row.accepted)).collect();
    assert_eq!(numbers, vec![(1, 2, 1), (3, 1, 2), (4, 3, 3), (7, 1, 4)]);
    assert!(rows.iter().all(|row| row.row.row.observed == 0b110));
    let starts: Vec<bool> = rows.iter().map(|row| row.row.starts_over).collect();
    assert_eq!(starts, vec![true, false, false, true]);
    let totals = running(&rows);
    let (plain, _) = tally_from_key_list(&graph, records(), &indices, None);
    for (i, row) in plain.iter().enumerate() {
        for key in 0..2 {
            for district in 1..3 {
                let direct: f64 = row.row.totals[key][district].iter().sum();
                assert_eq!(totals[i][district][key], direct);
            }
        }
    }
    assert_eq!(totals[2][1][0], 8.0);
    assert_eq!(totals[2][2][0], 7.0);
}

#[test]
fn chain_perimeters_are_those_of_each_plan() {
    let graph = graph();
    let areas = vec![1.0, 2.0, 4.0, 8.0];
    let perimeters = vec![4.0, 5.0, 8.0, 7.0];
    let shared = vec![1.0, 2.0, 4.0];
    let (rows, ended) = run_incremental_twodelta_polsby_popper(
        &graph,
        events(),
        &areas,
        &perimeters,
        &shared,
        None,
    );
    ended.unwrap();
    assert_eq!(rows.len(), 4);
    let totals = running(&rows);
    let (plain, _) = tally_polsby_popper(&graph, &areas, &perimeters, &shared, records(), None);
    for (i, row) in plain.iter().enumerate() {
        let mut direct = vec![[0.0; 3]; 4];
        post(&mut direct, &row.row.postings);
        assert_eq!(totals[i], direct);
    }
    // Nodes 0 to 2 are one district: the edges between them are inside it.
    assert_eq!(totals[2][2][AREA_TABLE], 7.0);
    assert_eq!(totals[2][2][PERIMETER_TABLE], 17.0);
    assert_eq!(totals[2][2][SHARED_TABLE], -3.0);
}

#[test]
fn chain_stops_after_the_samples_asked_for() {
    let (rows, ended) = run_incremental_twodelta_tallies(&graph(), events(), &[0], Some(4));
    ended.unwrap();
    let numbers: Vec<(u64, u32)> = rows.iter().map(|row| (row.step, row.n_reps)).collect();
    assert_eq!(numbers, vec![(1, 2), (3, 1), (4, 1)]);
}

#[test]
fn chain_reports_the_first_event_that_cannot_be_followed() {
    let graph = graph();
    let run = |events: Vec<TwoDeltaEvent>| {
        let (rows, ended) = run_incremental_twodelta_tallies(&graph, events, &[0], None);
        (rows.len(), ended.unwrap_err().message())
    };
    assert_eq!(
        run(vec![delta(&[(0, 1, 2)], 1)]),
        (0, "TwoDelta delta event appeared before an initial snapshot".to_string())
    );
    assert_eq!(
        run(vec![snapshot(&[1, 2], 1)]),
        (0, "BEN assignment has 2 entries but graph has 4 nodes".to_string())
    );
    assert_eq!(
        run(vec![snapshot(&[1, 1, 2, 2], 1), delta(&[(9, 1, 2)], 1)]),
        (1, "TwoDelta delta references node 9 outside assignment length 4".to_string())
    );
    assert_eq!(
        run(vec![snapshot(&[1, 1, 2, 2], 1), delta(&[(0, 2, 1)], 1)]),
        (1, "TwoDelta delta old label mismatch at node 0: expected 1, got 2".to_string())
    );
    assert_eq!(
        run(vec![snapshot(&[1, 1, 2, 2], 1), delta(&[(2, 2, 1), (3, 2, 1)], 1)]),
        (
            1,
            "districts [2] from the first assignment are missing from a later plan; every plan in \
             the ensemble must use the same district labels to stream tally output with a fixed \
             schema"
                .to_string()
        )
    );
}

#[test]
fn labels_are_checked_after_or_along_with_the_changes() {
    let graph = graph();
    let both = || vec![snapshot(&[1, 1, 2, 2], 1), delta(&[(0, 1, 200), (1, 2, 1)], 1)];
    let mismatch = "TwoDelta delta old label mismatch at node 1: expected 1, got 2";
    let (_, tallies) = run_incremental_twodelta_tallies(&graph, both(), &[0], None);
    assert_eq!(tallies.unwrap_err().message(), mismatch);
    let (_, regions) = run_incremental_twodelta_region_metric(
        &graph,
        both(),
        &[0],
        RegionMetric::Splits,
        None,
    );
    assert!(matches!(regions, Err(Error::DistrictLimitExceeded { id: 200, limit: 128 })));
    let (_, perimeters) = run_incremental_twodelta_polsby_popper(
        &graph,
        both(),
        &[1.0; 4],
        &[4.0; 4],
        &[1.0; 3],
        None,
    );
    assert!(matches!(perimeters, Err(Error::DistrictLimitExceeded { id: 200, limit: 128 })));
    let swapped = vec![snapshot(&[1, 1, 2, 2], 1), delta(&[(1, 2, 1), (0, 1, 200)], 1)];
    let (_, regions) = run_incremental_twodelta_region_metric(
        &graph,
        swapped,
        &[0],
        RegionMetric::Splits,
        None,
    );
    assert_eq!(regions.unwrap_err().message(), mismatch);
}

#[test]
fn any_metric_can_follow_a_chain() {
    let areas = vec![1.0; 4];
    let (rows, ended) = run_incremental_twodelta(
        events(),
        4,
        "geometry row count",
        false,
        "reock".to_string(),
        None,
        IncrementalReock::new(&areas),
        |metric: &IncrementalReock<f64>| metric.state.node_counts[1],
    );
    ended.unwrap();
    let counts: Vec<u32> = rows.iter().map(|row| row.row.row as u32).collect();
    assert_eq!(counts, vec![2, 1, 1, 2]);
}

#[test]
fn emptied_district_loses_its_label() {
    let areas = vec![1.0; 4];
    let before = [1u16, 1, 2, 2];
    let mut state = IncrementalReock::new(&areas);
    state.seed(&before).unwrap();
    let changes = validate_changes(&before, &[(2, 2, 1), (3, 2, 1)]).unwrap();
    state.update_delta(&before, &changes).unwrap();
    let direct = reock_rows(&[1, 1, 1, 1], 4).unwrap();
    assert_eq!(state.observed(), direct.observed);
    assert_eq!(state.state.observed, 0b10);
    assert_eq!(state.state.node_counts, direct.node_counts);
    assert_eq!(state.emptied, vec![2]);
    assert_eq!(state.recompute, vec![1]);
    let back = validate_changes(&[1, 1, 1, 1], &[(3, 1, 2)]).unwrap();
    state.update_delta(&[1, 1, 1, 1], &back).unwrap();
    assert_eq!(state.observed(), 0b110);
}

#[test]
fn observed_districts_must_match() {
    assert_eq!(validate_observed(&[6, 6]).unwrap(), 6);
    assert_eq!(
        validate_observed(&[]).unwrap_err().message(),
        "cannot score without a prepared metric"
    );
    assert_eq!(
        validate_observed(&[6, 2]).unwrap_err().message(),
        "prepared metrics observed different district sets"
    );
}

#[test]
fn reock_chain_lists_units_and_what_to_score() {
    let areas = vec![1.0, 2.0, 4.0, 8.0];
    let (rows, ended) = run_incremental_twodelta_reock(&areas, events(), None);
    ended.unwrap();
    assert_eq!(rows.len(), 4);
    for (row, (plan, _)) in rows.iter().zip(records()) {
        for district in 0..4u16 {
            let mut units = row.row.row.units[district as usize].clone();
            units.sort();
            let direct: Vec<usize> = (0..4).filter(|&unit| plan[unit] == district).collect();
            assert_eq!(units, direct);
            assert_eq!(row.row.row.unit_counts[district as usize] as usize, direct.len());
        }
        assert_eq!(row.row.row.recompute, vec![1, 2]);
        assert!(row.row.row.emptied.is_empty());
    }
    let mut totals = vec![[0.0; 3]; 4];
    for (row, (plan, _)) in rows.iter().zip(records()) {
        if row.row.starts_over {
            totals = vec![[0.0; 3]; 4];
        }
        post(&mut totals, &row.row.row.postings);
        for district in 0..4u16 {
            let direct: f64 = (0..4)
                .filter(|&unit| plan[unit] == district)
                .map(|unit| areas[unit])
                .sum();
            assert_eq!(totals[district as usize][0], direct);
        }
    }
    let moved: Vec<(u16, bool, f64)> = rows[1]
        .row
        .row
        .postings
        .iter()
        .map(|posting| (posting.district, posting.negative, posting.value))
        .collect();
    assert_eq!(moved, vec![(1, true, 2.0), (2, false, 2.0)]);
}

#[test]
fn reock_chain_refuses_other_labels_than_the_first_plan_has() {
    let areas = vec![1.0; 4];
    let emptying = vec![snapshot(&[1, 1, 2, 2], 1), delta(&[(2, 2, 1), (3, 2, 1)], 1)];
    let (rows, ended) = run_incremental_twodelta_reock(&areas, emptying, None);
    assert_eq!(rows.len(), 1);
    assert_eq!(rows[0].row.row.observed, 0b110);
    assert_eq!(
        ended.unwrap_err().message(),
        "districts [2] from the first assignment are missing from a later plan; every plan in the \
         ensemble must use the same district labels to stream reock output with a fixed schema"
    );

    let plans = vec![(vec![1, 1, 2, 2], 1), (vec![1, 1, 1, 1], 1)];
    let (rows, ended) = tally_reock(4, plans, None);
    assert_eq!(rows.len(), 1);
    assert!(matches!(ended, Err(Error::DistrictSetChanged(_))));

    let growing = vec![snapshot(&[1, 1, 2, 2], 1), delta(&[(2, 2, 3)], 1)];
    let (rows, ended) = run_incremental_twodelta_reock(&areas, growing, None);
    assert_eq!(rows.len(), 1);
    assert!(matches!(ended, Err(Error::DistrictSetChanged(_))));

    let short = vec![snapshot(&[1, 2], 1)];
    let (_, ended) = run_incremental_twodelta_reock(&areas, short, None);
    assert!(matches!(
        ended,
        Err(Error::AssignmentLength {
            actual: 2,
            expected: 4,
            expected_label: "geometry row count",
            ..
        })
    ));
}

#[test]
fn metrics_follow_a_chain_side_by_side() {
    let graph = graph();
    let (areas, totals, shared) = (vec![1.0; 4], vec![4.0; 4], vec![1.0, 2.0, 4.0]);
    let composite = CompositeTwoDeltaMetric::new(vec![
        IncrementalRustBackedMetric::Tally(IncrementalTallies::new(&graph, &[0])),
        IncrementalRustBackedMetric::Reock(IncrementalReock::new(&areas)),
        IncrementalRustBackedMetric::PolsbyPopper(IncrementalPolsbyPopper::new(
            &graph, &areas, &totals, &shared,
        )),
    ])
    .unwrap();
    assert!(composite.has_room());
    let postings = |metric: &CompositeTwoDeltaMetric<'_, f64>| -> Vec<String> {
        metric
            .metrics
            .iter()
            .map(|metric| match metric {
                IncrementalRustBackedMetric::Tally(state) => format!("{:?}", state.postings),
                IncrementalRustBackedMetric::Reock(state) => format!("{:?}", state.postings),
                IncrementalRustBackedMetric::PolsbyPopper(state) => format!("{:?}", state.postings),
            })
            .collect()
    };
    let (rows, ended) = run_incremental_twodelta(
        events(),
        4,
        "graph node count",
        false,
        "score".to_string(),
        None,
        composite,
        postings,
    );
    ended.unwrap();
    let tallies = run_incremental_twodelta_tallies(&graph, events(), &[0], None).0;
    let units = run_incremental_twodelta_reock(&areas, events(), None).0;
    let perimeters =
        run_incremental_twodelta_polsby_popper(&graph, events(), &areas, &totals, &shared, None).0;
    assert_eq!(rows.len(), 4);
    for (i, row) in rows.iter().enumerate() {
        assert_eq!(
            row.row.row,
            vec![
                format!("{:?}", tallies[i].row.row.postings),
                format!("{:?}", units[i].row.row.postings),
                format!("{:?}", perimeters[i].row.row.postings),
            ]
        );
    }
}

#[test]
fn metrics_side_by_side_need_plans_of_one_length() {
    let (four, five) = (vec![1.0; 4], vec![1.0; 5]);
    assert_eq!(
        CompositeTwoDeltaMetric::<f64>::new(vec![]).unwrap_err().message(),
        "cannot score without a prepared metric"
    );
    let mixed = CompositeTwoDeltaMetric::new(vec![
        IncrementalRustBackedMetric::Reock(IncrementalReock::new(&four)),
        IncrementalRustBackedMetric::Reock(IncrementalReock::new(&five)),
    ]);
    assert_eq!(
        mixed.unwrap_err().message(),
        "prepared metrics have different node counts"
    );
    let mut pair = CompositeTwoDeltaMetric::new(vec![
        IncrementalRustBackedMetric::Reock(IncrementalReock::new(&four)),
        IncrementalRustBackedMetric::Reock(IncrementalReock::new(&four)),
    ])
    .unwrap();
    pair.seed(&[1, 1, 3, 3]).unwrap();
    assert_eq!(pair.observed(), 0b1010);
    pair.validate_observed().unwrap();
    assert!(matches!(
        pair.seed(&[1, 1, 3, 130]),
        Err(Error::DistrictLimitExceeded { id: 130, .. })
    ));
    if let IncrementalRustBackedMetric::Reock(state) = &mut pair.metrics[1] {
        state.seed(&[1, 1, 1, 1]).unwrap();
    }
    pair.metrics[0].seed(&[1, 1, 3, 3]).unwrap();
    assert_eq!(
        pair.validate_observed().unwrap_err().message(),
        "prepared metrics observed different district sets"
    );
}

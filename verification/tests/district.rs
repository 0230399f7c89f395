use ben_process::district::{
    assert_district_set_unchanged, observe_district, observed_assignment_districts,
    sorted_district_ids, validate_district_set_unchanged,
};
use ben_process::error::Error;
use ben_process::metrics::twodelta::{
    validate_changes, DistrictPresence, IncrementalTwoDeltaMetric, PostDeltaLabels, TwoDeltaEvent,
    TwoDeltaRow, TwoDeltaRun,
};
use ben_process::metrics::tally_keys::IncrementalTallies;
use ben_process::graph::Graph;

#[test]
fn observed_assignment_districts_returns_dense_count_and_mask() {
    let (n_districts, observed) = observed_assignment_districts(&[1, 3, 1]).unwrap();

    assert_eq!(n_districts, 4);
    assert_eq!(observed, (1u128 << 1) | (1u128 << 3));
}

#[test]
fn sorted_district_ids_returns_ascending_order() {
    let mask = (1u128 << 63) | (1u128 << 1) | (1u128 << 65);
    assert_eq!(sorted_district_ids(mask), vec![1, 63, 65]);
}

#[test]
fn assert_district_set_unchanged_accepts_identical_sets() {
    assert!(assert_district_set_unchanged(
        (1u128 << 1) | (1u128 << 3),
        (1u128 << 1) | (1u128 << 3),
        "tally",
    ));
}

#[test]
fn assertion_fails_for_a_changed_set() {
    let both = (1u128 << 1) | (1u128 << 3);
    assert!(!assert_district_set_unchanged(both, 1u128 << 1, "tally"));
    assert!(!assert_district_set_unchanged(1u128 << 1, both, "tally"));
}

#[test]
fn label_at_the_limit_is_reported() {
    let err = observed_assignment_districts(&[128]).unwrap_err();
    assert!(matches!(
        err,
        Error::DistrictLimitExceeded { id: 128, limit: 128 }
    ));
    assert_eq!(
        err.message(),
        "district id 128 exceeds current 128-district limit; widen the observed bitmask"
    );
    let mut mask = 0u128;
    observe_district(&mut mask, 127).unwrap();
    assert_eq!(mask, 1u128 << 127);
    assert!(observe_district(&mut mask, 128).is_err());
    assert_eq!(mask, 1u128 << 127);
}

#[test]
fn added_district_is_reported() {
    let err =
        validate_district_set_unchanged((1u128 << 1) | (1u128 << 3), 1u128 << 1, "tally").unwrap_err();
    assert_eq!(
        err.message(),
        "encountered districts [3] not present in first assignment; every plan in the ensemble \
         must use the same district labels to stream tally output with a fixed schema"
    );
}

#[test]
fn dropped_district_is_reported() {
    let err =
        validate_district_set_unchanged(1u128 << 1, (1u128 << 1) | (1u128 << 3), "tally").unwrap_err();
    assert_eq!(
        err.message(),
        "districts [3] from the first assignment are missing from a later plan; every plan in the \
         ensemble must use the same district labels to stream tally output with a fixed schema"
    );
}

#[test]
fn validate_changes_rejects_old_label_mismatch() {
    let err = validate_changes(&[1, 1, 2], &[(1, 2, 1)]).unwrap_err();

    assert!(
        err.message().contains("old label mismatch"),
        "unexpected error: {err:?}",
    );
    assert_eq!(
        err.message(),
        "TwoDelta delta old label mismatch at node 1: expected 1, got 2"
    );
}

#[test]
fn validate_changes_rejects_node_outside_assignment() {
    let err = validate_changes(&[1, 1, 2], &[(3, 2, 1)]).unwrap_err();

    assert!(
        err.message().contains("outside assignment length 3"),
        "unexpected error: {err:?}",
    );
    assert_eq!(
        err.message(),
        "TwoDelta delta references node 3 outside assignment length 3"
    );
}

#[test]
fn post_delta_labels_forget_the_delta_before() {
    let before = [1u16, 1, 2];
    let mut labels = PostDeltaLabels::new(3);
    let first = validate_changes(&before, &[(1, 1, 2)]).unwrap();
    labels.refresh(&first);
    assert_eq!(labels.label(&before, 0), 1);
    assert_eq!(labels.label(&before, 1), 2);
    let second = validate_changes(&before, &[(0, 1, 2)]).unwrap();
    labels.refresh(&second);
    assert_eq!(labels.label(&before, 0), 2);
    assert_eq!(labels.label(&before, 1), 1);
}

#[test]
fn post_delta_labels_start_without_a_delta() {
    assert_eq!(PostDeltaLabels::new(1).label(&[7], 0), 7);
    let labels = PostDeltaLabels::new(3);
    for (node, label) in [4u16, 0, 9].into_iter().enumerate() {
        assert_eq!(labels.label(&[4, 0, 9], node), label);
    }
}

#[test]
fn presence_starts_empty() {
    let presence = DistrictPresence::new();
    assert_eq!(presence.observed, 0);
    assert!(presence.node_counts.iter().all(|&count| count == 0));
}

fn graph() -> Graph<i64> {
    Graph {
        node_count: 3,
        attr_columns: vec![vec![10, 20, 30]],
        attr_keys: vec!["pop".to_string()],
        region_columns: vec![],
        region_keys: vec![],
        region_id_counts: vec![],
        edges: vec![],
        edge_weights: None,
        adjacency: None,
    }
}

fn run() -> TwoDeltaRun {
    TwoDeltaRun::new(3, "graph node count", "tally".to_string(), Some(5))
}

#[test]
fn chain_counts_samples_and_plans() {
    let graph = graph();
    let mut metric = IncrementalTallies::new(&graph, &[0]);
    let mut run = run();
    let snapshot = TwoDeltaEvent::Snapshot {
        assignment: vec![1, 1, 2],
        count: 2,
    };
    let reps = run.apply(&mut metric, snapshot).unwrap();
    assert_eq!(reps, 2);
    let row = run.emit(metric.observed(), reps).unwrap();
    assert_eq!(
        row,
        TwoDeltaRow {
            step: 1,
            n_reps: 2,
            accepted: 1
        }
    );
    let delta = TwoDeltaEvent::Delta {
        changes: vec![(1, 1, 2)],
        count: 9,
    };
    assert!(delta.names_each_node_once());
    assert!(run.wants_event());
    let reps = run.apply(&mut metric, delta).unwrap();
    assert_eq!(reps, 3, "only five samples are wanted");
    let row = run.emit(metric.observed(), reps).unwrap();
    assert_eq!((row.step, row.n_reps, row.accepted), (3, 3, 2));
    assert!(!run.wants_event());
    assert_eq!(run.assignment, Some(vec![1, 2, 2]));
}

#[test]
fn chain_needs_a_full_plan_first() {
    let graph = graph();
    let mut metric = IncrementalTallies::new(&graph, &[0]);
    let mut run = run();
    let err = run
        .apply(
            &mut metric,
            TwoDeltaEvent::Delta {
                changes: vec![],
                count: 1,
            },
        )
        .unwrap_err();
    assert_eq!(
        err.message(),
        "TwoDelta delta event appeared before an initial snapshot"
    );
}

#[test]
fn chain_rejects_wrong_lengths_and_changed_labels() {
    let graph = graph();
    let mut metric = IncrementalTallies::new(&graph, &[0]);
    let mut run = run();
    let err = run
        .apply(
            &mut metric,
            TwoDeltaEvent::Snapshot {
                assignment: vec![1, 2],
                count: 1,
            },
        )
        .unwrap_err();
    assert!(matches!(
        err,
        Error::AssignmentLength {
            actual: 2,
            actual_label: "BEN assignment length",
            expected: 3,
            expected_label: "graph node count",
        }
    ));
    for (labels, fits) in [([1, 1, 2], true), ([1, 1, 1], false)] {
        let reps = run
            .apply(
                &mut metric,
                TwoDeltaEvent::Snapshot {
                    assignment: labels.to_vec(),
                    count: 1,
                },
            )
            .unwrap();
        assert_eq!(run.emit(metric.observed(), reps).is_ok(), fits);
    }
}

#[test]
fn delta_that_names_a_node_twice_is_noticed() {
    let delta = TwoDeltaEvent::Delta {
        changes: vec![(1, 1, 2), (0, 1, 2), (1, 2, 1)],
        count: 1,
    };
    assert!(!delta.names_each_node_once());
}

use ben_process::district::MAX_DISTRICTS;
use ben_process::error::Error;
use ben_process::graph::{CsrAdjacency, Graph};
use ben_process::metrics::canonical::{canonical_hash, has_spare_label};
use ben_process::metrics::cut_edges::{cut_edges, CutValue};
use ben_process::metrics::ledger::Posting;
use ben_process::metrics::polsby_popper::{
    derive_total_perimeters, first_nonpositive_district, nonpositive_perimeter,
    polsby_popper_rows, IncrementalPolsbyPopper, AREA_TABLE, PERIMETER_TABLE, SHARED_TABLE,
};
use ben_process::metrics::region::{
    region_metric_column_name, region_metric_for_key, IncrementalRegionMetrics, RegionMetric,
};
use ben_process::metrics::reock::{reock_rows, IncrementalReock, ReockState};
use ben_process::metrics::tally_keys::{tally_keys, IncrementalTallies};
use ben_process::metrics::twodelta::{
    validate_changes, DeltaChange, IncrementalTwoDeltaMetric, TwoDeltaEvent, TwoDeltaRun,
};
use rand::rngs::StdRng;
use rand::seq::SliceRandom;
use rand::{RngExt, SeedableRng};
use xxhash_rust::xxh3::Xxh3;

fn empty_graph(node_count: usize) -> Graph<f64> {
    Graph {
        node_count,
        attr_columns: vec![],
        attr_keys: vec![],
        region_columns: vec![],
        region_keys: vec![],
        region_id_counts: vec![],
        edges: vec![],
        edge_weights: None,
        adjacency: None,
    }
}

/// Run a metric through a full plan and then through one delta.
fn follow<M: IncrementalTwoDeltaMetric>(
    metric: &mut M,
    plan: &[u16],
    changes: &[(u32, u16, u16)],
) -> Result<(), Error> {
    let mut run = TwoDeltaRun::new(plan.len(), "graph node count", "test".to_string(), None);
    run.apply(
        metric,
        TwoDeltaEvent::Snapshot {
            assignment: plan.to_vec(),
            count: 1,
        },
    )?;
    run.apply(
        metric,
        TwoDeltaEvent::Delta {
            changes: changes.to_vec(),
            count: 1,
        },
    )?;
    Ok(())
}

fn totals(postings: &[Posting<f64>], table: usize) -> Vec<f64> {
    let mut totals = vec![0.0; MAX_DISTRICTS as usize];
    add_postings(&mut totals, postings, table);
    totals
}

fn add_postings(totals: &mut [f64], postings: &[Posting<f64>], table: usize) {
    for posting in postings.iter().filter(|posting| posting.table == table) {
        if posting.negative {
            totals[posting.district as usize] -= posting.value;
        } else {
            totals[posting.district as usize] += posting.value;
        }
    }
}

// Canonical hashes.

fn random_binary_plan_with_both_labels(rng: &mut StdRng, len: usize) -> Vec<u16> {
    let mut plan: Vec<u16> = (0..len)
        .map(|_| if rng.random_bool(0.5) { 1 } else { 2 })
        .collect();
    if !plan.contains(&1) {
        plan[0] = 1;
    }
    if !plan.contains(&2) {
        plan[0] = 2;
    }
    if !plan.contains(&1) {
        plan[1] = 1;
    }
    plan
}

#[test]
fn canonical_hash_is_invariant_to_label_permutations() {
    assert_eq!(
        canonical_hash(&[1, 1, 2, 2, 3, 3]),
        canonical_hash(&[7, 7, 9, 9, 4, 4])
    );
    assert_eq!(
        canonical_hash(&[1, 2, 2, 3, 3, 1]),
        canonical_hash(&[4, 9, 9, 7, 7, 4])
    );
}

#[test]
fn canonical_hash_handles_empty_assignment() {
    let h1 = canonical_hash(&[]);
    let h2 = canonical_hash(&[]);
    assert_eq!(h1, h2);
}

#[test]
fn canonical_hash_handles_label_at_u16_max() {
    let plan = vec![u16::MAX, 0, u16::MAX, 0];
    let relabeled = vec![7u16, 9, 7, 9];
    assert_eq!(canonical_hash(&plan), canonical_hash(&relabeled));
    assert_ne!(
        canonical_hash(&plan),
        canonical_hash(&[u16::MAX, u16::MAX, 0, 0])
    );
}

#[test]
fn canonical_hash_distinguishes_different_partitions() {
    assert_ne!(canonical_hash(&[1, 1, 2, 2]), canonical_hash(&[1, 2, 1, 2]));
    assert_ne!(canonical_hash(&[1, 1, 2, 2]), canonical_hash(&[1, 2, 2, 1]));
}

#[test]
fn canonical_hash_matches_for_random_relabelings() {
    let mut rng = StdRng::seed_from_u64(0xC0FFEE);

    for _ in 0..200 {
        let plan_len = rng.random_range(8..32);
        let label_count = rng.random_range(2..8);
        let plan: Vec<u16> = (0..plan_len)
            .map(|_| rng.random_range(0..label_count) as u16)
            .collect();

        let mut labels: Vec<u16> = (0..label_count as u16).collect();
        labels.shuffle(&mut rng);
        let relabeled: Vec<u16> = plan.iter().map(|&label| labels[label as usize]).collect();

        assert_eq!(canonical_hash(&plan), canonical_hash(&relabeled));
    }
}

#[test]
fn canonical_hash_differs_for_random_distinct_binary_partitions() {
    let mut rng = StdRng::seed_from_u64(0xBAD5EED);

    for _ in 0..200 {
        let plan = random_binary_plan_with_both_labels(&mut rng, 24);
        let mut changed = plan.clone();
        let flip_index = rng.random_range(0..changed.len());
        changed[flip_index] = if changed[flip_index] == 1 { 2 } else { 1 };

        assert_ne!(plan, changed);
        assert_ne!(canonical_hash(&plan), canonical_hash(&changed));
    }
}

#[test]
fn canonical_hash_digests_labels_in_order_of_appearance() {
    let mut hasher = Xxh3::new();
    for label in [0u16, 0, 1, 2, 1] {
        hasher.update(&label.to_le_bytes());
    }
    assert_eq!(canonical_hash(&[5, 5, 900, 3, 900]), hasher.digest128());
    assert_eq!(canonical_hash(&[]), Xxh3::new().digest128());
}

#[test]
fn spare_label_is_missing_only_where_all_labels_occur() {
    assert!(has_spare_label(&[]));
    assert!(has_spare_label(&[0, u16::MAX, 0]));
    let all: Vec<u16> = (0..=u16::MAX).collect();
    assert!(!has_spare_label(&all));
    assert!(has_spare_label(&all[1..]));
}

// Cut edges.

fn cut(graph: &Graph<f64>, assignment: &[u16]) -> Result<(f64, u128), Error> {
    cut_edges(graph, assignment).map(|(value, observed)| {
        let value = match value {
            CutValue::Count(count) => count as f64,
            CutValue::Weights(weights) => weights.iter().fold(0.0, |sum, weight| sum + weight),
        };
        (value, observed)
    })
}

fn graph_with_edges(edge_weights: Option<Vec<f64>>) -> Graph<f64> {
    Graph {
        edges: vec![(0, 1), (1, 2), (2, 3)],
        edge_weights,
        ..empty_graph(4)
    }
}

fn graph_with_explicit_edges(
    edges: Vec<(u32, u32)>,
    edge_weights: Option<Vec<f64>>,
) -> Graph<f64> {
    let node_count = edges
        .iter()
        .map(|&(a, b)| a.max(b))
        .max()
        .map_or(0, |m| m as usize + 1);
    Graph {
        edges,
        edge_weights,
        ..empty_graph(node_count)
    }
}

#[test]
fn cut_edges_counts_unweighted_crossings() {
    let graph = graph_with_edges(None);
    let d12 = (1u128 << 1) | (1u128 << 2);
    assert_eq!(cut(&graph, &[1, 1, 2, 2]).unwrap(), (1.0, d12));
    assert_eq!(cut(&graph, &[1, 2, 1, 2]).unwrap(), (3.0, d12));
    assert_eq!(cut(&graph, &[7, 7, 7, 7]).unwrap(), (0.0, 1u128 << 7));
}

#[test]
fn cut_edges_sums_aligned_weights_for_crossings() {
    let graph = graph_with_edges(Some(vec![2.0, 5.5, 3.0]));
    let d12 = (1u128 << 1) | (1u128 << 2);
    assert_eq!(cut(&graph, &[1, 1, 2, 2]).unwrap(), (5.5, d12));
    assert_eq!(cut(&graph, &[1, 2, 1, 2]).unwrap(), (10.5, d12));
    assert_eq!(cut(&graph, &[4, 4, 4, 4]).unwrap(), (0.0, 1u128 << 4));
}

#[test]
fn cut_edges_returns_zero_for_empty_edge_list() {
    let unweighted = graph_with_explicit_edges(vec![], None);
    let weighted = graph_with_explicit_edges(vec![], Some(vec![]));
    assert_eq!(cut(&unweighted, &[1, 2, 3]).unwrap(), (0.0, 0u128));
    assert_eq!(cut(&weighted, &[1, 2, 3]).unwrap(), (0.0, 0u128));
}

#[test]
fn cut_edges_errors_on_district_beyond_limit() {
    let graph = graph_with_edges(None);
    let err = cut_edges(&graph, &[1, 1, 2, 128]).unwrap_err();
    assert!(
        err.message()
            .contains("exceeds current 128-district limit"),
        "unexpected error: {err:?}"
    );
}

#[test]
fn cut_edges_handles_zero_and_negative_weights() {
    let graph = graph_with_edges(Some(vec![0.0, -2.5, 4.0]));
    let d12 = (1u128 << 1) | (1u128 << 2);
    assert_eq!(cut(&graph, &[1, 2, 1, 2]).unwrap(), (1.5, d12));
    assert_eq!(cut(&graph, &[1, 1, 2, 2]).unwrap(), (-2.5, d12));
}

// Polsby-Popper.

fn graph_with_path_adjacency() -> Graph<f64> {
    Graph {
        edges: vec![(0, 1), (1, 2), (2, 3)],
        adjacency: Some(CsrAdjacency {
            offsets: vec![0, 1, 3, 5, 6],
            neighbors: vec![(1, 0), (0, 0), (2, 1), (1, 1), (3, 2), (2, 2)],
        }),
        ..empty_graph(4)
    }
}

/// The perimeters of the districts: what they share with themselves is inside, on both sides.
fn perimeters(postings: &[Posting<f64>]) -> Vec<f64> {
    let shared = totals(postings, SHARED_TABLE);
    totals(postings, PERIMETER_TABLE)
        .iter()
        .zip(shared)
        .map(|(perimeter, shared)| perimeter + 2.0 * shared)
        .collect()
}

#[test]
fn derive_total_perimeters_adds_boundary_and_shared_lengths() {
    let totals: Vec<f64> = derive_total_perimeters(
        &[3.0, 2.0, 2.0, 3.0],
        &[(0, 1), (1, 2), (2, 3)],
        &[1.0, 1.0, 1.0],
    )
    .iter()
    .map(|addends| addends.iter().sum())
    .collect();
    assert_eq!(totals, vec![4.0, 4.0, 4.0, 4.0]);
}

#[test]
fn polsby_popper_rows_errors_on_nonpositive_district_perimeter() {
    let (postings, n_districts, observed) =
        polsby_popper_rows(&[1, 2], &[1.0, 1.0], &[0.0, 0.0], &[], &[]).unwrap();
    let perimeters = perimeters(&postings);
    let nonpositive: Vec<bool> = perimeters[..n_districts as usize]
        .iter()
        .map(|&perimeter| perimeter <= 0.0)
        .collect();
    let district = first_nonpositive_district(observed, &nonpositive).unwrap();
    let err = nonpositive_perimeter(district, &perimeters[district].to_string());
    assert!(
        err.message()
            .contains("district 1 has nonpositive perimeter 0"),
        "unexpected error: {err:?}"
    );
}

#[test]
fn polsby_popper_rows_matches_known_two_district_example() {
    let (postings, n_districts, observed) = polsby_popper_rows(
        &[1, 1, 2, 2],
        &[1.0, 1.0, 1.0, 1.0],
        &[4.0, 4.0, 4.0, 4.0],
        &[(0, 1), (1, 2), (2, 3)],
        &[1.0, 1.0, 1.0],
    )
    .unwrap();
    let areas = totals(&postings, AREA_TABLE);
    let perimeters = perimeters(&postings);
    let scores: Vec<f64> = (0..n_districts as usize)
        .map(|d| {
            if perimeters[d] <= 0.0 {
                0.0
            } else {
                4.0 * std::f64::consts::PI * areas[d] / (perimeters[d] * perimeters[d])
            }
        })
        .collect();

    let expected = 2.0 * std::f64::consts::PI / 9.0;
    assert_eq!(n_districts, 3);
    assert_eq!(observed, (1u128 << 1) | (1u128 << 2));
    assert_eq!(scores[0], 0.0);
    assert!((scores[1] - expected).abs() < 1e-12);
    assert!((scores[2] - expected).abs() < 1e-12);
}

#[test]
fn incremental_polsby_popper_rejects_delta_old_label_mismatch() {
    let graph = graph_with_path_adjacency();
    let area = vec![1.0; 4];
    let total_perimeter = vec![4.0; 4];
    let shared_perimeter = vec![1.0; 3];
    let mut state =
        IncrementalPolsbyPopper::new(&graph, &area, &total_perimeter, &shared_perimeter);

    let err = follow(&mut state, &[1, 1, 2, 2], &[(1, 2, 1)]).unwrap_err();

    assert!(
        err.message().contains("old label mismatch"),
        "unexpected error: {err:?}",
    );
}

#[test]
fn patched_areas_and_perimeters_are_recomputed_ones() {
    let graph = graph_with_path_adjacency();
    let area = vec![1.0, 2.0, 4.0, 8.0];
    let total_perimeter = vec![16.0, 32.0, 64.0, 128.0];
    let shared_perimeter = vec![1.0, 3.0, 5.0];
    let mut state =
        IncrementalPolsbyPopper::new(&graph, &area, &total_perimeter, &shared_perimeter);
    let before = [1u16, 1, 2, 2];
    let mut tables = vec![vec![0.0; MAX_DISTRICTS as usize]; 3];
    state.seed(&before).unwrap();
    for (table, totals) in tables.iter_mut().enumerate() {
        add_postings(totals, &state.postings, table);
    }
    assert!(state.has_room());
    let changes = [
        DeltaChange {
            node: 1,
            old: 1,
            new: 2,
        },
        DeltaChange {
            node: 3,
            old: 2,
            new: 1,
        },
    ];
    state.update_delta(&before, &changes).unwrap();
    for (table, totals) in tables.iter_mut().enumerate() {
        add_postings(totals, &state.postings, table);
    }
    let after = [1u16, 2, 2, 1];
    let (postings, _, observed) = polsby_popper_rows(
        &after,
        &area,
        &total_perimeter,
        &graph.edges,
        &shared_perimeter,
    )
    .unwrap();
    for (table, found) in tables.iter().enumerate() {
        assert_eq!(*found, totals(&postings, table), "table {table}");
    }
    assert_eq!(state.observed(), observed);
}

#[test]
fn unused_districts_may_have_no_perimeter() {
    assert_eq!(first_nonpositive_district(0b100, &[true, true, false]), None);
    assert_eq!(
        first_nonpositive_district(0b101, &[true, true, false]),
        Some(0)
    );
    assert_eq!(
        nonpositive_perimeter(7, "-2.5").message(),
        "district 7 has nonpositive perimeter -2.5; check the area/perimeter/shared-perimeter keys"
    );
}

// Region splits and pieces.

fn graph_with_region_column(region_column: Vec<Option<u32>>, region_count: u32) -> Graph<f64> {
    Graph {
        region_keys: vec!["region".to_string()],
        region_id_counts: vec![region_count],
        ..Graph {
            node_count: region_column.len(),
            region_columns: vec![region_column],
            ..empty_graph(0)
        }
    }
}

#[test]
fn region_metric_counts_splits_and_pieces_while_ignoring_missing_regions() {
    let graph = graph_with_region_column(vec![Some(0), Some(0), Some(1), None], 2);
    let assignment = vec![1, 2, 2, 3];
    let max_district = 3;

    assert_eq!(
        region_metric_for_key(&graph, &assignment, 0, RegionMetric::Splits, max_district),
        1
    );
    assert_eq!(
        region_metric_for_key(&graph, &assignment, 0, RegionMetric::Pieces, max_district),
        3
    );
}

#[test]
fn incremental_region_metrics_rejects_delta_old_label_mismatch() {
    let graph = graph_with_region_column(vec![Some(0), Some(0), Some(1)], 2);
    let mut state = IncrementalRegionMetrics::new(&graph, &[0]);

    let err = follow(&mut state, &[1, 1, 2], &[(1, 2, 1)]).unwrap_err();

    assert!(
        err.message().contains("old label mismatch"),
        "unexpected error: {err:?}",
    );
}

#[test]
fn region_metric_handles_district_ids_across_word_boundaries() {
    let graph = graph_with_region_column(vec![Some(0), Some(0), Some(1)], 2);
    let assignment = vec![0, 64, 64];
    let max_district = 64;

    assert_eq!(
        region_metric_for_key(&graph, &assignment, 0, RegionMetric::Splits, max_district),
        1
    );
    assert_eq!(
        region_metric_for_key(&graph, &assignment, 0, RegionMetric::Pieces, max_district),
        3
    );
}

#[test]
fn region_metric_handles_single_district_plan() {
    let graph = graph_with_region_column(vec![Some(0), Some(1), Some(0), Some(1)], 2);
    let assignment = vec![0u16, 0, 0, 0];
    let max_district = 0;

    assert_eq!(
        region_metric_for_key(&graph, &assignment, 0, RegionMetric::Splits, max_district),
        0
    );
    assert_eq!(
        region_metric_for_key(&graph, &assignment, 0, RegionMetric::Pieces, max_district),
        2
    );
}

#[test]
fn region_metric_collapses_when_every_node_is_same_region_and_district() {
    let graph = graph_with_region_column(vec![Some(0), Some(0), Some(0)], 1);
    let assignment = vec![5u16, 5, 5];
    let max_district = 5;

    assert_eq!(
        region_metric_for_key(&graph, &assignment, 0, RegionMetric::Splits, max_district),
        0
    );
    assert_eq!(
        region_metric_for_key(&graph, &assignment, 0, RegionMetric::Pieces, max_district),
        1
    );
}

#[test]
fn region_metric_returns_zero_when_no_regions_are_present() {
    let graph = graph_with_region_column(vec![None, None], 0);
    assert_eq!(
        region_metric_for_key(&graph, &[1, 2], 0, RegionMetric::Splits, 2),
        0
    );
    assert_eq!(
        region_metric_for_key(&graph, &[1, 2], 0, RegionMetric::Pieces, 2),
        0
    );
}

#[test]
fn patched_region_counts_are_recomputed_ones() {
    let graph = graph_with_region_column(vec![Some(0), Some(0), Some(1), None, Some(1)], 2);
    let mut state = IncrementalRegionMetrics::new(&graph, &[0]);
    follow(&mut state, &[1, 1, 2, 2, 1], &[(0, 1, 2), (4, 1, 2)]).unwrap();
    let after = [2u16, 1, 2, 2, 2];
    for metric in [RegionMetric::Splits, RegionMetric::Pieces] {
        assert_eq!(
            state.values(metric),
            vec![region_metric_for_key(&graph, &after, 0, metric, 2)]
        );
    }
    assert_eq!(state.values(RegionMetric::Splits), vec![1]);
    assert_eq!(state.values(RegionMetric::Pieces), vec![3]);
    assert_eq!(
        region_metric_column_name(RegionMetric::Splits),
        "region_splits"
    );
    assert_eq!(
        region_metric_column_name(RegionMetric::Pieces),
        "region_pieces"
    );
}

#[test]
fn moving_a_node_there_and_back_restores_region_counts() {
    let graph = graph_with_region_column(vec![Some(0), Some(0), Some(1), None, Some(1)], 2);
    let before = [1u16, 1, 2, 2, 1];
    let mut state = IncrementalRegionMetrics::new(&graph, &[0]);
    follow(&mut state, &before, &[]).unwrap();
    let seeded = format!("{:?}", state.key_states);
    let there = validate_changes(&before, &[(0, 1, 2)]).unwrap();
    state.update_delta(&before, &there).unwrap();
    assert_ne!(format!("{:?}", state.key_states), seeded);
    let after = [2u16, 1, 2, 2, 1];
    let back = validate_changes(&after, &[(0, 2, 1)]).unwrap();
    state.update_delta(&after, &back).unwrap();
    assert_eq!(format!("{:?}", state.key_states), seeded);
}

// Reock.

fn assert_close(actual: f64, expected: f64) {
    assert!(
        (actual - expected).abs() <= 1e-9,
        "expected {expected}, got {actual}",
    );
}

fn assert_node_positions_valid(state: &ReockState) {
    for (district, nodes) in state.nodes_by_district.iter().enumerate() {
        for (position, &node) in nodes.iter().enumerate() {
            assert_eq!(
                state.node_position[node], position,
                "bad position for node {node} in district {district}",
            );
        }
    }
}

fn square_points(x: f64, y: f64) -> Vec<(f64, f64)> {
    vec![(x, y), (x + 1.0, y), (x + 1.0, y + 1.0), (x, y + 1.0)]
}

/// The score of a row of squares, whose enclosing circle has the longest diagonal as diameter.
fn row_score(state: &ReockState, corners: &[(f64, f64)], district: usize) -> f64 {
    let nodes = &state.nodes_by_district[district];
    if nodes.is_empty() {
        return 0.0;
    }
    let points: Vec<(f64, f64)> = nodes
        .iter()
        .flat_map(|&node| square_points(corners[node].0, corners[node].1))
        .collect();
    let mut diameter_sq = 0.0f64;
    for a in &points {
        for b in &points {
            diameter_sq = diameter_sq.max((a.0 - b.0).powi(2) + (a.1 - b.1).powi(2));
        }
    }
    nodes.len() as f64 / (std::f64::consts::PI * diameter_sq / 4.0)
}

#[test]
fn reock_rows_scores_hand_computable_assignment() {
    let corners = [(0.0, 0.0), (1.0, 0.0), (10.0, 0.0), (11.0, 0.0)];
    let areas = [1.0; 4];

    let state = reock_rows(&[0, 0, 1, 1], 4).unwrap();
    let mut follower = IncrementalReock::new(&areas);
    follower.seed(&[0, 0, 1, 1]).unwrap();
    let area_by_district = totals(&follower.postings, 0);

    assert_eq!(state.observed, 0b11);
    assert_eq!(state.node_counts[0], 2);
    assert_eq!(state.node_counts[1], 2);
    assert_close(area_by_district[0], 2.0);
    assert_close(area_by_district[1], 2.0);
    assert_close(
        row_score(&state, &corners, 0),
        8.0 / (5.0 * std::f64::consts::PI),
    );
    assert_close(
        row_score(&state, &corners, 1),
        8.0 / (5.0 * std::f64::consts::PI),
    );
    assert_close(row_score(&state, &corners, 2), 0.0);
    assert_node_positions_valid(&state);
    assert_eq!(follower.recompute, vec![0, 1]);
}

#[test]
fn reock_rows_rejects_assignment_length_mismatch() {
    let Err(err) = reock_rows(&[0, 1, 2], 4) else {
        panic!("expected assignment length mismatch");
    };

    assert!(matches!(err, Error::AssignmentLength { .. }));
}

#[test]
fn reock_rows_rejects_districts_outside_bitmask_limit() {
    let Err(err) = reock_rows(&[MAX_DISTRICTS, 0, 1, 1], 4) else {
        panic!("expected district limit error");
    };

    assert!(matches!(err, Error::DistrictLimitExceeded { .. }));
}

#[test]
fn incremental_delta_matches_full_recompute_after_moves() {
    let areas = [1.0; 6];
    let mut assignment = vec![0, 0, 0, 1, 1, 1];
    let mut incremental = IncrementalReock::new(&areas);
    incremental.seed(&assignment).unwrap();
    let mut area_by_district = totals(&incremental.postings, 0);

    let changes = vec![
        DeltaChange {
            node: 1,
            old: 0,
            new: 1,
        },
        DeltaChange {
            node: 4,
            old: 1,
            new: 0,
        },
        DeltaChange {
            node: 2,
            old: 0,
            new: 0,
        },
    ];
    incremental.update_delta(&assignment, &changes).unwrap();
    add_postings(&mut area_by_district, &incremental.postings, 0);
    for change in &changes {
        assignment[change.node] = change.new;
    }

    let expected = reock_rows(&assignment, 6).unwrap();
    assert_eq!(incremental.state.observed, expected.observed);
    assert_eq!(incremental.state.node_counts, expected.node_counts);
    for district in 0..MAX_DISTRICTS as usize {
        assert_close(
            area_by_district[district],
            expected.node_counts[district] as f64,
        );
        let mut actual_nodes = incremental.state.nodes_by_district[district].clone();
        let mut expected_nodes = expected.nodes_by_district[district].clone();
        actual_nodes.sort_unstable();
        expected_nodes.sort_unstable();
        assert_eq!(actual_nodes, expected_nodes);
    }
    assert_node_positions_valid(&incremental.state);
    assert_eq!(incremental.recompute, vec![0, 1]);
    assert!(incremental.emptied.is_empty());
}

#[test]
fn emptied_district_loses_its_score() {
    let areas = [1.0, 2.0, 3.0];
    let mut state = IncrementalReock::new(&areas);
    follow(&mut state, &[4, 5, 5], &[(0, 4, 5)]).unwrap();
    assert_eq!(state.emptied, vec![4]);
    assert_eq!(state.recompute, vec![5]);
    assert_eq!(state.state.node_counts[5], 3);
}

// Tallies.

fn graph_with_attr_columns(attr_columns: Vec<Vec<f64>>) -> Graph<f64> {
    Graph {
        node_count: attr_columns.first().map_or(0, |c| c.len()),
        attr_keys: (0..attr_columns.len()).map(|c| c.to_string()).collect(),
        attr_columns,
        ..empty_graph(0)
    }
}

#[test]
fn tally_keys_accumulates_multiple_keys_and_sparse_district_ids() {
    let graph = graph_with_attr_columns(vec![vec![1.0, 2.0, 3.0], vec![10.0, 20.0, 30.0]]);

    let (addends, n_districts, observed) = tally_keys(&graph, &[1, 3, 1], &[0, 1]).unwrap();
    let totals: Vec<f64> = addends
        .iter()
        .flatten()
        .map(|addends| addends.iter().fold(0.0, |sum, value| sum + value))
        .collect();

    assert_eq!(n_districts, 4);
    assert_eq!(observed, (1u128 << 1) | (1u128 << 3));
    assert_eq!(totals, vec![0.0, 4.0, 0.0, 2.0, 0.0, 40.0, 0.0, 20.0]);
}

#[test]
fn incremental_tallies_updates_delta() {
    let graph = graph_with_attr_columns(vec![vec![1.0, 2.0, 3.0]]);
    let before = vec![1, 1, 2];
    let changes = vec![DeltaChange {
        node: 1,
        old: 1,
        new: 2,
    }];
    let mut state = IncrementalTallies::new(&graph, &[0]);

    state.seed(&before).unwrap();
    let mut totals = totals(&state.postings, 0);
    state.update_delta(&before, &changes).unwrap();
    add_postings(&mut totals, &state.postings, 0);

    assert_eq!(totals[1], 1.0);
    assert_eq!(totals[2], 5.0);
    assert_eq!(state.observed(), (1u128 << 1) | (1u128 << 2));
}

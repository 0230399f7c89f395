use ben_process::coin::Reassignments;
use ben_process::error::{Error, IoErrorKind};
use ben_process::metrics::changed_assignments::{
    accepted_line_count, changed_assignments_suffix, compute_changed_counts,
    finalize_changed_counts, find_first_disagreement_index, swap_labels,
    update_changed_assignment_state, validate_labels_within_first_assignment_range,
    ChangedAssignments,
};
use ben_process::metrics::changed_run::tally_changed_assignments;
use rand::rngs::StdRng;
use rand::{RngExt, SeedableRng};

/// The fractions as numbers.
fn quotients(diff_count: &[u32], line_count: usize, normalize: bool) -> Vec<f64> {
    finalize_changed_counts(diff_count, line_count, normalize)
        .iter()
        .map(|f| f.numerator as f64 / f.denominator as f64)
        .collect()
}

#[test]
fn disagreement_index_returns_first_mismatch() {
    assert_eq!(
        find_first_disagreement_index(&[1, 2, 3], &[1, 9, 3]),
        Some((1, (2, 9)))
    );
    assert_eq!(find_first_disagreement_index(&[1, 2], &[1, 2]), None);
}

#[test]
fn changed_assignments_disagreement_index_returns_first_mismatch() {
    assert_eq!(
        find_first_disagreement_index(&[1, 2, 3], &[1, 9, 3]),
        Some((1, (2, 9)))
    );
    assert_eq!(find_first_disagreement_index(&[1, 2], &[1, 2]), None);
}

#[test]
fn swap_labels_rewrites_all_occurrences() {
    let mut labels = vec![1, 2, 3, 2, 1];
    swap_labels(&mut labels, 1, 2);
    assert_eq!(labels, vec![2, 1, 3, 1, 2]);
}

#[test]
fn changed_assignments_swap_labels_rewrites_all_occurrences() {
    let mut labels = vec![1, 2, 3, 2, 1];
    swap_labels(&mut labels, 1, 2);
    assert_eq!(labels, vec![2, 1, 3, 1, 2]);
}

#[test]
fn update_state_applies_existing_permutation_before_counting() {
    let current_assignment = vec![1, 1, 2, 2];
    let mut next_assignment = vec![2, 2, 1, 1];
    let mut current_permutation = vec![0, 2, 1];
    let mut diff_count = vec![0u32; 4];

    update_changed_assignment_state(
        &current_assignment,
        &mut next_assignment,
        &mut current_permutation,
        &mut diff_count,
        false,
    )
    .unwrap();

    assert_eq!(next_assignment, current_assignment);
    assert_eq!(diff_count, vec![0, 0, 0, 0]);
    assert_eq!(current_permutation, vec![0, 2, 1]);
}

#[test]
fn changed_assignments_update_state_applies_existing_permutation_before_counting() {
    let current_assignment = vec![1, 1, 2, 2];
    let mut next_assignment = vec![2, 2, 1, 1];
    let mut current_permutation = vec![0, 2, 1];
    let mut diff_count = vec![0u32; 4];

    update_changed_assignment_state(
        &current_assignment,
        &mut next_assignment,
        &mut current_permutation,
        &mut diff_count,
        false,
    )
    .unwrap();

    assert_eq!(next_assignment, current_assignment);
    assert_eq!(diff_count, vec![0, 0, 0, 0]);
    assert_eq!(current_permutation, vec![0, 2, 1]);
}

#[test]
fn update_state_randomized_reassignment_swaps_labels_and_updates_permutation() {
    let current_assignment = vec![1, 1, 2, 2];
    let mut next_assignment = vec![1, 2, 1, 2];
    let mut current_permutation = vec![0, 1, 2];
    let mut diff_count = vec![0u32; 4];

    update_changed_assignment_state(
        &current_assignment,
        &mut next_assignment,
        &mut current_permutation,
        &mut diff_count,
        true,
    )
    .unwrap();

    assert_eq!(next_assignment, vec![2, 1, 2, 1]);
    assert_eq!(current_permutation, vec![0, 2, 1]);
    assert_eq!(diff_count, vec![1, 0, 0, 1]);
}

#[test]
fn changed_assignments_update_state_randomized_reassignment_swaps_labels_and_updates_permutation() {
    let current_assignment = vec![1, 1, 2, 2];
    let mut next_assignment = vec![1, 2, 1, 2];
    let mut current_permutation = vec![0, 1, 2];
    let mut diff_count = vec![0u32; 4];

    update_changed_assignment_state(
        &current_assignment,
        &mut next_assignment,
        &mut current_permutation,
        &mut diff_count,
        true,
    )
    .unwrap();

    assert_eq!(next_assignment, vec![2, 1, 2, 1]);
    assert_eq!(current_permutation, vec![0, 2, 1]);
    assert_eq!(diff_count, vec![1, 0, 0, 1]);
}

#[test]
fn finalize_counts_normalizes_single_plan_to_zeroes() {
    assert_eq!(quotients(&[0, 0, 0], 1, true), vec![0.0, 0.0, 0.0]);
}

#[test]
fn changed_assignments_finalize_counts_normalizes_single_plan_to_zeroes() {
    assert_eq!(quotients(&[0, 0, 0], 1, true), vec![0.0, 0.0, 0.0]);
}

#[test]
fn finalize_counts_divides_by_transition_count_when_normalizing() {
    assert_eq!(quotients(&[0, 2, 1], 3, true), vec![0.0, 1.0, 0.5]);
    assert_eq!(quotients(&[0, 2, 1], 3, false), vec![0.0, 2.0, 1.0]);
}

#[test]
fn changed_assignments_finalize_counts_divides_by_transition_count_when_normalizing() {
    assert_eq!(quotients(&[0, 2, 1], 3, true), vec![0.0, 1.0, 0.5]);
    assert_eq!(quotients(&[0, 2, 1], 3, false), vec![0.0, 2.0, 1.0]);
}

#[test]
fn validates_later_assignment_labels_before_permutation_indexing() {
    let err = validate_labels_within_first_assignment_range(&[1, 3], &[0, 1, 2]).unwrap_err();
    assert!(
        err.message().contains(
            "encountered assignment label 3 at index 1 outside first assignment label range 0..=2"
        ),
        "unexpected error: {err:?}"
    );
}

#[test]
fn compute_changed_counts_with_no_randomization_matches_pure_diff() {
    let first = vec![1u16, 1, 2, 2];
    let rest = vec![vec![1u16, 2, 1, 2], vec![2u16, 2, 1, 1]];

    let (diff_count, full_count) = compute_changed_counts(&first, rest, || false);

    assert_eq!(diff_count, vec![1, 1, 1, 1]);
    assert_eq!(full_count, 3);
}

#[test]
fn compute_changed_counts_randomize_always_swaps_first_disagreement() {
    let first = vec![1u16, 1, 2, 2];
    let rest = vec![vec![2u16, 2, 1, 1]];

    let (diff_count, full_count) = compute_changed_counts(&first, rest, || true);

    assert_eq!(diff_count, vec![0, 0, 0, 0]);
    assert_eq!(full_count, 2);
}

#[test]
fn compute_changed_counts_invokes_randomize_callback_per_step() {
    let first = vec![1u16, 1, 2, 2];
    let rest = vec![
        vec![1u16, 2, 1, 2],
        vec![2u16, 2, 1, 1],
        vec![1u16, 1, 1, 2],
    ];

    let mut decisions = vec![false, true, false].into_iter();
    let (_diff_count, full_count) =
        compute_changed_counts(&first, rest, || decisions.next().unwrap());

    assert_eq!(full_count, 4);
    assert!(decisions.next().is_none(), "callback called too few times");
}

#[test]
fn swapping_twice_changes_nothing() {
    let mut labels = vec![4, 7, 1, 4];
    swap_labels(&mut labels, 4, 1);
    assert_eq!(labels, vec![1, 7, 4, 1]);
    swap_labels(&mut labels, 4, 1);
    assert_eq!(labels, vec![4, 7, 1, 4]);
}

#[test]
fn new_state_is_empty() {
    let state = ChangedAssignments::new();
    assert_eq!(state.current_assignment, None);
    assert!(state.current_permutation.is_empty());
    assert!(state.diff_count.is_empty());
    assert_eq!(state.full_count, 0);
}

#[test]
fn label_outside_leaves_the_state_alone() {
    let mut state = ChangedAssignments::new();
    state.accept(vec![0, 1], false).unwrap();
    let err = state.accept(vec![0, 2], false).unwrap_err();
    assert_eq!(
        err.message(),
        "encountered assignment label 2 at index 1 outside first assignment label range 0..=1; \
         changed-assignments cannot apply the current label permutation"
    );
    assert_eq!(state.full_count, 1);
    assert_eq!(state.current_assignment, Some(vec![0, 1]));
}

#[test]
fn line_count_is_capped_by_what_is_there() {
    assert_eq!(accepted_line_count(None, 7), 7);
    assert_eq!(accepted_line_count(Some(3), 7), 3);
    assert_eq!(accepted_line_count(Some(30), 7), 7);
    assert_eq!(
        changed_assignments_suffix(12),
        "_accept_12_changed_assignments.parquet"
    );
}

#[test]
fn seed_makes_a_run_repeatable() {
    let plans: Vec<Vec<u16>> = (0..64u16)
        .map(|i| (0..8u16).map(|j| 1 + ((i * 5 + j * 3 + i * j) % 2)).collect())
        .map(|mut plan: Vec<u16>| {
            plan.push(1);
            plan.push(2);
            plan
        })
        .collect();
    let (first, n) = tally_changed_assignments(&plans, None, true, Some(11)).unwrap();
    let (second, _) = tally_changed_assignments(&plans, None, true, Some(11)).unwrap();
    let (plain, _) = tally_changed_assignments(&plans, None, false, Some(11)).unwrap();
    assert_eq!(n, 64);
    assert_eq!(first, second);
    assert_ne!(first, plain);
    assert!(first.iter().all(|&count| count < 64));
}

#[test]
fn flips_come_from_the_seeded_generator() {
    let mut coins = Reassignments::new(true, Some(42));
    let mut rng = StdRng::seed_from_u64(42);
    let mut seen = [false, false];
    for _ in 0..200 {
        let flip = coins.decide();
        assert_eq!(flip, rng.random_bool(0.5));
        seen[flip as usize] = true;
    }
    assert_eq!(seen, [true, true]);

    let mut off = Reassignments::new(false, Some(42));
    assert!((0..50).all(|_| !off.decide()));

    let mut unseeded = Reassignments::new(true, None);
    let _ = unseeded.decide();
}

#[test]
fn first_plan_uses_up_no_flip() {
    let mut coins = Reassignments::new(true, Some(7));
    let mut reference = Reassignments::new(true, Some(7));
    let mut state = ChangedAssignments::new();
    state.accept_frame(vec![1, 2], &mut coins).unwrap();
    let randomize = reference.decide();
    state.accept_frame(vec![2, 1], &mut coins).unwrap();
    let (counts, plans) = state.finish().unwrap();
    assert_eq!(plans, 2);
    assert_eq!(counts, if randomize { vec![0, 0] } else { vec![1, 1] });
}

#[test]
fn run_without_plans_has_no_data() {
    assert!(matches!(
        tally_changed_assignments(&vec![], None, false, None),
        Err(Error::NoData)
    ));
    assert!(matches!(
        tally_changed_assignments(&vec![vec![1, 2]], Some(0), false, None),
        Err(Error::NoData)
    ));
    assert_eq!(Error::NoData.message(), "No data found");
}

#[test]
fn run_reports_the_first_plan_that_does_not_fit() {
    let lengths = tally_changed_assignments(&vec![vec![1, 2], vec![1, 2, 1]], None, false, None);
    assert_eq!(
        lengths.unwrap_err().message(),
        "assignment length changed from 2 to 3 within the BEN file; \
         every plan in an ensemble must assign the same node set"
    );
    let labels = tally_changed_assignments(&vec![vec![1, 2], vec![1, 3]], None, false, None);
    assert!(matches!(labels, Err(Error::DistrictSetChanged(_))));
    let excess = tally_changed_assignments(&vec![vec![1, 200]], None, false, None);
    assert!(matches!(
        excess,
        Err(Error::DistrictLimitExceeded { id: 200, limit: 128 })
    ));
    let capped =
        tally_changed_assignments(&vec![vec![1, 2], vec![2, 1], vec![9]], Some(2), false, None);
    assert_eq!(capped.unwrap(), (vec![1, 1], 2));
}

#[test]
fn label_errors_are_invalid_data() {
    let err = validate_labels_within_first_assignment_range(&[5], &[0]).unwrap_err();
    assert!(matches!(
        err,
        Error::Io {
            kind: IoErrorKind::InvalidData,
            ..
        }
    ));
}

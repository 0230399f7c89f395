use ben_process::error::Error;
use ben_process::frames::{
    decode_frame, process_batch, run_frame_pipeline, run_metric_on_frame, undecodable, FrameLayout,
    StoredFrame, StreamVariant,
};
use ben_process::pipeline::{
    capped_reps, process_assignment_batch, run_label_invariant_pipeline, run_metric_on_assignment,
    run_pipeline, wants_samples, AcceptedFrame, AssignmentLengthCheck, Pipeline, PipelineRow,
    SequentialFrames, BATCH,
};
use binary_ensemble::codec::BenDecodeFrame;
use binary_ensemble::io::reader::{BenStreamReader, DecodeFrame};
use binary_ensemble::io::writer::BenStreamWriter;
use binary_ensemble::BenVariant;

/// An ensemble as it is stored.
fn write_ben(variant: BenVariant, assignments: &[Vec<u16>]) -> Vec<u8> {
    let mut encoder = BenStreamWriter::for_ben(Vec::new(), variant).unwrap();
    for assignment in assignments {
        encoder.write_assignment(assignment.clone()).unwrap();
    }
    encoder.finish_into_inner().unwrap()
}

/// The frames of a stored ensemble: a plan, and how many samples it stands for.
fn frames(ben: &[u8]) -> Vec<(Vec<u16>, u16)> {
    BenStreamReader::from_ben(ben)
        .unwrap()
        .silent(true)
        .map(|frame| frame.unwrap())
        .collect()
}

fn records(variant: BenVariant, assignments: &[Vec<u16>]) -> Vec<(Vec<u16>, u16)> {
    frames(&write_ben(variant, assignments))
}

fn tuples<Row>(rows: Vec<PipelineRow<Row>>) -> Vec<(u64, u32, u64, Row)> {
    rows.into_iter()
        .map(|row| (row.step, row.n_reps, row.accepted, row.row))
        .collect()
}

/// Go through the frames one after another, as far as they pass.
fn run_sequential(
    records: Vec<(Vec<u16>, u16)>,
    max_frames: Option<usize>,
    district_set_label: Option<&str>,
) -> (Vec<AcceptedFrame>, Result<usize, Error>) {
    let mut run = SequentialFrames::new(
        records.len(),
        max_frames,
        AssignmentLengthCheck::UniformWithinFile,
        district_set_label.map(|label| label.to_string()),
    );
    let mut seen = Vec::new();
    for (assignment, n_reps) in records {
        if run.frames_left == 0 {
            break;
        }
        match run.accept(assignment, n_reps) {
            Ok(frame) => seen.push(frame),
            Err(e) => return (seen, Err(e)),
        }
    }
    let consumed = seen.len();
    (seen, Ok(consumed))
}

#[test]
fn count_samples_and_frames_diverge_for_mkvchain_repetitions() {
    let records = records(
        BenVariant::MkvChain,
        &[vec![1, 1, 2, 2], vec![1, 1, 2, 2], vec![2, 2, 1, 1]],
    );

    let samples: usize = records.iter().map(|(_, n_reps)| *n_reps as usize).sum();
    assert_eq!(samples, 3);
    assert_eq!(records.len(), 2);
}

#[test]
fn run_pipeline_reports_steps_repetitions_and_acceptance_order() {
    let records = records(
        BenVariant::MkvChain,
        &[vec![1, 1, 2, 2], vec![1, 1, 2, 2], vec![2, 2, 1, 1]],
    );

    let (rows, ended) = run_label_invariant_pipeline(
        records,
        AssignmentLengthCheck::MatchesGraph(4),
        |assignment: &[u16], n_reps| Ok((assignment[0], n_reps)),
        None,
    );

    ended.unwrap();
    assert_eq!(tuples(rows), vec![(1, 2, 1, (1, 2)), (3, 1, 2, (2, 1)),]);
}

#[test]
fn run_pipeline_max_samples_truncates_mkvchain_repetitions() {
    let records = records(
        BenVariant::MkvChain,
        &[
            vec![1, 1, 2, 2],
            vec![1, 1, 2, 2],
            vec![1, 1, 2, 2],
            vec![2, 2, 1, 1],
        ],
    );

    let (rows, ended) = run_label_invariant_pipeline(
        records,
        AssignmentLengthCheck::MatchesGraph(4),
        |assignment: &[u16], n_reps| Ok((assignment[0], n_reps)),
        Some(2),
    );

    ended.unwrap();
    assert_eq!(tuples(rows), vec![(1, 2, 1, (1, 2))]);
}

#[test]
fn run_pipeline_twodelta_record_path_matches_standard_rows() {
    let assignments = vec![vec![1, 1, 2, 2], vec![1, 2, 1, 2], vec![2, 2, 1, 1]];
    let run = |variant: BenVariant| {
        let (rows, ended) = run_label_invariant_pipeline(
            records(variant, &assignments),
            AssignmentLengthCheck::MatchesGraph(4),
            |assignment: &[u16], n_reps| Ok((assignment.to_vec(), n_reps)),
            None,
        );
        ended.unwrap();
        tuples(rows)
    };

    assert_eq!(run(BenVariant::TwoDelta), run(BenVariant::Standard));
}

#[test]
fn run_pipeline_twodelta_max_samples_truncates_repetitions() {
    let records = records(
        BenVariant::TwoDelta,
        &[
            vec![1, 1, 2, 2],
            vec![1, 1, 2, 2],
            vec![1, 1, 2, 2],
            vec![2, 2, 1, 1],
        ],
    );

    let (rows, ended) = run_label_invariant_pipeline(
        records,
        AssignmentLengthCheck::MatchesGraph(4),
        |assignment: &[u16], n_reps| Ok((assignment[0], n_reps)),
        Some(2),
    );

    ended.unwrap();
    assert_eq!(tuples(rows), vec![(1, 2, 1, (1, 2))]);
}

#[test]
fn run_sequential_accepted_frames_reports_frame_order_and_respects_cap() {
    let records = records(
        BenVariant::MkvChain,
        &[vec![1, 1, 2, 2], vec![1, 1, 2, 2], vec![2, 2, 1, 1]],
    );

    let (frames, consumed) = run_sequential(records, Some(1), None);
    let rows: Vec<(u64, u16, Vec<u16>)> = frames
        .into_iter()
        .map(|frame| (frame.accepted_count, frame.n_reps, frame.assignment))
        .collect();

    assert_eq!(consumed.unwrap(), 1);
    assert_eq!(rows, vec![(1, 2, vec![1, 1, 2, 2])]);
}

fn run_pipeline_with_expected_len(expected_len: usize) -> Result<(), Error> {
    let records = records(BenVariant::Standard, &[vec![0, 1, 2, 1]]);
    run_label_invariant_pipeline(
        records,
        AssignmentLengthCheck::MatchesGraph(expected_len),
        |assignment: &[u16], _n_reps| Ok(assignment.len()),
        None,
    )
    .1
}

#[test]
fn run_pipeline_errors_when_assignment_longer_than_graph() {
    let err = run_pipeline_with_expected_len(3).unwrap_err();
    assert_eq!(
        err.message(),
        "BEN assignment has 4 entries but graph has 3 nodes"
    );
}

#[test]
fn run_pipeline_errors_when_assignment_shorter_than_graph() {
    let err = run_pipeline_with_expected_len(5).unwrap_err();
    assert_eq!(
        err.message(),
        "BEN assignment has 4 entries but graph has 5 nodes"
    );
}

#[test]
fn run_pipeline_uniform_length_rejects_mixed_lengths() {
    let records = records(BenVariant::Standard, &[vec![1, 1, 2, 2], vec![1, 2, 2]]);
    let (rows, ended) = run_label_invariant_pipeline(
        records,
        AssignmentLengthCheck::UniformWithinFile,
        |_assignment: &[u16], _n_reps| Ok(()),
        None,
    );
    assert_eq!(
        ended.unwrap_err().message(),
        "assignment length changed from 4 to 3 within the BEN file; \
         every plan in an ensemble must assign the same node set"
    );
    assert_eq!(
        rows.len(),
        1,
        "only the first (contract-establishing) row passes"
    );
}

#[test]
fn run_pipeline_preserves_step_and_accepted_accounting_across_batch_boundary() {
    let n = 600usize;
    let assignments: Vec<Vec<u16>> = (0..n).map(|i| vec![i as u16, i as u16]).collect();
    let records = records(BenVariant::Standard, &assignments);

    let (rows, ended) = run_label_invariant_pipeline(
        records,
        AssignmentLengthCheck::MatchesGraph(2),
        |assignment: &[u16], _n_reps| Ok(assignment[0]),
        None,
    );

    ended.unwrap();
    let expected: Vec<(u64, u32, u64, u16)> = (0..n)
        .map(|i| ((i + 1) as u64, 1u32, (i + 1) as u64, i as u16))
        .collect();
    assert_eq!(tuples(rows), expected);
    assert!(n > 2 * BATCH);
}

#[test]
fn run_pipeline_rejects_changed_district_set_when_labelled() {
    let records = records(BenVariant::Standard, &[vec![1, 1, 2, 2], vec![1, 1, 1, 1]]);
    let (_, ended) = run_pipeline(
        records,
        AssignmentLengthCheck::MatchesGraph(4),
        "cut-edges".to_string(),
        |assignment: &[u16], _n_reps| {
            let mut observed = 0u128;
            for &d in assignment {
                observed |= 1u128 << d;
            }
            Ok((observed, ()))
        },
        None,
    );
    assert_eq!(
        ended.unwrap_err().message(),
        "districts [2] from the first assignment are missing from a later plan; \
         every plan in the ensemble must use the same district labels to stream cut-edges output with a fixed schema"
    );
}

#[test]
fn run_label_invariant_pipeline_never_checks_district_sets() {
    let records = records(BenVariant::Standard, &[vec![1, 1, 2, 2], vec![3, 3, 1, 1]]);
    let (rows, ended) = run_label_invariant_pipeline(
        records,
        AssignmentLengthCheck::UniformWithinFile,
        |_assignment: &[u16], _n_reps| Ok(()),
        None,
    );
    ended.unwrap();
    assert_eq!(rows.len(), 2);
}

#[test]
fn run_sequential_rejects_mixed_lengths_before_on_frame() {
    let records = records(BenVariant::Standard, &[vec![1, 1, 2, 2], vec![1, 2, 2]]);
    let (seen, ended) = run_sequential(records, None, None);
    assert_eq!(
        ended.unwrap_err().message(),
        "assignment length changed from 4 to 3 within the BEN file; \
         every plan in an ensemble must assign the same node set"
    );
    assert_eq!(
        seen.len(),
        1,
        "the offending frame never reaches on_frame"
    );
}

#[test]
fn run_sequential_rejects_changed_district_set_when_labelled() {
    let records = records(BenVariant::Standard, &[vec![1, 1, 2, 2], vec![1, 1, 1, 1]]);
    let (seen, ended) = run_sequential(records, None, Some("changed-assignments"));
    assert_eq!(
        ended.unwrap_err().message(),
        "districts [2] from the first assignment are missing from a later plan; \
         every plan in the ensemble must use the same district labels to stream changed-assignments output with a fixed schema"
    );
    assert_eq!(seen.len(), 1);
}

#[test]
fn run_sequential_skips_district_set_check_when_unlabelled() {
    let records = records(BenVariant::Standard, &[vec![1, 1, 2, 2], vec![3, 3, 1, 1]]);
    let (seen, ended) = run_sequential(records, None, None);
    ended.unwrap();
    assert_eq!(seen.len(), 2);
}

#[test]
fn samples_are_capped_within_a_frame() {
    let mut remaining = Some(5);
    assert_eq!(capped_reps(&mut remaining, 3), 3);
    assert_eq!(remaining, Some(2));
    assert!(wants_samples(&remaining));
    assert_eq!(capped_reps(&mut remaining, 3), 2);
    assert_eq!(remaining, Some(0));
    assert!(!wants_samples(&remaining));
    let mut all = None;
    assert_eq!(capped_reps(&mut all, u16::MAX), u16::MAX);
    assert!(wants_samples(&all));
}

#[test]
fn scorer_never_sees_a_plan_of_the_wrong_length() {
    let check = AssignmentLengthCheck::Exact {
        expected: 2,
        label: "geometry row count",
    };
    let process = |assignment: &[u16], _count: u16| {
        assert_eq!(assignment.len(), 2);
        Ok((0u128, assignment[1]))
    };
    let err = run_metric_on_assignment(&process, check, &[1, 2, 3], 1).unwrap_err();
    assert_eq!(
        err.message(),
        "BEN assignment has 3 entries but graph has 2 nodes"
    );
    let result = run_metric_on_assignment(&process, check, &[1, 9], 4).unwrap();
    assert_eq!((result.n_reps, result.assignment_len, result.row), (4, 2, 9));
    let batch = process_assignment_batch(
        &process,
        check,
        &[(vec![1, 2], 1), (vec![3, 4], 2)],
    )
    .unwrap();
    let mut pipeline = Pipeline::new(check, None);
    let (rows, ended) = pipeline.forward_results(batch);
    ended.unwrap();
    assert_eq!(tuples(rows), vec![(1, 1, 1, 2), (2, 2, 2, 4)]);
    assert_eq!(pipeline.sample_count, 4);
    assert_eq!(pipeline.accepted_count, 3);
}

#[test]
fn scorer_error_ends_the_run() {
    let records = vec![(vec![1], 1), (vec![2], 1)];
    let (rows, ended) = run_label_invariant_pipeline(
        records,
        AssignmentLengthCheck::MatchesGraph(1),
        |assignment: &[u16], _count| {
            if assignment[0] == 2 {
                Err(Error::NoData)
            } else {
                Ok(())
            }
        },
        None,
    );
    assert!(matches!(ended, Err(Error::NoData)));
    assert!(rows.is_empty(), "a batch is scored before it is forwarded");
}

/// A frame as the library holds it.
fn stored(frame: DecodeFrame) -> StoredFrame {
    match frame {
        DecodeFrame::Ben(BenDecodeFrame::Standard {
            max_val_bit_count,
            max_len_bit_count,
            n_bytes,
            raw_bytes,
        })
        | DecodeFrame::Ben(BenDecodeFrame::MkvChain {
            max_val_bit_count,
            max_len_bit_count,
            n_bytes,
            raw_bytes,
            ..
        }) => StoredFrame {
            layout: FrameLayout::Packed {
                label_bits: max_val_bit_count,
                length_bits: max_len_bit_count,
                byte_count: n_bytes,
            },
            bytes: raw_bytes,
        },
        DecodeFrame::Ben(BenDecodeFrame::TwoDelta { .. }) => {
            panic!("frames need no frame before them")
        }
        DecodeFrame::XBen(bytes, variant) => StoredFrame {
            layout: FrameLayout::Words(match variant {
                BenVariant::Standard => StreamVariant::Standard,
                BenVariant::MkvChain => StreamVariant::MkvChain,
                BenVariant::TwoDelta => StreamVariant::TwoDelta,
            }),
            bytes,
        },
    }
}

fn stored_frames(ben: &[u8]) -> Vec<(StoredFrame, u16)> {
    BenStreamReader::from_ben(ben)
        .unwrap()
        .silent(true)
        .into_frames()
        .map(|frame| {
            let (frame, count) = frame.unwrap();
            (stored(frame), count)
        })
        .collect()
}

fn words(plan: &[(u16, u16)]) -> StoredFrame {
    let mut bytes = Vec::new();
    for (label, length) in plan {
        bytes.extend(label.to_be_bytes());
        bytes.extend(length.to_be_bytes());
    }
    bytes.extend([0u8; 4]);
    StoredFrame {
        layout: FrameLayout::Words(StreamVariant::Standard),
        bytes,
    }
}

#[test]
fn frames_expand_to_their_plans() {
    let plans = [vec![1, 1, 2, 2], vec![300, 7, 7, 7]];
    for variant in [
        BenVariant::Standard,
        BenVariant::MkvChain,
        BenVariant::TwoDelta,
    ] {
        let frames = stored_frames(&write_ben(variant, &plans));
        let decoded: Vec<Vec<u16>> = frames
            .iter()
            .map(|(frame, _)| decode_frame(frame).unwrap())
            .collect();
        assert_eq!(decoded, plans);
    }
    assert_eq!(
        decode_frame(&words(&[(5, 3), (9, 1)])).unwrap(),
        vec![5, 5, 5, 9]
    );
}

#[test]
fn frames_without_a_plan_are_reported() {
    let broken = StoredFrame {
        layout: FrameLayout::Packed {
            label_bits: 0,
            length_bits: 4,
            byte_count: 1,
        },
        bytes: vec![0],
    };
    assert_eq!(
        decode_frame(&broken).unwrap_err().message(),
        "failed to decode BEN frame: invalid BEN bit width(s): max_val_bits=0, max_len_bits=4"
    );
    let process = |plan: &[u16], _count: u16| Ok((0u128, plan.len()));
    let check = AssignmentLengthCheck::UniformWithinFile;
    assert!(run_metric_on_frame(&process, check, &broken, 1).is_err());
    assert!(process_batch(&process, check, &[(words(&[(1, 2)]), 1), (broken, 1)]).is_err());
    assert_eq!(
        undecodable("because").message(),
        "failed to decode BEN frame: because"
    );
}

#[test]
fn frame_runs_are_plan_runs() {
    let assignments: Vec<Vec<u16>> = (0..600u16).map(|i| vec![i, i / 2]).collect();
    for variant in [BenVariant::Standard, BenVariant::MkvChain] {
        let ben = write_ben(variant, &assignments);
        let process = |plan: &[u16], count: u16| Ok((0u128, (plan.to_vec(), count)));
        let check = AssignmentLengthCheck::MatchesGraph(2);
        let (from_frames, ended) =
            run_frame_pipeline(&stored_frames(&ben), check, None, process, Some(520));
        ended.unwrap();
        let (from_plans, ended) =
            run_pipeline(frames(&ben), check, "x".to_string(), process, Some(520));
        ended.unwrap();
        assert_eq!(tuples(from_frames), tuples(from_plans));
    }
}

#[test]
fn broken_frame_ends_the_run_before_its_batch() {
    let mut frames: Vec<(StoredFrame, u16)> = (0..300).map(|_| (words(&[(1, 2)]), 1)).collect();
    frames[290].0.bytes.clear();
    let process = |plan: &[u16], _count: u16| Ok((0u128, plan[0]));
    let check = AssignmentLengthCheck::UniformWithinFile;
    let (rows, ended) = run_frame_pipeline(&frames, check, None, process, None);
    assert_eq!(rows.len(), BATCH);
    assert!(ended
        .unwrap_err()
        .message()
        .starts_with("failed to decode BEN frame: "));
    let (rows, ended) = run_frame_pipeline(&frames, check, None, process, Some(290));
    ended.unwrap();
    assert_eq!(rows.len(), 290);
}

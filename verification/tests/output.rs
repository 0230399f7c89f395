use ben_process::error::{Error, IoErrorKind};
use ben_process::metrics::scorer::{
    assemble_row, validate_manifest_metrics, validate_matching_observed, ManifestEntry, MetricKind,
    ScoreTable,
};
use ben_process::metrics::{validate_assignment_length, PreparedMetricOutput};
use ben_process::output::parquet::{
    district_column_name, district_table_columns, node_column, DistrictBatch, DistrictMetricWriter,
    Flush, MetricBatch, MetricWriter,
};
use ben_process::output::run_directory::{
    check_outputs, manifest_schema, place_run_directory, random_temporary_path, temporary_path,
    try_again, validate_table_path, RunDirectoryPlace, RunMetricLayout, MAX_ATTEMPTS,
};

/// A table file in memory: its columns, once it is there.
struct Table<B> {
    exists: bool,
    batches: Vec<B>,
}

impl<B> Table<B> {
    fn new() -> Self {
        Table {
            exists: false,
            batches: Vec::new(),
        }
    }

    fn take(&mut self, flush: Flush<B>) {
        if flush.create {
            assert!(!self.exists, "a file is created once");
            self.exists = true;
        }
        self.batches.extend(flush.batch);
    }
}

fn steps(batches: &[MetricBatch<f64>]) -> Vec<u64> {
    batches
        .iter()
        .flat_map(|batch| batch.sample_numbers.clone())
        .collect()
}

#[test]
fn cut_edges_batched_writer_appends_multiple_batches() {
    let mut table = Table::new();
    let mut writer = MetricWriter::new(2);

    table.take(writer.push(1, 1, 1, 3.0));
    table.take(writer.push(2, 1, 2, 4.0));
    table.take(writer.push(3, 2, 3, 9.5));
    table.take(writer.finish());

    assert_eq!(steps(&table.batches), vec![1, 2, 3]);
    let values: Vec<f64> = table
        .batches
        .iter()
        .flat_map(|batch| batch.metric_values.clone())
        .collect();
    assert_eq!(values, vec![3.0, 4.0, 9.5]);
    assert_eq!(table.batches.len(), 2);
}

#[test]
fn region_batched_writer_appends_multiple_batches() {
    let mut table = Table::new();
    let mut writer: MetricWriter<(String, u32)> = MetricWriter::new(2);

    table.take(writer.push(1, 1, 1, ("county".into(), 2)));
    table.take(writer.push(2, 1, 2, ("county".into(), 3)));
    table.take(writer.push(3, 2, 3, ("county".into(), 4)));
    table.take(writer.finish());

    let steps: Vec<u64> = table
        .batches
        .iter()
        .flat_map(|batch| batch.sample_numbers.clone())
        .collect();
    let values: Vec<u32> = table
        .batches
        .iter()
        .flat_map(|batch| batch.metric_values.iter().map(|(_, value)| *value))
        .collect();
    assert_eq!(steps, vec![1, 2, 3]);
    assert_eq!(values, vec![2, 3, 4]);
}

#[test]
fn district_metric_writer_fixes_schema_from_first_row_and_appends_batches() {
    let mut table: Table<DistrictBatch<f64>> = Table::new();
    let mut writer = DistrictMetricWriter::new(2);

    assert!(!table.exists, "no output file before the first pushed row");

    let observed = (1u128 << 1) | (1u128 << 2);
    table.take(writer.push_row(1, 1, 1, observed, &[9.9, 0.1, 0.3]));
    assert!(table.exists, "first pushed row creates the output file");
    table.take(writer.push_row(2, 1, 2, observed, &[9.9, 0.2, 0.4]));
    table.take(writer.push_row(3, 2, 3, observed, &[9.9, 0.5]));
    let columns = district_table_columns(&writer.district_ids);
    table.take(writer.finish());

    assert!(
        !columns.contains(&"district_0".to_string()),
        "unobserved district 0 must not appear in the schema"
    );
    assert_eq!(
        columns,
        vec!["step", "n_reps", "accepted_count", "district_1", "district_2"]
    );
    let column = |c: usize| -> Vec<Option<f64>> {
        table
            .batches
            .iter()
            .flat_map(|batch| batch.district_columns[c].clone())
            .collect()
    };
    let steps: Vec<u64> = table
        .batches
        .iter()
        .flat_map(|batch| batch.sample_numbers.clone())
        .collect();
    assert_eq!(steps, vec![1, 2, 3]);
    assert_eq!(column(0), vec![Some(0.1), Some(0.2), Some(0.5)]);
    assert_eq!(column(1), vec![Some(0.3), Some(0.4), None]);
}

#[test]
fn district_metric_writer_emits_empty_schema_file_when_no_rows_arrive() {
    let mut table: Table<DistrictBatch<f64>> = Table::new();
    let writer: DistrictMetricWriter<f64> = DistrictMetricWriter::new(2);

    assert!(!table.exists);
    let columns = district_table_columns(&writer.district_ids);
    table.take(writer.finish());

    assert!(table.exists);
    assert!(table.batches.is_empty());
    assert_eq!(columns, vec!["step", "n_reps", "accepted_count"]);
}

#[test]
fn batch_of_zero_rows_means_every_row() {
    let mut table = Table::new();
    let mut writer = MetricWriter::new(0);
    table.take(writer.push(1, 1, 1, 3.0));
    table.take(writer.push(2, 1, 2, 4.0));
    table.take(writer.finish());
    assert_eq!(table.batches.len(), 2);
    assert_eq!(steps(&table.batches), vec![1, 2]);
}

#[test]
fn columns_are_named_by_district_and_node() {
    assert_eq!(district_column_name(127), "district_127");
    assert_eq!(node_column(4), vec![0, 1, 2, 3]);
}

// Run directories.

fn place(parent: &str, name: &str) -> RunDirectoryPlace {
    RunDirectoryPlace {
        parent: parent.to_string(),
        name: name.to_string(),
    }
}

#[test]
fn destination_is_split_into_parent_and_name() {
    let found = place_run_directory("/tmp/runs/scores", false).unwrap();
    assert_eq!((found.parent.as_str(), found.name.as_str()), ("/tmp/runs", "scores"));
    let bare = place_run_directory("scores", false).unwrap();
    assert_eq!((bare.parent.as_str(), bare.name.as_str()), ("", "scores"));
}

#[test]
fn destination_that_exists_is_never_used() {
    let err = place_run_directory("/tmp/scores", true).unwrap_err();
    assert!(matches!(
        &err,
        Error::Io {
            kind: IoErrorKind::AlreadyExists,
            ..
        }
    ));
    assert_eq!(err.message(), "output path \"/tmp/scores\" already exists");
    assert_eq!(
        place_run_directory("", false).unwrap_err().message(),
        "output directory must not be empty"
    );
    assert_eq!(
        place_run_directory("/", false).unwrap_err().message(),
        "output directory must name a directory"
    );
}

#[test]
fn temporary_paths_are_hidden_siblings() {
    assert_eq!(
        temporary_path(&place("/tmp", "scores"), 42, 0xAB),
        "/tmp/.scores.tmp-42-00000000000000ab"
    );
    let place = place("/tmp", "scores");
    let first = random_temporary_path(&place, 7);
    let head = "/tmp/.scores.tmp-7-";
    assert!(first.starts_with(head), "{first}");
    assert_eq!(first.len(), head.len() + 16);
    assert!((0..64).any(|_| random_temporary_path(&place, 7) != first));
}

#[test]
fn temporary_paths_are_tried_often_but_not_forever() {
    assert!(try_again(0).is_ok());
    assert!(try_again(MAX_ATTEMPTS - 1).is_ok());
    assert_eq!(
        try_again(MAX_ATTEMPTS).unwrap_err().message(),
        "temporary path collision"
    );
}

#[test]
fn table_paths_stay_below_the_run_directory() {
    for path in ["tally/0000.parquet", "scores.parquet", "a/..b/c", "a/./b"] {
        assert!(validate_table_path(path).is_ok(), "{path}");
    }
    for path in ["/etc/x", "../x", "a/../b", "a/..", "./x", "."] {
        assert_eq!(
            validate_table_path(path).unwrap_err().message(),
            format!("invalid run-directory table path {path:?}")
        );
    }
}

fn output(values: Vec<f64>, table_count: usize, observed: u128) -> PreparedMetricOutput<f64> {
    let district_slots = values.len() / table_count.max(1);
    PreparedMetricOutput {
        values,
        table_count,
        district_slots,
        observed,
    }
}

#[test]
fn outputs_are_checked_against_the_layout() {
    let layouts = [
        MetricKind::Tally { tables: 2 }.layout(),
        MetricKind::Reock.layout(),
    ];
    let tally = || output(vec![1.0, 2.0, 3.0, 4.0], 2, 0b11);
    let reock = |observed: u128| output(vec![0.5, 0.25], 1, observed);
    assert_eq!(check_outputs(&[tally(), reock(0b11)], &layouts).unwrap(), 0b11);
    let message = |outputs: &[PreparedMetricOutput<f64>], layouts: &[RunMetricLayout]| {
        check_outputs(outputs, layouts).unwrap_err().message()
    };
    assert_eq!(
        message(&[tally()], &layouts),
        "prepared metric output count changed"
    );
    assert_eq!(
        message(&[], &[]),
        "cannot write a row without prepared metrics"
    );
    assert_eq!(
        message(&[tally(), reock(0b10)], &layouts),
        "prepared metrics observed different district sets"
    );
    assert_eq!(
        message(&[reock(0b11), reock(0b11)], &layouts),
        "prepared metric returned an unexpected table count"
    );
    let mut short = tally();
    short.values.pop();
    assert_eq!(
        message(&[short, reock(0b11)], &layouts),
        "prepared metric returned a malformed table"
    );
}

#[test]
fn layouts_number_the_tally_tables() {
    assert_eq!(
        MetricKind::Tally { tables: 2 }.layout().table_paths,
        vec!["tally/0000.parquet", "tally/0001.parquet"]
    );
    assert_eq!(
        MetricKind::Reock.layout().table_paths,
        vec!["reock/scores.parquet"]
    );
    assert_eq!(
        MetricKind::PolsbyPopper.layout().table_paths,
        vec!["polsby_popper/scores.parquet"]
    );
    let many = MetricKind::Tally { tables: 1101 }.layout().table_paths;
    assert_eq!(many[7], "tally/0007.parquet");
    assert_eq!(many[98], "tally/0098.parquet");
    assert_eq!(many[100], "tally/0100.parquet");
    assert_eq!(many[1100], "tally/1100.parquet");
}

#[test]
fn manifest_describes_the_columns() {
    let (districts, columns) = manifest_schema(Some((1u128 << 1) | (1u128 << 2)));
    assert_eq!(districts, vec![1, 2]);
    let described: Vec<(String, &str, Option<u16>)> = columns
        .into_iter()
        .map(|column| (column.name, column.dtype, column.district_id))
        .collect();
    assert_eq!(
        described,
        vec![
            ("step".to_string(), "uint64", None),
            ("n_reps".to_string(), "uint32", None),
            ("accepted_count".to_string(), "uint64", None),
            ("district_1".to_string(), "float64", Some(1)),
            ("district_2".to_string(), "float64", Some(2)),
        ]
    );
    let (none, columns) = manifest_schema(None);
    assert!(none.is_empty());
    assert_eq!(columns.len(), 3);
}

// Scoring.

#[test]
fn labels_name_what_fixes_a_length() {
    assert_eq!(MetricKind::Reock.node_count_label(), "geometry row count");
    assert_eq!(
        MetricKind::PolsbyPopper.node_count_label(),
        "graph node count"
    );
    assert_eq!(MetricKind::Tally { tables: 1 }.metric_key(), "tally");
    let err = validate_assignment_length(&[1, 2], 3, "graph node count", "assignment length")
        .unwrap_err();
    assert!(matches!(
        err,
        Error::AssignmentLength {
            actual: 2,
            actual_label: "assignment length",
            expected: 3,
            expected_label: "graph node count",
        }
    ));
    assert!(validate_assignment_length(&[1, 2, 1], 3, "x", "y").is_ok());
}

#[test]
fn tables_lie_behind_each_other() {
    let output = output(vec![1.0, 2.0, 3.0, 4.0, 5.0, 6.0], 2, 0b110);
    assert_eq!(output.table(0), Some(&[1.0, 2.0, 3.0][..]));
    assert_eq!(output.table(1), Some(&[4.0, 5.0, 6.0][..]));
    assert_eq!(output.table(2), None);
    assert_eq!(output.table(usize::MAX), None);
}

#[test]
fn row_takes_the_districts_of_every_table() {
    let outputs = [
        output(vec![1.0, 2.0, 3.0, 4.0, 5.0, 6.0], 2, 0b110),
        output(vec![0.0, 0.5, 0.25], 1, 0b110),
    ];
    assert_eq!(validate_matching_observed(&outputs).unwrap(), 0b110);
    assert_eq!(
        assemble_row(&outputs, &[1, 2]).unwrap(),
        vec![2.0, 3.0, 5.0, 6.0, 0.5, 0.25]
    );
    assert_eq!(
        validate_matching_observed::<f64>(&[]).unwrap_err().message(),
        "cannot score without a prepared metric"
    );
}

#[test]
fn score_table_keeps_to_the_first_plan() {
    let mut table = ScoreTable::new();
    table.push(&[output(vec![0.0, 1.0, 2.0], 1, 0b110)]).unwrap();
    table.push(&[output(vec![0.0, 3.0, 4.0], 1, 0b110)]).unwrap();
    assert_eq!(table.district_ids, vec![1, 2]);
    assert_eq!(table.rows, vec![vec![1.0, 2.0], vec![3.0, 4.0]]);
    assert!(table.push(&[output(vec![0.0, 3.0], 1, 0b10)]).is_err());
    assert_eq!(table.rows.len(), 2);
}

#[test]
fn manifest_has_to_list_the_metrics() {
    let metrics = [MetricKind::Reock, MetricKind::Tally { tables: 1 }];
    let layouts: Vec<RunMetricLayout> = metrics.iter().map(|metric| metric.layout()).collect();
    let entry = |key: &str, tables: &[&str]| ManifestEntry {
        metric_key: Some(key.to_string()),
        tables: Some(tables.iter().map(|table| Some(table.to_string())).collect()),
    };
    let reock = || entry("reock", &["reock/scores.parquet"]);
    let tally = || entry("tally", &["tally/0000.parquet"]);
    let check = |entries: Option<&[ManifestEntry]>| {
        validate_manifest_metrics(entries, &metrics, &layouts).map_err(|e| e.message())
    };
    assert_eq!(check(Some(&[reock(), tally()])), Ok(()));
    assert_eq!(
        check(None).unwrap_err(),
        "manifest metrics must be a JSON array"
    );
    assert_eq!(
        check(Some(&[reock()])).unwrap_err(),
        "manifest metric count does not match prepared metric count"
    );
    assert_eq!(
        check(Some(&[tally(), reock()])).unwrap_err(),
        "manifest metric order does not match prepared metric order"
    );
    assert_eq!(
        check(Some(&[
            reock(),
            ManifestEntry {
                metric_key: Some("tally".to_string()),
                tables: None
            }
        ]))
        .unwrap_err(),
        "manifest metric tables must be an array"
    );
    assert_eq!(
        check(Some(&[reock(), entry("tally", &["tally/0001.parquet"])])).unwrap_err(),
        "manifest table paths do not match the run-directory layout"
    );
}

use ben_process::cli::{
    require_keys, resolve_graph, ChangedAssignmentsArgs, Cli, Command, CommonArgs, CutEdgesArgs,
    ExtractUniquePlansArgs, GraphSource, Job, PolsbyPopperArgs, RegionArgs, ReockArgs,
    TallyKeysArgs, UniquePlansArgs,
};
use ben_process::commands::{self, Args, Mode};
use ben_process::error::Error;
use ben_process::graph_check::EdgeValues;
use ben_process::metrics::region::RegionMetric;
use ben_process::run;

fn text(s: &str) -> Option<String> {
    Some(s.to_string())
}

fn common() -> CommonArgs {
    CommonArgs {
        ben_file: "runs/plans.jsonl.ben".to_string(),
        output_dir: text("out"),
    }
}

fn job(command: Command) -> Result<Job<f64>, Error> {
    run(
        Cli {
            command,
            verbose: false,
            quiet: true,
        },
        1.0,
        0.0,
    )
}

fn tally(keys: &[&str]) -> Command {
    Command::TallyKeys(TallyKeysArgs {
        common: common(),
        graph_file: text("graph.json"),
        keys: keys.iter().map(|key| key.to_string()).collect(),
        max_samples: Some(10),
        high_compression: true,
    })
}

#[test]
fn tally_writes_one_file_per_key() {
    let Job::TallyKeys(job) = job(tally(&["pop", "vap"])).unwrap() else {
        panic!("tally expected");
    };
    assert_eq!(job.tally_dir, "out/plans_tallies");
    assert_eq!(
        job.output_files,
        vec![
            "out/plans_tallies/pop_tally_up_to_10_plans.parquet",
            "out/plans_tallies/vap_tally_up_to_10_plans.parquet",
        ]
    );
    assert_eq!(job.graph.graph_file, text("graph.json"));
    assert_eq!(job.graph.request.numeric_keys, vec!["pop", "vap"]);
    assert!(!job.show_progress);
    assert!(job.high_compression);
}

#[test]
fn keys_are_required_and_told_apart() {
    assert_eq!(
        job(tally(&[])).unwrap_err().message(),
        "at least one key is required for tally-keys mode"
    );
    assert_eq!(
        job(tally(&["a", "b", "a", "b"])).unwrap_err().message(),
        "duplicate key \"a\" passed to --keys"
    );
    assert!(require_keys(&["a".to_string(), "A".to_string()], "x").is_ok());
}

#[test]
fn input_needs_a_name() {
    let command = Command::UniquePlans(UniquePlansArgs {
        common: CommonArgs {
            ben_file: "runs/..".to_string(),
            output_dir: None,
        },
        max_samples: None,
        high_compression: false,
    });
    assert_eq!(command.common().ben_file(), "runs/..");
    assert_eq!(command.common().output_dir(), None);
    assert_eq!(
        job(command).unwrap_err().message(),
        "invalid --ben-file \"runs/..\": path has no file name component"
    );
}

#[test]
fn cut_edges_default_to_the_unit_weight() {
    let command = |edge_weight_key: Option<String>| {
        Command::CutEdges(CutEdgesArgs {
            common: common(),
            graph_file: None,
            edge_weight_key,
            max_samples: None,
            high_compression: false,
        })
    };
    let Job::CutEdges(weighted) = job(command(text("w"))).unwrap() else {
        panic!("cut edges expected");
    };
    let request = weighted.graph.request.edge_weight.unwrap();
    assert_eq!((request.key.as_str(), request.default_value), ("w", 1.0));
    assert_eq!(weighted.output_file, "out/plans_cut_edges.parquet");
    let Job::CutEdges(plain) = job(command(None)).unwrap() else {
        panic!("cut edges expected");
    };
    assert!(plain.graph.request.edge_weight.is_none());
}

fn polsby(perim_key: Option<String>) -> Command {
    Command::PolsbyPopper(PolsbyPopperArgs {
        common: common(),
        graph_file: None,
        area_key: None,
        perim_key,
        boundary_perim_key: None,
        shared_perim_key: None,
        max_samples: None,
        high_compression: false,
    })
}

#[test]
fn polsby_popper_has_the_usual_keys() {
    let Job::PolsbyPopper(mut derived) = job(polsby(None)).unwrap() else {
        panic!("polsby-popper expected");
    };
    assert_eq!(derived.graph.request.numeric_keys, vec!["area"]);
    assert_eq!(
        derived.graph.request.partial_numeric_keys,
        vec!["boundary_perim"]
    );
    let shared = derived.graph.request.edge_weight.as_ref().unwrap();
    assert_eq!((shared.key.as_str(), shared.default_value), ("shared_perim", 0.0));
    assert!(!derived.graph.request.need_adjacency);
    derived.for_variant(true);
    assert!(derived.graph.request.need_adjacency);
    assert_eq!(derived.output_file, "out/plans_polsby_popper.parquet");

    let Job::PolsbyPopper(direct) = job(polsby(text("perim"))).unwrap() else {
        panic!("polsby-popper expected");
    };
    assert_eq!(direct.graph.request.numeric_keys, vec!["area", "perim"]);
    assert!(direct.graph.request.partial_numeric_keys.is_empty());
}

#[test]
fn reock_hands_its_options_on() {
    let Job::Reock(job) = job(Command::Reock(ReockArgs {
        common: common(),
        geometry_file: "units.parquet".to_string(),
        geometry_column: text("geom"),
        allow_geographic_crs: true,
        allow_unknown_crs: false,
        target_crs: text("EPSG:5070"),
        source_crs: None,
        max_samples: None,
        high_compression: false,
    }))
    .unwrap() else {
        panic!("reock expected");
    };
    assert_eq!(job.output_file, "out/plans_reock.parquet");
    let options = job.load_options();
    assert_eq!(options.geometry_column, Some("geom"));
    assert_eq!(options.target_crs, Some("EPSG:5070"));
    assert_eq!(options.source_crs, None);
    assert!(options.allow_geographic_crs);
    assert!(!options.allow_unknown_crs);
}

#[test]
fn region_commands_differ_in_metric_and_name() {
    let args = || RegionArgs {
        common: common(),
        graph_file: None,
        keys: vec!["county".to_string()],
        max_samples: None,
        high_compression: false,
    };
    let Job::Region(splits) = job(Command::RegionSplits(args())).unwrap() else {
        panic!("region expected");
    };
    let Job::Region(pieces) = job(Command::RegionPieces(args())).unwrap() else {
        panic!("region expected");
    };
    assert_eq!(splits.metric, RegionMetric::Splits);
    assert_eq!(splits.output_file, "out/plans_region_splits.parquet");
    assert_eq!(pieces.metric, RegionMetric::Pieces);
    assert_eq!(pieces.output_file, "out/plans_region_pieces.parquet");
    assert_eq!(pieces.graph.request.region_keys, vec!["county"]);
}

#[test]
fn graph_free_commands_name_their_output() {
    let Job::ChangedAssignments(changed) = job(Command::ChangedAssignments(
        ChangedAssignmentsArgs {
            common: common(),
            normalize: true,
            max_accepted: None,
            randomize_reassignments: false,
            seed: None,
            high_compression: false,
        },
    ))
    .unwrap() else {
        panic!("changed assignments expected");
    };
    assert_eq!(
        changed.output_file(50),
        "out/plans_accept_50_changed_assignments.parquet"
    );
    let Job::UniquePlans(unique) = job(Command::UniquePlans(UniquePlansArgs {
        common: common(),
        max_samples: None,
        high_compression: false,
    }))
    .unwrap() else {
        panic!("unique plans expected");
    };
    assert_eq!(unique.output_file, "out/plans_unique_plans.parquet");
    let Job::ExtractUniquePlans(extract) =
        job(Command::ExtractUniquePlans(ExtractUniquePlansArgs {
            common: common(),
        }))
        .unwrap()
    else {
        panic!("extraction expected");
    };
    assert_eq!(extract.output_file, "out/plans_unique.jsonl.ben");
}

#[test]
fn graph_file_wins_over_the_embedded_graph() {
    assert!(matches!(
        resolve_graph(Some("g.json"), true).unwrap(),
        GraphSource::File { path, overrides_embedded: true } if path == "g.json"
    ));
    assert!(matches!(
        resolve_graph(None, true).unwrap(),
        GraphSource::Embedded
    ));
    assert_eq!(
        resolve_graph(None, false).unwrap_err().message(),
        "graph file required; pass --graph-file <PATH>"
    );
}

fn args(mode: Mode) -> Args {
    Args {
        mode,
        graph_file: text("maps/graph.json"),
        ben_file: "runs/plans.jsonl.ben".to_string(),
        normalize: false,
        max_accepted: None,
        randomize_reassignments: false,
        seed: Some(3),
        keys: vec!["pop".to_string()],
        edge_weight_key: None,
        area_key: None,
        perim_key: None,
        boundary_perim_key: None,
        shared_perim_key: None,
        max_samples: None,
        no_progress: false,
        output_dir: text("out"),
        high_compression: false,
    }
}

#[test]
fn flat_modes_make_the_same_jobs() {
    let flat = |mode: Mode| commands::run(args(mode), 1.0, 0.0).unwrap();
    assert!(matches!(
        flat(Mode::CutEdges),
        Job::CutEdges(job) if job.output_file == "out/plans_cut_edges.parquet"
            && job.show_progress
            && job.graph.edge_values == EdgeValues::Sound
    ));
    assert!(matches!(
        flat(Mode::PolsbyPopper),
        Job::PolsbyPopper(job) if job.output_file == "out/plans_polsby_popper.parquet"
            && job.graph.edge_values == EdgeValues::Present
    ));
    assert!(matches!(
        flat(Mode::RegionSplits),
        Job::Region(job) if job.metric == RegionMetric::Splits
    ));
    assert!(matches!(
        flat(Mode::RegionPieces),
        Job::Region(job) if job.output_file == "out/plans_region_pieces.parquet"
    ));
    assert!(matches!(
        flat(Mode::ChangedAssignments),
        Job::ChangedAssignments(job) if job.args.seed == Some(3)
    ));
    assert!(matches!(flat(Mode::UniquePlans), Job::UniquePlans(_)));
    assert!(matches!(
        flat(Mode::ExtractUniquePlans),
        Job::ExtractUniquePlans(job) if job.output_file == "out/plans_unique.jsonl.ben"
    ));
    assert!(matches!(flat(Mode::TallyKeys), Job::TallyKeys(job) if job.keys == vec!["pop"]));
}

#[test]
fn flat_arguments_are_checked_like_the_others() {
    let mut bare = args(Mode::TallyKeys);
    bare.keys.clear();
    assert_eq!(
        commands::require_keys(&bare, "tally-keys")
            .unwrap_err()
            .message(),
        "at least one key is required for tally-keys mode"
    );
    bare.graph_file = None;
    assert!(commands::graph_file(&bare).is_err());
    assert!(matches!(
        commands::resolve_graph(&bare, true).unwrap(),
        GraphSource::Embedded
    ));
    assert!(bare.show_progress());
    let mut nameless = args(Mode::CutEdges);
    nameless.ben_file = "/".to_string();
    assert!(commands::run(nameless, 1.0, 0.0).is_err());
}

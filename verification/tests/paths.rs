use ben_process::cli::paths::ben_stem;
use ben_process::cli::{
    build_capped_tally_output_path, build_output_path, build_tally_output_dir,
    build_tally_output_path,
};
use ben_process::commands::paths as flat;
use ben_process::path::{file_name, join, parent, stem};

#[test]
fn build_output_path_replaces_suffix_in_place_without_output_dir() {
    assert_eq!(
        build_output_path("/tmp/runs/plans.jsonl.ben", "_cut_edges.parquet", None),
        "/tmp/runs/plans_cut_edges.parquet"
    );
}

#[test]
fn build_output_path_uses_basename_when_output_dir_is_set() {
    assert_eq!(
        build_output_path(
            "/tmp/runs/plans.jsonl.ben",
            "_unique_plans.parquet",
            Some("/tmp/out"),
        ),
        "/tmp/out/plans_unique_plans.parquet"
    );
}

#[test]
fn paths_build_output_path_replaces_suffix_in_place_without_output_dir() {
    assert_eq!(
        build_output_path("/tmp/runs/plans.jsonl.ben", "_cut_edges.parquet", None),
        "/tmp/runs/plans_cut_edges.parquet"
    );
}

#[test]
fn paths_build_output_path_uses_basename_when_output_dir_is_set() {
    assert_eq!(
        build_output_path(
            "/tmp/runs/plans.jsonl.ben",
            "_unique_plans.parquet",
            Some("/tmp/out"),
        ),
        "/tmp/out/plans_unique_plans.parquet"
    );
}

#[test]
fn cli_build_output_path_replaces_suffix_in_place_without_output_dir() {
    assert_eq!(
        flat::build_output_path("/tmp/runs/plans.jsonl.ben", "_cut_edges.parquet", None),
        "/tmp/runs/plans_cut_edges.parquet"
    );
}

#[test]
fn cli_build_output_path_uses_basename_when_output_dir_is_set() {
    assert_eq!(
        flat::build_output_path(
            "/tmp/runs/plans.jsonl.ben",
            "_unique_plans.txt",
            Some("/tmp/out"),
        ),
        "/tmp/out/plans_unique_plans.txt"
    );
}

#[test]
fn build_tally_output_dir_uses_graph_stem() {
    assert_eq!(
        flat::build_tally_output_dir("/tmp/runs/graph.json", Some("/tmp/out")),
        "/tmp/out/graph_tallies"
    );
}

#[test]
fn build_tally_output_path_uses_key_and_graph_stem() {
    assert_eq!(
        flat::build_tally_output_path("/tmp/runs/graph.json", "pop", Some("/tmp/out")),
        "/tmp/out/graph_tallies/pop_tally_graph.parquet"
    );
}

#[test]
fn build_output_path_strips_plain_ben_extension() {
    assert_eq!(
        build_output_path("/tmp/runs/plans.ben", "_cut_edges.parquet", None),
        "/tmp/runs/plans_cut_edges.parquet"
    );
}

#[test]
fn build_output_path_appends_suffix_when_input_has_no_known_extension() {
    assert_eq!(
        build_output_path("/tmp/runs/plans", "_cut_edges.parquet", None),
        "/tmp/runs/plans_cut_edges.parquet"
    );
}

#[test]
fn build_output_path_handles_bare_filename_without_parent_dir() {
    assert_eq!(
        build_output_path("plans.jsonl.ben", "_cut_edges.parquet", None),
        "plans_cut_edges.parquet"
    );
}

#[test]
fn build_tally_output_dir_uses_ben_stem() {
    assert_eq!(
        build_tally_output_dir("/tmp/runs/plans.jsonl.ben", Some("/tmp/out")),
        "/tmp/out/plans_tallies"
    );
}

#[test]
fn build_tally_output_path_uses_key_and_ben_stem() {
    assert_eq!(
        build_tally_output_path("/tmp/runs/plans.jsonl.ben", "pop", Some("/tmp/out")),
        "/tmp/out/plans_tallies/pop_tally_plans.parquet"
    );
}

#[test]
fn stems_lose_every_ensemble_ending() {
    for name in ["plans.jsonl.ben", "plans.ben", "plans.xben", "plans.bendl"] {
        assert_eq!(ben_stem(name), "plans");
    }
    assert_eq!(ben_stem("runs/plans.csv"), "plans.csv");
    assert_eq!(
        build_output_path("plans.bendl", "_cut_edges.parquet", None),
        "plans_cut_edges.parquet"
    );
}

#[test]
fn cap_on_samples_shows_in_tally_names() {
    assert_eq!(
        build_capped_tally_output_path("plans.jsonl.ben", "pop", Some("out"), Some(250)),
        "out/plans_tallies/pop_tally_up_to_250_plans.parquet"
    );
    assert_eq!(
        build_capped_tally_output_path("plans.jsonl.ben", "pop", None, None),
        "plans_tallies/pop_tally_plans.parquet"
    );
}

#[test]
fn outputs_never_are_the_input() {
    for input in ["plans", "/tmp/plans.ben", "./plans.jsonl.ben", "a/b/..c"] {
        for suffix in ["_cut_edges.parquet", "_unique.jsonl.ben", "_reock.parquet"] {
            assert_ne!(build_output_path(input, suffix, None), input);
            assert_ne!(build_output_path(input, suffix, Some("/tmp")), input);
        }
    }
}

#[test]
fn paths_split_like_those_of_the_standard_library() {
    let cases = [
        "", "/", ".", "..", "a", "/a", "a/b", "a/b/", "a//b", "a/./b", "./b", "a/b/.", "a/..",
        "/tmp/runs/plans.jsonl.ben", "//x", "/.", "./", "a/b/./.", ".hidden", "x/.hidden",
    ];
    for path in cases {
        let reference = std::path::Path::new(path);
        assert_eq!(
            file_name(path),
            reference
                .file_name()
                .map(|name| name.to_string_lossy().into_owned()),
            "file name of {path:?}"
        );
        assert_eq!(
            parent(path),
            reference
                .parent()
                .map(|dir| dir.to_string_lossy().into_owned()),
            "parent of {path:?}"
        );
        for name in ["n", "n/m", "/n", ""] {
            assert_eq!(
                join(path, name),
                reference.join(name).to_string_lossy().into_owned(),
                "{name:?} under {path:?}"
            );
        }
    }
    for name in ["graph.json", "graph", ".json", "a.b.c", "graph."] {
        let reference = std::path::Path::new(name).file_stem().unwrap();
        assert_eq!(stem(name), reference.to_string_lossy());
    }
}

#[test]
fn flat_output_path_is_never_the_input() {
    for input in ["p.ben", "p.xben", "p.bendl", "p.jsonl.ben", "p"] {
        assert_eq!(
            flat::build_output_path(input, "_cut_edges.parquet", None),
            "p_cut_edges.parquet"
        );
    }
    assert_eq!(
        flat::build_output_path("a.jsonl.ben/b.jsonl.ben", "-x", None),
        "a.jsonl.ben/b-x"
    );
    assert_eq!(
        flat::build_output_path("a/b.ben", "-x", Some("out/")),
        "out/b-x"
    );
}

#[test]
fn flat_tallies_go_by_the_name_of_the_graph() {
    assert_eq!(
        flat::build_tally_output_dir("graph.v2.json", None),
        "graph.v2_tallies"
    );
}

//! Where the flat command line puts its output.
pub use crate::cli::paths::build_output_path;
use crate::path::{
    file_name, file_name_text, join, join_text, parent, parent_text, stem, stem_text,
};
use crate::text::optional_text;
use vstd::prelude::*;

verus! {

/// Where the tallies over a graph go.
pub open spec fn graph_tally_dir_text(
    graph_file: Seq<char>,
    output_dir: Option<Seq<char>>,
) -> Seq<char> {
    let dir_name = stem_text(file_name_text(graph_file)->0) + "_tallies"@;
    match output_dir {
        Some(dir) => join_text(dir, dir_name),
        None => match parent_text(graph_file) {
            Some(dir) => join_text(dir, dir_name),
            None => join_text("."@, dir_name),
        },
    }
}

fn graph_stem(graph_file: &str) -> (r: String)
    requires
        file_name_text(graph_file@) is Some,
    ensures
        r@ == stem_text(file_name_text(graph_file@)->0),
{
    match file_name(graph_file) {
        Some(name) => stem(name.as_str()),
        None => String::new(),
    }
}

/// The directory that holds the tallies over a graph.
pub fn build_tally_output_dir(graph_file: &str, output_dir: Option<&str>) -> (r: String)
    requires
        file_name_text(graph_file@) is Some,
    ensures
        r@ == graph_tally_dir_text(graph_file@, optional_text(output_dir)),
{
    let mut dir_name = graph_stem(graph_file);
    dir_name.append("_tallies");
    match output_dir {
        Some(dir) => join(dir, dir_name.as_str()),
        None => match parent(graph_file) {
            Some(dir) => join(dir.as_str(), dir_name.as_str()),
            None => join(".", dir_name.as_str()),
        },
    }
}

/// The path of the tally of `key` over a graph.
pub fn build_tally_output_path(graph_file: &str, key: &str, output_dir: Option<&str>) -> (r: String)
    requires
        file_name_text(graph_file@) is Some,
    ensures
        r@ == join_text(
            graph_tally_dir_text(graph_file@, optional_text(output_dir)),
            key@ + "_tally_"@ + stem_text(file_name_text(graph_file@)->0) + ".parquet"@,
        ),
{
    let mut name = key.to_owned();
    name.append("_tally_");
    name.append(graph_stem(graph_file).as_str());
    name.append(".parquet");
    let dir = build_tally_output_dir(graph_file, output_dir);
    join(dir.as_str(), name.as_str())
}

/// The tallies of a graph go under the directory asked for, or else beside the graph, in a directory
/// named after the graph's stem.
pub proof fn law_graph_tally_place(graph_file: Seq<char>, name: Seq<char>, dir: Seq<char>)
    requires
        file_name_text(graph_file) == Some(name),
    ensures
        graph_tally_dir_text(graph_file, Some(dir)) == join_text(
            dir,
            stem_text(name) + "_tallies"@,
        ),
        parent_text(graph_file) == Some(dir) ==> graph_tally_dir_text(graph_file, None)
            == join_text(dir, stem_text(name) + "_tallies"@),
{
}

} // verus!

//! The flat command line: one set of arguments, and a mode that says which of them matter.
use crate::cli::{
    keys_fit, nameless_input, nameless_input_text, no_graph_text, reports_keys, GraphSource, Job,
};
use crate::error::{invalid_input, Error};
use crate::path::{file_name, file_name_text};
use crate::text::{borrowed, optional_string};
use vstd::prelude::*;

pub mod changed_assignments;
pub mod cut_edges;
pub mod extract_unique_plans;
pub mod paths;
pub mod polsby_popper;
pub mod region;
pub mod tally_keys;
pub mod unique_plans;

verus! {

/// What to compute.
#[derive(Clone, Copy, PartialEq, Eq, Structural, Debug)]
pub enum Mode {
    TallyKeys,
    CutEdges,
    PolsbyPopper,
    ChangedAssignments,
    RegionSplits,
    RegionPieces,
    UniquePlans,
    ExtractUniquePlans,
}

/// All arguments of all modes.
#[derive(Debug)]
pub struct Args {
    pub mode: Mode,
    pub graph_file: Option<String>,
    pub ben_file: String,
    pub normalize: bool,
    pub max_accepted: Option<usize>,
    /// Reassign labels at random.
    pub randomize_reassignments: bool,
    /// Makes random reassignments repeatable.
    pub seed: Option<u64>,
    pub keys: Vec<String>,
    pub edge_weight_key: Option<String>,
    pub area_key: Option<String>,
    pub perim_key: Option<String>,
    pub boundary_perim_key: Option<String>,
    pub shared_perim_key: Option<String>,
    /// Stop after this many samples.
    pub max_samples: Option<usize>,
    pub no_progress: bool,
    pub output_dir: Option<String>,
    /// Compress for size rather than for speed.
    pub high_compression: bool,
}

impl Args {
    /// Whether the ensemble file has a name for output names to derive from.
    pub open spec fn names_input(&self) -> bool {
        file_name_text(self.ben_file@) is Some
    }

    /// Whether a progress bar is shown.
    pub fn show_progress(&self) -> (r: bool)
        ensures
            r == !self.no_progress,
    {
        !self.no_progress
    }
}

/// The mode name that messages use, for a mode that needs keys.
pub open spec fn keyed_mode(mode: Mode) -> Option<Seq<char>> {
    match mode {
        Mode::TallyKeys => Some("tally-keys"@),
        Mode::RegionSplits => Some("region-splits"@),
        Mode::RegionPieces => Some("region-pieces"@),
        _ => None,
    }
}

/// Whether `job` is what the arguments ask for.
pub open spec fn is_job<W>(args: Args, one: W, zero: W, job: Job<W>) -> bool {
    match (args.mode, job) {
        (Mode::TallyKeys, Job::TallyKeys(j)) => tally_keys::is_job(args, j),
        (Mode::CutEdges, Job::CutEdges(j)) => cut_edges::is_job(args, one, j),
        (Mode::PolsbyPopper, Job::PolsbyPopper(j)) => polsby_popper::is_job(args, zero, j),
        (Mode::ChangedAssignments, Job::ChangedAssignments(j)) => changed_assignments::is_job(
            args,
            j,
        ),
        (Mode::RegionSplits, Job::Region(j)) => region::is_splits_job(args, j),
        (Mode::RegionPieces, Job::Region(j)) => region::is_pieces_job(args, j),
        (Mode::UniquePlans, Job::UniquePlans(j)) => unique_plans::is_job(args, j),
        (Mode::ExtractUniquePlans, Job::ExtractUniquePlans(j)) => extract_unique_plans::is_job(
            args,
            j,
        ),
        _ => false,
    }
}

/// Turn arguments into a job.
///
/// `one` is the weight of an edge without a weight where edges are counted, `zero` the length of one
/// without a length where lengths are added.
pub fn run<W>(args: Args, one: W, zero: W) -> (r: Result<Job<W>, Error>)
    ensures
        r is Ok <==> args.names_input() && (keyed_mode(args.mode) is Some ==> keys_fit(args.keys@)),
        r matches Err(e) ==> if !args.names_input() {
            e.is_invalid_input(nameless_input_text(args.ben_file@))
        } else {
            keyed_mode(args.mode) matches Some(mode) && reports_keys(args.keys@, mode, e)
        },
        r matches Ok(job) ==> is_job(args, one, zero, job),
{
    if file_name(args.ben_file.as_str()).is_none() {
        return Err(nameless_input(args.ben_file.as_str()));
    }
    match args.mode {
        Mode::TallyKeys => match tally_keys::run(args) {
            Ok(job) => Ok(Job::TallyKeys(job)),
            Err(e) => Err(e),
        },
        Mode::CutEdges => Ok(Job::CutEdges(cut_edges::run(args, one))),
        Mode::PolsbyPopper => Ok(Job::PolsbyPopper(polsby_popper::run(args, zero))),
        Mode::ChangedAssignments => Ok(Job::ChangedAssignments(changed_assignments::run(args))),
        Mode::RegionSplits => match region::run_splits(args) {
            Ok(job) => Ok(Job::Region(job)),
            Err(e) => Err(e),
        },
        Mode::RegionPieces => match region::run_pieces(args) {
            Ok(job) => Ok(Job::Region(job)),
            Err(e) => Err(e),
        },
        Mode::UniquePlans => Ok(Job::UniquePlans(unique_plans::run(args))),
        Mode::ExtractUniquePlans => Ok(Job::ExtractUniquePlans(extract_unique_plans::run(args))),
    }
}

/// Pick the graph of a run: a graph file always wins, then comes the graph that the input holds.
pub fn resolve_graph(args: &Args, embedded: bool) -> (r: Result<GraphSource, Error>)
    ensures
        match r {
            Ok(GraphSource::File { path, overrides_embedded }) => optional_string(args.graph_file)
                == Some(path@) && overrides_embedded == embedded,
            Ok(GraphSource::Embedded) => args.graph_file is None && embedded,
            Err(e) => args.graph_file is None && !embedded && e.is_invalid_input(no_graph_text()),
        },
{
    match (borrowed(&args.graph_file), embedded) {
        (Some(path), _) => Ok(
            GraphSource::File { path: path.to_owned(), overrides_embedded: embedded },
        ),
        (None, true) => Ok(GraphSource::Embedded),
        (None, false) => match graph_file(args) {
            Ok(path) => Ok(
                GraphSource::File { path: path.to_owned(), overrides_embedded: embedded },
            ),
            Err(e) => Err(e),
        },
    }
}

/// The graph file, which has to be given.
pub fn graph_file(args: &Args) -> (r: Result<&str, Error>)
    ensures
        match r {
            Ok(path) => optional_string(args.graph_file) == Some(path@),
            Err(e) => args.graph_file is None && e.is_invalid_input(no_graph_text()),
        },
{
    match &args.graph_file {
        Some(path) => Ok(path.as_str()),
        None => Err(
            invalid_input("graph file required; pass --graph-file <PATH>".to_owned()),
        ),
    }
}

/// Check the keys of a mode.
pub fn require_keys(args: &Args, mode_name: &str) -> (r: Result<(), Error>)
    ensures
        r is Ok <==> keys_fit(args.keys@),
        r matches Err(e) ==> reports_keys(args.keys@, mode_name@, e),
{
    crate::cli::require_keys(args.keys.as_slice(), mode_name)
}

/// A job is for the input, the keys, the cap on samples and the compression that the arguments ask
/// for, and shows progress unless that was declined.
pub proof fn law_job_keeps_what_was_asked<W>(args: Args, one: W, zero: W, job: Job<W>)
    requires
        is_job(args, one, zero, job),
    ensures
        match (args.mode, job) {
            (Mode::TallyKeys, Job::TallyKeys(j)) => {
                &&& j.ben_file == args.ben_file
                &&& j.graph.graph_file == args.graph_file
                &&& j.keys@ == args.keys@
                &&& j.max_samples == args.max_samples
                &&& j.high_compression == args.high_compression
                &&& j.show_progress == !args.no_progress
            },
            (Mode::CutEdges, Job::CutEdges(j)) => {
                &&& j.ben_file == args.ben_file
                &&& j.graph.graph_file == args.graph_file
                &&& match (args.edge_weight_key, j.graph.request.edge_weight) {
                    (Some(key), Some(weight)) => weight.key == key && weight.default_value == one,
                    (None, None) => true,
                    _ => false,
                }
                &&& j.max_samples == args.max_samples
                &&& j.high_compression == args.high_compression
                &&& j.show_progress == !args.no_progress
            },
            (Mode::PolsbyPopper, Job::PolsbyPopper(j)) => {
                &&& j.ben_file == args.ben_file
                &&& j.graph.graph_file == args.graph_file
                &&& args.area_key matches Some(key) ==> j.area_key@ == key@
                &&& args.area_key is None ==> j.area_key@ == "area"@
                &&& j.perim_key == args.perim_key
                &&& j.max_samples == args.max_samples
                &&& j.high_compression == args.high_compression
                &&& j.show_progress == !args.no_progress
            },
            (Mode::ChangedAssignments, Job::ChangedAssignments(j)) => {
                &&& j.args.common.ben_file == args.ben_file
                &&& j.args.common.output_dir == args.output_dir
                &&& j.args.normalize == args.normalize
                &&& j.args.max_accepted == args.max_accepted
                &&& j.args.randomize_reassignments == args.randomize_reassignments
                &&& j.args.seed == args.seed
                &&& j.args.high_compression == args.high_compression
                &&& j.show_progress == !args.no_progress
            },
            (Mode::RegionSplits, Job::Region(j)) => {
                &&& j.metric is Splits
                &&& j.ben_file == args.ben_file
                &&& j.graph.graph_file == args.graph_file
                &&& j.keys@ == args.keys@
                &&& j.max_samples == args.max_samples
                &&& j.high_compression == args.high_compression
                &&& j.show_progress == !args.no_progress
            },
            (Mode::RegionPieces, Job::Region(j)) => {
                &&& j.metric is Pieces
                &&& j.ben_file == args.ben_file
                &&& j.graph.graph_file == args.graph_file
                &&& j.keys@ == args.keys@
                &&& j.max_samples == args.max_samples
                &&& j.high_compression == args.high_compression
                &&& j.show_progress == !args.no_progress
            },
            (Mode::UniquePlans, Job::UniquePlans(j)) => {
                &&& j.args.common.ben_file == args.ben_file
                &&& j.args.max_samples == args.max_samples
                &&& j.args.high_compression == args.high_compression
                &&& j.show_progress == !args.no_progress
            },
            (Mode::ExtractUniquePlans, Job::ExtractUniquePlans(j)) => j.args.common.ben_file
                == args.ben_file && j.args.common.output_dir == args.output_dir && j.show_progress
                == !args.no_progress,
            _ => false,
        },
{
}

} // verus!

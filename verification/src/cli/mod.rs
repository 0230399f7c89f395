//! The command line: one command per metric, and what each command asks of a run.
//!
//! A command's `run` turns its arguments into a job. A job says what to read, what to load, and
//! where the output goes; the reading and writing is up to the program.
use crate::error::{invalid_input, Error};
use crate::graph::GraphLoadRequest;
use crate::graph_check::EdgeValues;
use crate::metrics::region::RegionMetric;
use crate::path::{file_name, file_name_text};
use crate::text::{optional_string, optional_text, quoted, quoted_text, same_text};
use vstd::prelude::*;

pub mod changed_assignments;
pub mod cut_edges;
pub mod extract_unique_plans;
pub mod paths;
pub mod polsby_popper;
pub mod region;
pub mod reock;
pub mod tally_keys;
pub mod unique_plans;

pub use changed_assignments::{ChangedAssignmentsArgs, ChangedAssignmentsJob};
pub use cut_edges::{CutEdgesArgs, CutEdgesJob};
pub use extract_unique_plans::{ExtractUniquePlansArgs, ExtractUniquePlansJob};
pub use paths::{
    build_capped_tally_output_path, build_output_path, build_tally_output_dir,
    build_tally_output_path,
};
pub use polsby_popper::{PolsbyPopperArgs, PolsbyPopperJob};
pub use region::{RegionArgs, RegionJob};
pub use reock::{ReockArgs, ReockJob};
pub use tally_keys::{TallyKeysArgs, TallyKeysJob};
pub use unique_plans::{UniquePlansArgs, UniquePlansJob};

verus! {

/// A parsed command line.
#[derive(Debug)]
pub struct Cli {
    pub command: Command,
    /// Show status lines.
    pub verbose: bool,
    /// Show no progress bar.
    pub quiet: bool,
}

/// The commands.
#[derive(Debug)]
pub enum Command {
    /// Tally numeric node attributes by district.
    TallyKeys(TallyKeysArgs),
    /// Count cut edges per plan, by weight if asked for.
    CutEdges(CutEdgesArgs),
    /// Polsby-Popper scores by district and plan.
    PolsbyPopper(PolsbyPopperArgs),
    /// Reock scores by district and plan.
    Reock(ReockArgs),
    /// How often each node changes district.
    ChangedAssignments(ChangedAssignmentsArgs),
    /// Count split regions per plan.
    RegionSplits(RegionArgs),
    /// Count district pieces per plan.
    RegionPieces(RegionArgs),
    /// Count different partitions.
    UniquePlans(UniquePlansArgs),
    /// Extract the first plan of each partition.
    ExtractUniquePlans(ExtractUniquePlansArgs),
}

impl Command {
    /// The arguments that every command has.
    pub open spec fn common_args(&self) -> CommonArgs {
        match self {
            Command::TallyKeys(a) => a.common,
            Command::CutEdges(a) => a.common,
            Command::PolsbyPopper(a) => a.common,
            Command::Reock(a) => a.common,
            Command::ChangedAssignments(a) => a.common,
            Command::RegionSplits(a) => a.common,
            Command::RegionPieces(a) => a.common,
            Command::UniquePlans(a) => a.common,
            Command::ExtractUniquePlans(a) => a.common,
        }
    }

    /// The arguments that every command has.
    pub fn common(&self) -> (r: &CommonArgs)
        ensures
            *r == self.common_args(),
    {
        match self {
            Command::TallyKeys(a) => &a.common,
            Command::CutEdges(a) => &a.common,
            Command::PolsbyPopper(a) => &a.common,
            Command::Reock(a) => &a.common,
            Command::ChangedAssignments(a) => &a.common,
            Command::RegionSplits(a) => &a.common,
            Command::RegionPieces(a) => &a.common,
            Command::UniquePlans(a) => &a.common,
            Command::ExtractUniquePlans(a) => &a.common,
        }
    }
}

/// What to read, and where the output goes if not next to it.
#[derive(Debug)]
pub struct CommonArgs {
    pub ben_file: String,
    pub output_dir: Option<String>,
}

impl CommonArgs {
    /// The ensemble file.
    pub fn ben_file(&self) -> (r: &str)
        ensures
            r@ == self.ben_file@,
    {
        self.ben_file.as_str()
    }

    /// The output directory.
    pub fn output_dir(&self) -> (r: Option<&str>)
        ensures
            optional_text(r) == optional_string(self.output_dir),
    {
        match &self.output_dir {
            Some(dir) => Some(dir.as_str()),
            None => None,
        }
    }

    /// Whether the ensemble file has a name for output names to derive from.
    pub open spec fn names_input(&self) -> bool {
        file_name_text(self.ben_file@) is Some
    }
}

/// What a run is to do.
#[derive(Debug)]
pub enum Job<W> {
    TallyKeys(TallyKeysJob<W>),
    CutEdges(CutEdgesJob<W>),
    PolsbyPopper(PolsbyPopperJob<W>),
    Reock(ReockJob),
    ChangedAssignments(ChangedAssignmentsJob),
    Region(RegionJob<W>),
    UniquePlans(UniquePlansJob),
    ExtractUniquePlans(ExtractUniquePlansJob),
}

/// The graph that a run needs: where it is, if the input does not hold it, what to load of it, and
/// what is asked of the edge values where some are loaded.
#[derive(Debug)]
pub struct GraphNeed<W> {
    pub graph_file: Option<String>,
    pub request: GraphLoadRequest<W>,
    pub edge_values: EdgeValues,
}

/// Whether a request asks for exactly these keys and nothing else.
pub open spec fn requests<W>(
    request: GraphLoadRequest<W>,
    numeric: Seq<String>,
    partial: Seq<Seq<char>>,
    regions: Seq<String>,
) -> bool {
    &&& request.numeric_keys@ == numeric
    &&& request.partial_numeric_keys@.len() == partial.len()
    &&& forall|k: int|
        0 <= k < partial.len() ==> (#[trigger] request.partial_numeric_keys@[k])@ == partial[k]
    &&& request.region_keys@ == regions
    &&& !request.need_adjacency
}

/// The message for an input path that names no file.
pub open spec fn nameless_input_text(ben_file: Seq<char>) -> Seq<char> {
    "invalid --ben-file "@ + quoted_text(ben_file) + ": path has no file name component"@
}

/// The error for an input path that names no file.
pub fn nameless_input(ben_file: &str) -> (r: Error)
    ensures
        r.is_invalid_input(nameless_input_text(ben_file@)),
{
    let mut message = "invalid --ben-file ".to_owned();
    message.append(quoted(ben_file).as_str());
    message.append(": path has no file name component");
    invalid_input(message)
}

/// The mode name that a command's messages use.
pub open spec fn keyed_mode(command: Command) -> Option<(Seq<String>, Seq<char>)> {
    match command {
        Command::TallyKeys(a) => Some((a.keys@, "tally-keys"@)),
        Command::RegionSplits(a) => Some((a.keys@, "region-splits"@)),
        Command::RegionPieces(a) => Some((a.keys@, "region-pieces"@)),
        _ => None,
    }
}

/// Whether a command line makes a job: the input has a name, and a command that needs keys has them,
/// each once.
pub open spec fn makes_job(cli: Cli) -> bool {
    &&& cli.command.common_args().names_input()
    &&& keyed_mode(cli.command) matches Some((keys, _)) ==> keys_fit(keys)
}

/// Whether `e` is why a command line makes no job. The input's name is looked at first.
pub open spec fn refuses(cli: Cli, e: Error) -> bool {
    if !cli.command.common_args().names_input() {
        e.is_invalid_input(nameless_input_text(cli.command.common_args().ben_file@))
    } else {
        keyed_mode(cli.command) matches Some((keys, mode)) && reports_keys(keys, mode, e)
    }
}

/// Whether `job` is what a command line asks for.
pub open spec fn is_job<W>(cli: Cli, one: W, zero: W, job: Job<W>) -> bool {
    let shown = !cli.quiet;
    match (cli.command, job) {
        (Command::TallyKeys(a), Job::TallyKeys(j)) => j.is_for(a, shown),
        (Command::CutEdges(a), Job::CutEdges(j)) => j.is_for(a, shown, one),
        (Command::PolsbyPopper(a), Job::PolsbyPopper(j)) => j.is_for(a, shown, zero),
        (Command::Reock(a), Job::Reock(j)) => j.is_for(a, shown),
        (Command::ChangedAssignments(a), Job::ChangedAssignments(j)) => j.is_for(a, shown),
        (Command::RegionSplits(a), Job::Region(j)) => j.is_for(
            a,
            shown,
            RegionMetric::Splits,
            "_region_splits.parquet"@,
        ),
        (Command::RegionPieces(a), Job::Region(j)) => j.is_for(
            a,
            shown,
            RegionMetric::Pieces,
            "_region_pieces.parquet"@,
        ),
        (Command::UniquePlans(a), Job::UniquePlans(j)) => j.is_for(a, shown),
        (Command::ExtractUniquePlans(a), Job::ExtractUniquePlans(j)) => j.is_for(a, shown),
        _ => false,
    }
}

/// Turn a command line into a job.
///
/// `one` is the weight of an edge without a weight where edges are counted, `zero` the length of one
/// without a length where lengths are added.
pub fn run<W>(cli: Cli, one: W, zero: W) -> (r: Result<Job<W>, Error>)
    ensures
        r is Ok <==> makes_job(cli),
        r matches Err(e) ==> refuses(cli, e),
        r matches Ok(job) ==> is_job(cli, one, zero, job),
{
    let show_progress = !cli.quiet;
    {
        let ben_file = cli.command.common().ben_file();
        if file_name(ben_file).is_none() {
            return Err(nameless_input(ben_file));
        }
    }
    match cli.command {
        Command::TallyKeys(args) => match tally_keys::run(args, show_progress) {
            Ok(job) => Ok(Job::TallyKeys(job)),
            Err(e) => Err(e),
        },
        Command::CutEdges(args) => Ok(Job::CutEdges(cut_edges::run(args, show_progress, one))),
        Command::PolsbyPopper(args) => Ok(
            Job::PolsbyPopper(polsby_popper::run(args, show_progress, zero)),
        ),
        Command::Reock(args) => Ok(Job::Reock(reock::run(args, show_progress))),
        Command::ChangedAssignments(args) => Ok(
            Job::ChangedAssignments(changed_assignments::run(args, show_progress)),
        ),
        Command::RegionSplits(args) => match region::run_splits(args, show_progress) {
            Ok(job) => Ok(Job::Region(job)),
            Err(e) => Err(e),
        },
        Command::RegionPieces(args) => match region::run_pieces(args, show_progress) {
            Ok(job) => Ok(Job::Region(job)),
            Err(e) => Err(e),
        },
        Command::UniquePlans(args) => Ok(Job::UniquePlans(unique_plans::run(args, show_progress))),
        Command::ExtractUniquePlans(args) => Ok(
            Job::ExtractUniquePlans(extract_unique_plans::run(args, show_progress)),
        ),
    }
}

/// Where a run's graph comes from.
#[derive(Debug)]
pub enum GraphSource {
    /// A file. It may be used in place of a graph that the input holds.
    File { path: String, overrides_embedded: bool },
    /// The input itself.
    Embedded,
}

/// The message for a run without a graph.
pub open spec fn no_graph_text() -> Seq<char> {
    "graph file required; pass --graph-file <PATH>"@
}

/// Pick the graph of a run: a graph file always wins, then comes the graph that the input holds.
pub fn resolve_graph(graph_file: Option<&str>, embedded: bool) -> (r: Result<GraphSource, Error>)
    ensures
        match r {
            Ok(GraphSource::File { path, overrides_embedded }) => graph_file matches Some(file)
                && path@ == file@ && overrides_embedded == embedded,
            Ok(GraphSource::Embedded) => graph_file is None && embedded,
            Err(e) => graph_file is None && !embedded && e.is_invalid_input(no_graph_text()),
        },
{
    match graph_file {
        Some(path) => Ok(
            GraphSource::File { path: path.to_owned(), overrides_embedded: embedded },
        ),
        None => if embedded {
            Ok(GraphSource::Embedded)
        } else {
            Err(invalid_input("graph file required; pass --graph-file <PATH>".to_owned()))
        },
    }
}

/// Whether key `i` is among the keys before it.
pub open spec fn repeats(keys: Seq<String>, i: int) -> bool {
    exists|j: int| 0 <= j < i && (#[trigger] keys[j])@ == keys[i]@
}

/// Whether there are keys and none is there twice.
pub open spec fn keys_fit(keys: Seq<String>) -> bool {
    keys.len() > 0 && forall|i: int| 0 <= i < keys.len() ==> !#[trigger] repeats(keys, i)
}

/// The message for a command without keys.
pub open spec fn no_keys_text(mode_name: Seq<char>) -> Seq<char> {
    "at least one key is required for "@ + mode_name + " mode"@
}

/// The message for a key that is there twice.
pub open spec fn duplicate_key_text(key: Seq<char>) -> Seq<char> {
    "duplicate key "@ + quoted_text(key) + " passed to --keys"@
}

/// Whether `e` reports what is wrong with keys: none at all, or the first that is there twice.
pub open spec fn reports_keys(keys: Seq<String>, mode_name: Seq<char>, e: Error) -> bool {
    if keys.len() == 0 {
        e.is_invalid_input(no_keys_text(mode_name))
    } else {
        exists|i: int|
            0 <= i < keys.len() && #[trigger] repeats(keys, i) && (forall|j: int|
                0 <= j < i ==> !#[trigger] repeats(keys, j)) && e.is_invalid_input(
                duplicate_key_text(keys[i]@),
            )
    }
}

/// Check the keys of a command.
pub fn require_keys(keys: &[String], mode_name: &str) -> (r: Result<(), Error>)
    ensures
        r is Ok <==> keys_fit(keys@),
        r matches Err(e) ==> reports_keys(keys@, mode_name@, e),
{
    if keys.len() == 0 {
        let mut message = "at least one key is required for ".to_owned();
        message.append(mode_name);
        message.append(" mode");
        return Err(invalid_input(message));
    }
    let mut i: usize = 0;
    while i < keys.len()
        invariant
            0 < keys@.len(),
            i <= keys@.len(),
            forall|k: int| 0 <= k < i ==> !#[trigger] repeats(keys@, k),
        decreases keys.len() - i,
    {
        let mut j: usize = 0;
        while j < i
            invariant
                j <= i < keys@.len(),
                forall|k: int| 0 <= k < i ==> !#[trigger] repeats(keys@, k),
                forall|k: int| 0 <= k < j ==> (#[trigger] keys@[k])@ != keys@[i as int]@,
            decreases i - j,
        {
            if same_text(keys[j].as_str(), keys[i].as_str()) {
                let mut message = "duplicate key ".to_owned();
                message.append(quoted(keys[i].as_str()).as_str());
                message.append(" passed to --keys");
                assert(keys@[j as int]@ == keys@[i as int]@);
                assert(repeats(keys@, i as int));
                return Err(invalid_input(message));
            }
            j += 1;
        }
        i += 1;
    }
    Ok(())
}

/// Keys fit exactly when there is one and no two are alike.
pub proof fn law_keys_fit(keys: Seq<String>)
    ensures
        keys_fit(keys) <==> keys.len() > 0 && forall|i: int, j: int|
            0 <= i < j < keys.len() ==> (#[trigger] keys[i])@ != (#[trigger] keys[j])@,
{
    if keys_fit(keys) {
        assert forall|i: int, j: int| 0 <= i < j < keys.len() implies (#[trigger] keys[i])@ != (
        #[trigger] keys[j])@ by {
            assert(!repeats(keys, j));
        }
    }
    if forall|i: int, j: int|
        0 <= i < j < keys.len() ==> (#[trigger] keys[i])@ != (#[trigger] keys[j])@ {
        assert forall|j: int| 0 <= j < keys.len() implies !#[trigger] repeats(keys, j) by {
            if repeats(keys, j) {
                let i = choose|i: int| 0 <= i < j && (#[trigger] keys[i])@ == keys[j]@;
                assert(keys[i]@ != keys[j]@);
            }
        }
    }
}

/// A job is for the input, the keys, the cap on samples and the compression that the command line
/// asks for, and shows progress unless it is quiet.
pub proof fn law_job_keeps_what_was_asked<W>(cli: Cli, one: W, zero: W, job: Job<W>)
    requires
        is_job(cli, one, zero, job),
    ensures
        match (cli.command, job) {
            (Command::TallyKeys(a), Job::TallyKeys(j)) => {
                &&& j.ben_file == a.common.ben_file
                &&& j.graph.graph_file == a.graph_file
                &&& j.keys@ == a.keys@
                &&& j.graph.request.numeric_keys@ == a.keys@
                &&& j.output_files@.len() == a.keys@.len()
                &&& j.max_samples == a.max_samples
                &&& j.high_compression == a.high_compression
                &&& j.show_progress == !cli.quiet
            },
            (Command::CutEdges(a), Job::CutEdges(j)) => {
                &&& j.ben_file == a.common.ben_file
                &&& j.graph.graph_file == a.graph_file
                &&& match (a.edge_weight_key, j.graph.request.edge_weight) {
                    (Some(key), Some(weight)) => weight.key == key && weight.default_value == one,
                    (None, None) => true,
                    _ => false,
                }
                &&& j.max_samples == a.max_samples
                &&& j.high_compression == a.high_compression
                &&& j.show_progress == !cli.quiet
            },
            (Command::PolsbyPopper(a), Job::PolsbyPopper(j)) => {
                &&& j.ben_file == a.common.ben_file
                &&& j.graph.graph_file == a.graph_file
                &&& a.area_key matches Some(key) ==> j.area_key@ == key@
                &&& a.area_key is None ==> j.area_key@ == "area"@
                &&& j.perim_key == a.perim_key
                &&& (j.graph.request.edge_weight matches Some(weight) && weight.default_value
                    == zero && match a.shared_perim_key {
                    Some(key) => weight.key@ == key@,
                    None => weight.key@ == "shared_perim"@,
                })
                &&& j.max_samples == a.max_samples
                &&& j.high_compression == a.high_compression
                &&& j.show_progress == !cli.quiet
            },
            (Command::Reock(a), Job::Reock(j)) => j.args == a && j.show_progress == !cli.quiet,
            (Command::ChangedAssignments(a), Job::ChangedAssignments(j)) => j.args == a
                && j.show_progress == !cli.quiet,
            (Command::RegionSplits(a), Job::Region(j)) => {
                &&& j.metric is Splits
                &&& j.ben_file == a.common.ben_file
                &&& j.graph.graph_file == a.graph_file
                &&& j.keys@ == a.keys@
                &&& j.graph.request.region_keys@ == a.keys@
                &&& j.max_samples == a.max_samples
                &&& j.high_compression == a.high_compression
                &&& j.show_progress == !cli.quiet
            },
            (Command::RegionPieces(a), Job::Region(j)) => {
                &&& j.metric is Pieces
                &&& j.ben_file == a.common.ben_file
                &&& j.graph.graph_file == a.graph_file
                &&& j.keys@ == a.keys@
                &&& j.graph.request.region_keys@ == a.keys@
                &&& j.max_samples == a.max_samples
                &&& j.high_compression == a.high_compression
                &&& j.show_progress == !cli.quiet
            },
            (Command::UniquePlans(a), Job::UniquePlans(j)) => j.args == a && j.show_progress
                == !cli.quiet,
            (Command::ExtractUniquePlans(a), Job::ExtractUniquePlans(j)) => j.args == a
                && j.show_progress == !cli.quiet,
            _ => false,
        },
{
}

} // verus!

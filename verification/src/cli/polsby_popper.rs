//! The `polsby-popper` command.
use super::paths::{build_output_path, law_output_is_not_the_input, output_path_text};
use super::{CommonArgs, GraphNeed};
use crate::graph::{EdgeWeightRequest, GraphLoadRequest};
use crate::graph_check::EdgeValues;
use crate::text::{borrowed, optional_string};
use vstd::prelude::*;

verus! {

/// The command's arguments.
#[derive(Debug)]
pub struct PolsbyPopperArgs {
    pub common: CommonArgs,
    pub graph_file: Option<String>,
    pub area_key: Option<String>,
    pub perim_key: Option<String>,
    pub boundary_perim_key: Option<String>,
    pub shared_perim_key: Option<String>,
    /// Stop after this many samples.
    pub max_samples: Option<usize>,
    /// Compress for size rather than for speed.
    pub high_compression: bool,
}

/// What a run of the command is to do.
#[derive(Debug)]
pub struct PolsbyPopperJob<W> {
    pub ben_file: String,
    pub graph: GraphNeed<W>,
    pub area_key: String,
    pub perim_key: Option<String>,
    pub boundary_perim_key: Option<String>,
    pub output_file: String,
    pub show_progress: bool,
    pub max_samples: Option<usize>,
    pub high_compression: bool,
}

/// A key, or the usual one where none is given.
pub open spec fn key_or(key: Option<String>, usual: Seq<char>) -> Seq<char> {
    match key {
        Some(k) => k@,
        None => usual,
    }
}

fn chosen_key(key: &Option<String>, usual: &str) -> (r: String)
    ensures
        r@ == key_or(*key, usual@),
{
    match key {
        Some(k) => k.clone(),
        None => usual.to_owned(),
    }
}

impl<W> PolsbyPopperJob<W> {
    /// Whether this is the job of given arguments. With a perimeter key the perimeter is a required
    /// field; without one the outer boundary is an optional one.
    pub open spec fn is_for(&self, args: PolsbyPopperArgs, show_progress: bool, zero: W) -> bool {
        let request = self.graph.request;
        &&& self.output_file@ == output_path_text(
            args.common.ben_file@,
            "_polsby_popper.parquet"@,
            optional_string(args.common.output_dir),
        )
        &&& self.output_file@ != args.common.ben_file@
        &&& self.ben_file == args.common.ben_file
        &&& self.graph.graph_file == args.graph_file
        &&& self.graph.edge_values == EdgeValues::Present
        &&& self.area_key@ == key_or(args.area_key, "area"@)
        &&& self.perim_key == args.perim_key
        &&& match args.perim_key {
            Some(perim) => {
                &&& self.boundary_perim_key == args.boundary_perim_key
                &&& request.numeric_keys@.len() == 2
                &&& request.numeric_keys@[0]@ == key_or(args.area_key, "area"@)
                &&& request.numeric_keys@[1]@ == perim@
                &&& request.partial_numeric_keys@.len() == 0
            },
            None => {
                &&& optional_string(self.boundary_perim_key) == Some(
                    key_or(args.boundary_perim_key, "boundary_perim"@),
                )
                &&& request.numeric_keys@.len() == 1
                &&& request.numeric_keys@[0]@ == key_or(args.area_key, "area"@)
                &&& request.partial_numeric_keys@.len() == 1
                &&& request.partial_numeric_keys@[0]@ == key_or(
                    args.boundary_perim_key,
                    "boundary_perim"@,
                )
            },
        }
        &&& request.region_keys@.len() == 0
        &&& (request.edge_weight matches Some(weight) && weight.key@ == key_or(
            args.shared_perim_key,
            "shared_perim"@,
        ) && weight.default_value == zero)
        &&& !request.need_adjacency
        &&& self.show_progress == show_progress
        &&& self.max_samples == args.max_samples
        &&& self.high_compression == args.high_compression
    }

    /// Ask for incident-edge lists where the input is a chain of changes: patching needs them.
    pub fn for_variant(&mut self, two_delta: bool)
        ensures
            final(self).graph.request == (GraphLoadRequest {
                need_adjacency: two_delta,
                ..old(self).graph.request
            }),
            *final(self) == (PolsbyPopperJob { graph: final(self).graph, ..*old(self) }),
            final(self).graph.graph_file == old(self).graph.graph_file,
            final(self).graph.edge_values == old(self).graph.edge_values,
    {
        self.graph.request.need_adjacency = two_delta;
    }
}

/// Turn the command's arguments into a job. An edge without a shared length counts as `zero`.
pub fn run<W>(args: PolsbyPopperArgs, show_progress: bool, zero: W) -> (r: PolsbyPopperJob<W>)
    requires
        args.common.names_input(),
    ensures
        r.is_for(args, show_progress, zero),
{
    let area_key = chosen_key(&args.area_key, "area");
    let shared_perim_key = chosen_key(&args.shared_perim_key, "shared_perim");
    let mut numeric_keys: Vec<String> = Vec::new();
    let mut partial_numeric_keys: Vec<String> = Vec::new();
    numeric_keys.push(area_key.clone());
    let boundary_perim_key = match &args.perim_key {
        Some(perim_key) => {
            numeric_keys.push(perim_key.clone());
            args.boundary_perim_key
        },
        None => {
            let boundary = chosen_key(&args.boundary_perim_key, "boundary_perim");
            partial_numeric_keys.push(boundary.clone());
            Some(boundary)
        },
    };
    proof {
        reveal_strlit("_polsby_popper.parquet");
        law_output_is_not_the_input(
            args.common.ben_file@,
            "_polsby_popper.parquet"@,
            optional_string(args.common.output_dir),
        );
    }
    let output_file = build_output_path(
        args.common.ben_file.as_str(),
        "_polsby_popper.parquet",
        borrowed(&args.common.output_dir),
    );
    let request = GraphLoadRequest {
        numeric_keys,
        partial_numeric_keys,
        region_keys: Vec::new(),
        edge_weight: Some(EdgeWeightRequest { key: shared_perim_key, default_value: zero }),
        need_adjacency: false,
    };
    PolsbyPopperJob {
        ben_file: args.common.ben_file,
        graph: GraphNeed {
            graph_file: args.graph_file,
            request,
            edge_values: EdgeValues::Present,
        },
        area_key,
        perim_key: args.perim_key,
        boundary_perim_key,
        output_file,
        show_progress,
        max_samples: args.max_samples,
        high_compression: args.high_compression,
    }
}

} // verus!

//! What is said of a graph that cannot be used, and checks on edge weights.
use crate::error::{invalid_data, invalid_input, Error};
use crate::graph::{
    edge_before, edge_sound, edge_weight, entry_sound, ids_sound, is_labelled, last_weight,
    lemma_mentions_in_range, lenient_value, lists_edges, mention, mentions, mentions_among,
    parse_numeric_opt, resolve_target, row_mentions, weighs, weight_key, EdgeWeightRequest, Graph,
    GraphFault, GraphLoadRequest, JsonField, JsonGraphData, Mention, NodeIds, NumericProblem,
    Record,
};
use crate::graph::build_node_id_index;
use crate::text::{decimal, push_decimal, quoted, quoted_text};
use vstd::prelude::*;

verus! {

// ---------------------------------------------------------------------------------------------
// Messages
// ---------------------------------------------------------------------------------------------

/// The words that a message about a fault uses: what the records at fault look like.
#[derive(Debug)]
pub struct FaultWords {
    /// Where the graph comes from.
    pub file_path: String,
    /// The numeric key.
    pub key: String,
    /// The id at fault.
    pub id: String,
    /// The value at fault.
    pub value: String,
    /// The node or edge at fault.
    pub record: String,
    /// How many nodes the graph has.
    pub node_count: usize,
}

/// Why a node field is not usable as a number.
pub open spec fn numeric_problem_text(problem: NumericProblem, words: FaultWords) -> Seq<char> {
    let key = quoted_text(words.key@);
    match problem {
        NumericProblem::Missing => "missing numeric graph key "@ + key + " on node "@
            + words.record@,
        NumericProblem::NotReal => "non-f64 numeric graph value for key "@ + key + ": "@
            + words.value@,
        NumericProblem::Invalid => "invalid numeric graph value for key "@ + key + ": "@
            + words.value@ + " on node "@ + words.record@,
        NumericProblem::NonFinite => "non-finite numeric graph value for key "@ + key + ": "@
            + words.value@ + " on node "@ + words.record@,
    }
}

/// Why a graph cannot be used.
pub open spec fn fault_text(fault: GraphFault, words: FaultWords) -> Seq<char> {
    match fault {
        GraphFault::Directed => "graph "@ + quoted_text(words.file_path@)
            + " is marked directed; ben-process only supports undirected dual graphs"@,
        GraphFault::PartialIds { labelled, total } => decimal(labelled as nat) + " of "@ + decimal(
            total as nat,
        )
            + " graph nodes carry an \"id\" field; ids must be present on every node or on none, otherwise adjacency references cannot be resolved"@,
        GraphFault::DuplicateId { .. } => "two graph nodes share the id "@ + words.id@
            + "; node ids must be unique"@,
        GraphFault::Numeric { node, problem, .. } => "failed to load numeric graph key "@
            + quoted_text(words.key@) + " at node "@ + decimal(node as nat) + ": "@
            + numeric_problem_text(problem, words),
        GraphFault::AdjacencyCount { nodes, lists } => "graph has "@ + decimal(nodes as nat)
            + " nodes but "@ + decimal(lists as nat)
            + " adjacency lists; node and adjacency counts must match"@,
        GraphFault::NotAnArray { entry } => "graph adjacency entry "@ + decimal(entry as nat)
            + " is not an array"@,
        GraphFault::EdgeWithoutId { entry, .. } => "graph adjacency entry "@ + decimal(entry as nat)
            + " has edge without id: "@ + words.record@,
        GraphFault::UnknownId { entry, .. } => "graph adjacency entry "@ + decimal(entry as nat)
            + " references id "@ + words.id@ + " which is not the id of any node"@,
        GraphFault::IdNotNumeric { entry, .. } => "graph adjacency entry "@ + decimal(entry as nat)
            + " has edge without numeric id: "@ + words.record@,
        GraphFault::IdOutOfRange { entry, target, .. } => "graph adjacency entry "@ + decimal(
            entry as nat,
        ) + " references node id "@ + decimal(target as nat) + " but the graph has only "@
            + decimal(words.node_count as nat) + " nodes"@,
    }
}

/// Why a node field is not usable as a number.
pub fn numeric_problem_message(problem: NumericProblem, words: &FaultWords) -> (r: String)
    ensures
        r@ == numeric_problem_text(problem, *words),
{
    let key = quoted(words.key.as_str());
    match problem {
        NumericProblem::Missing => {
            let mut message = "missing numeric graph key ".to_owned();
            message.append(key.as_str());
            message.append(" on node ");
            message.append(words.record.as_str());
            message
        },
        NumericProblem::NotReal => {
            let mut message = "non-f64 numeric graph value for key ".to_owned();
            message.append(key.as_str());
            message.append(": ");
            message.append(words.value.as_str());
            message
        },
        NumericProblem::Invalid => {
            let mut message = "invalid numeric graph value for key ".to_owned();
            message.append(key.as_str());
            message.append(": ");
            message.append(words.value.as_str());
            message.append(" on node ");
            message.append(words.record.as_str());
            message
        },
        NumericProblem::NonFinite => {
            let mut message = "non-finite numeric graph value for key ".to_owned();
            message.append(key.as_str());
            message.append(": ");
            message.append(words.value.as_str());
            message.append(" on node ");
            message.append(words.record.as_str());
            message
        },
    }
}

/// The start of a message about an adjacency entry.
fn entry_message(entry: usize) -> (r: String)
    ensures
        r@ == "graph adjacency entry "@ + decimal(entry as nat),
{
    let mut message = "graph adjacency entry ".to_owned();
    push_decimal(&mut message, entry as u64);
    message
}

/// The error for a graph that cannot be used.
pub fn fault_error(fault: GraphFault, words: &FaultWords) -> (r: Error)
    ensures
        r.is_invalid_data(fault_text(fault, *words)),
{
    let message = match fault {
        GraphFault::Directed => {
            let mut message = "graph ".to_owned();
            message.append(quoted(words.file_path.as_str()).as_str());
            message.append(" is marked directed; ben-process only supports undirected dual graphs");
            message
        },
        GraphFault::PartialIds { labelled, total } => {
            let mut message = String::new();
            push_decimal(&mut message, labelled as u64);
            proof {
                assert(message@ =~= decimal(labelled as nat));
            }
            message.append(" of ");
            push_decimal(&mut message, total as u64);
            message.append(
                " graph nodes carry an \"id\" field; ids must be present on every node or on none, otherwise adjacency references cannot be resolved",
            );
            message
        },
        GraphFault::DuplicateId { node: _ } => {
            let mut message = "two graph nodes share the id ".to_owned();
            message.append(words.id.as_str());
            message.append("; node ids must be unique");
            message
        },
        GraphFault::Numeric { key: _, node, problem } => {
            let mut message = "failed to load numeric graph key ".to_owned();
            message.append(quoted(words.key.as_str()).as_str());
            message.append(" at node ");
            push_decimal(&mut message, node as u64);
            message.append(": ");
            message.append(numeric_problem_message(problem, words).as_str());
            message
        },
        GraphFault::AdjacencyCount { nodes, lists } => {
            let mut message = "graph has ".to_owned();
            push_decimal(&mut message, nodes as u64);
            message.append(" nodes but ");
            push_decimal(&mut message, lists as u64);
            message.append(" adjacency lists; node and adjacency counts must match");
            message
        },
        GraphFault::NotAnArray { entry } => {
            let mut message = entry_message(entry);
            message.append(" is not an array");
            message
        },
        GraphFault::EdgeWithoutId { entry, edge: _ } => {
            let mut message = entry_message(entry);
            message.append(" has edge without id: ");
            message.append(words.record.as_str());
            message
        },
        GraphFault::UnknownId { entry, edge: _ } => {
            let mut message = entry_message(entry);
            message.append(" references id ");
            message.append(words.id.as_str());
            message.append(" which is not the id of any node");
            message
        },
        GraphFault::IdNotNumeric { entry, edge: _ } => {
            let mut message = entry_message(entry);
            message.append(" has edge without numeric id: ");
            message.append(words.record.as_str());
            message
        },
        GraphFault::IdOutOfRange { entry, edge: _, target } => {
            let mut message = entry_message(entry);
            message.append(" references node id ");
            push_decimal(&mut message, target);
            message.append(" but the graph has only ");
            push_decimal(&mut message, words.node_count as u64);
            message.append(" nodes");
            message
        },
    };
    invalid_data(message)
}

// ---------------------------------------------------------------------------------------------
// Edge weights
// ---------------------------------------------------------------------------------------------

/// Whether an edge record has a value under `key`. A null value does not count.
pub open spec fn carries<W>(edge: Record<W>, key: Seq<char>) -> bool {
    match edge.field(key) {
        None => false,
        Some(JsonField::Null) => false,
        Some(_) => true,
    }
}

/// Whether the value of an edge record under `key`, if it has one, is a finite number.
pub open spec fn weight_fits<W>(edge: Record<W>, key: Seq<char>) -> bool {
    carries(edge, key) ==> lenient_value(edge.field(key)->0) is Some
}

/// What is wrong with edge weights.
#[derive(Clone, Copy, PartialEq, Eq, Structural, Debug)]
pub enum EdgeWeightFault {
    /// No edge has a weight.
    NoMatch,
    /// The weight of an edge record is not a finite number.
    NotFinite { entry: usize, edge: usize },
}

/// Whether all lists up to an edge record have weights that fit.
pub open spec fn weights_fit_before<W>(
    data: JsonGraphData<W>,
    key: Seq<char>,
    entry: int,
    edge: int,
) -> bool {
    &&& forall|s: int, j: int|
        0 <= s < entry && 0 <= j < data.adjacency@[s]->0@.len() ==> weight_fits(
            #[trigger] data.adjacency@[s]->0@[j],
            key,
        )
    &&& forall|j: int|
        0 <= j < edge ==> weight_fits(#[trigger] data.adjacency@[entry]->0@[j], key)
}

/// Whether some edge record has a value under `key`.
pub open spec fn some_carries<W>(data: JsonGraphData<W>, key: Seq<char>) -> bool {
    exists|s: int, j: int|
        0 <= s < data.adjacency@.len() && 0 <= j < data.adjacency@[s]->0@.len() && carries(
            #[trigger] data.adjacency@[s]->0@[j],
            key,
        )
}

/// Check the edge weights of a graph: a key that no edge has is an error, and so is a value that is
/// not a finite number.
pub fn audit_edge_weights<W: Copy>(data: &JsonGraphData<W>, key: &String) -> (r: Result<
    (),
    EdgeWeightFault,
>)
    requires
        forall|s: int| 0 <= s < data.adjacency@.len() ==> #[trigger] data.adjacency@[s] is Some,
    ensures
        match r {
            Ok(()) => some_carries(*data, key@) && weights_fit_before(
                *data,
                key@,
                data.adjacency@.len() as int,
                0,
            ),
            Err(EdgeWeightFault::NoMatch) => !some_carries(*data, key@),
            Err(EdgeWeightFault::NotFinite { entry, edge }) => {
                &&& entry < data.adjacency@.len()
                &&& edge < data.adjacency@[entry as int]->0@.len()
                &&& !weight_fits(data.adjacency@[entry as int]->0@[edge as int], key@)
                &&& weights_fit_before(*data, key@, entry as int, edge as int)
            },
        },
{
    let mut matched = false;
    let mut s: usize = 0;
    while s < data.adjacency.len()
        invariant
            s <= data.adjacency@.len(),
            forall|k: int|
                0 <= k < data.adjacency@.len() ==> #[trigger] data.adjacency@[k] is Some,
            weights_fit_before(*data, key@, s as int, 0),
            matched ==> some_carries(*data, key@),
            !matched ==> forall|a: int, b: int|
                0 <= a < s && 0 <= b < data.adjacency@[a]->0@.len() ==> !carries(
                    #[trigger] data.adjacency@[a]->0@[b],
                    key@,
                ),
        decreases data.adjacency.len() - s,
    {
        assert(data.adjacency@[s as int] is Some);
        if let Some(row) = &data.adjacency[s] {
            let mut j: usize = 0;
            while j < row.len()
                invariant
                    s < data.adjacency@.len(),
                    data.adjacency@[s as int] == Some(*row),
                    j <= row@.len(),
                    weights_fit_before(*data, key@, s as int, j as int),
                    matched ==> some_carries(*data, key@),
                    !matched ==> forall|a: int, b: int|
                        0 <= a < s && 0 <= b < data.adjacency@[a]->0@.len() ==> !carries(
                            #[trigger] data.adjacency@[a]->0@[b],
                            key@,
                        ),
                    !matched ==> forall|b: int|
                        0 <= b < j ==> !carries(
                            #[trigger] data.adjacency@[s as int]->0@[b],
                            key@,
                        ),
                decreases row.len() - j,
            {
                assert(row@[j as int] == data.adjacency@[s as int]->0@[j as int]);
                match row[j].get(key) {
                    None => {},
                    Some(field) => match field {
                        JsonField::Null => {},
                        _ => {
                            if parse_numeric_opt(field).is_none() {
                                return Err(EdgeWeightFault::NotFinite { entry: s, edge: j });
                            }
                            matched = true;
                        },
                    },
                }
                j += 1;
            }
        }
        s += 1;
    }
    if matched {
        Ok(())
    } else {
        Err(EdgeWeightFault::NoMatch)
    }
}

/// The message for an edge weight key that matches nothing.
pub open spec fn no_weight_text(key: Seq<char>) -> Seq<char> {
    "edge key "@ + quoted_text(key) + " matches no edges in the graph"@
}

/// The message for an edge weight that is not a finite number.
pub open spec fn bad_weight_text(key: Seq<char>, entry: nat, edge: nat) -> Seq<char> {
    "edge key "@ + quoted_text(key) + " is not a finite number at adjacency entry "@ + decimal(
        entry,
    ) + ", edge "@ + decimal(edge)
}

/// The message for an edge whose records disagree.
pub open spec fn uneven_weight_text(key: Seq<char>, edge: (u32, u32)) -> Seq<char> {
    "edge key "@ + quoted_text(key) + " has different values in the two directions of edge ("@
        + decimal(edge.0 as nat) + ", "@ + decimal(edge.1 as nat) + ")"@
}

/// The error for edge weights that cannot be used.
pub fn weight_fault_error(fault: EdgeWeightFault, key: &str) -> (r: Error)
    ensures
        match fault {
            EdgeWeightFault::NoMatch => r.is_invalid_input(no_weight_text(key@)),
            EdgeWeightFault::NotFinite { entry, edge } => r.is_invalid_data(
                bad_weight_text(key@, entry as nat, edge as nat),
            ),
        },
{
    let mut message = "edge key ".to_owned();
    message.append(quoted(key).as_str());
    match fault {
        EdgeWeightFault::NoMatch => {
            message.append(" matches no edges in the graph");
            invalid_input(message)
        },
        EdgeWeightFault::NotFinite { entry, edge } => {
            message.append(" is not a finite number at adjacency entry ");
            push_decimal(&mut message, entry as u64);
            message.append(", edge ");
            push_decimal(&mut message, edge as u64);
            invalid_data(message)
        },
    }
}

/// The error for an edge whose records disagree.
pub fn uneven_weight_error(key: &str, edge: (u32, u32)) -> (r: Error)
    ensures
        r.is_invalid_data(uneven_weight_text(key@, edge)),
{
    let mut message = "edge key ".to_owned();
    message.append(quoted(key).as_str());
    message.append(" has different values in the two directions of edge (");
    push_decimal(&mut message, edge.0 as u64);
    message.append(", ");
    push_decimal(&mut message, edge.1 as u64);
    message.append(")");
    invalid_data(message)
}

/// A weight as one record of an edge gives it.
#[derive(Debug)]
pub struct WeightMention<W> {
    pub edge: (u32, u32),
    pub weight: W,
}

/// The weights that mentions carry, in order.
pub open spec fn weighted<W>(ms: Seq<Mention<W>>) -> Seq<WeightMention<W>>
    decreases ms.len(),
{
    if ms.len() == 0 {
        Seq::empty()
    } else {
        let earlier = weighted(ms.drop_last());
        match ms.last().weight {
            Some(weight) => earlier.push(
                WeightMention { edge: (ms.last().lo as u32, ms.last().hi as u32), weight },
            ),
            None => earlier,
        }
    }
}

/// All weights that the records of a graph give, in reading order. An edge shows up once for each of
/// its records that has a weight; the last one is the edge's weight in the loaded graph.
pub fn weight_mentions<W: Copy>(
    data: &JsonGraphData<W>,
    request: &Option<EdgeWeightRequest<W>>,
) -> (r: Vec<WeightMention<W>>)
    requires
        data.nodes@.len() <= u32::MAX,
        data.adjacency@.len() == data.nodes@.len(),
        ids_sound(data.nodes@),
        forall|s: int|
            0 <= s < data.adjacency@.len() ==> entry_sound(
                data.nodes@,
                #[trigger] data.adjacency@[s],
            ),
    ensures
        r@ == weighted(mentions(*data, weight_key(*request))),
{
    let ghost key = weight_key(*request);
    let mut found: Vec<WeightMention<W>> = Vec::new();
    let ids: Option<NodeIds> = match build_node_id_index(&data.nodes) {
        Ok(ids) => ids,
        Err(_) => {
            assert(false);
            None
        },
    };
    let mut s: usize = 0;
    while s < data.adjacency.len()
        invariant
            s <= data.adjacency@.len(),
            data.nodes@.len() <= u32::MAX,
            data.adjacency@.len() == data.nodes@.len(),
            ids_sound(data.nodes@),
            is_labelled(data.nodes@) <==> ids is Some,
            ids matches Some(x) ==> x.indexes(data.nodes@),
            key == weight_key(*request),
            forall|k: int|
                0 <= k < data.adjacency@.len() ==> entry_sound(
                    data.nodes@,
                    #[trigger] data.adjacency@[k],
                ),
            found@ == weighted(mentions_among(*data, key, s as int)),
        decreases data.adjacency.len() - s,
    {
        assert(entry_sound(data.nodes@, data.adjacency@[s as int]));
        if let Some(row) = &data.adjacency[s] {
            let ghost earlier = mentions_among(*data, key, s as int);
            let ghost here = row_mentions(data.nodes@, key, s as int, row@);
            let mut j: usize = 0;
            proof {
                assert(earlier + here.take(0) =~= earlier);
            }
            while j < row.len()
                invariant
                    j <= row@.len(),
                    s < data.adjacency@.len(),
                    data.adjacency@[s as int] == Some(*row),
                    data.nodes@.len() <= u32::MAX,
                    data.adjacency@.len() == data.nodes@.len(),
                    ids_sound(data.nodes@),
                    is_labelled(data.nodes@) <==> ids is Some,
                    ids matches Some(x) ==> x.indexes(data.nodes@),
                    key == weight_key(*request),
                    forall|k: int| 0 <= k < row@.len() ==> edge_sound(data.nodes@, #[trigger] row@[k]),
                    here == row_mentions(data.nodes@, key, s as int, row@),
                    found@ == weighted(earlier + here.take(j as int)),
                decreases row.len() - j,
            {
                let ghost so_far = earlier + here.take(j as int);
                proof {
                    assert(edge_sound(data.nodes@, row@[j as int]));
                    assert(earlier + here.take(j + 1) =~= so_far.push(here[j as int]));
                    assert(so_far.push(here[j as int]).drop_last() =~= so_far);
                }
                if let Some(id) = &row[j].id {
                    match resolve_target(&data.nodes, &ids, id, s, j) {
                        Ok(target) => {
                            if let Some(weight) = edge_weight(&row[j], request) {
                                let source: u32 = s as u32;
                                let edge = if source <= target {
                                    (source, target)
                                } else {
                                    (target, source)
                                };
                                proof {
                                    assert(here[j as int] == mention(
                                        data.nodes@,
                                        key,
                                        s as int,
                                        row@[j as int],
                                    ));
                                }
                                found.push(WeightMention { edge, weight });
                            }
                        },
                        Err(_) => {
                            assert(false);
                        },
                    }
                }
                j += 1;
            }
            proof {
                assert(here.take(row@.len() as int) =~= here);
            }
        }
        s += 1;
    }
    found
}

impl<W> Graph<W> {
    /// Where an edge is listed.
    pub fn edge_index(&self, edge: (u32, u32)) -> (r: Option<usize>)
        requires
            forall|i: int, j: int|
                0 <= i < j < self.edges@.len() ==> edge_before(self.edges@[i], self.edges@[j]),
        ensures
            match r {
                Some(i) => i < self.edges@.len() && self.edges@[i as int] == edge,
                None => !self.edges@.contains(edge),
            },
    {
        let mut lo: usize = 0;
        let mut hi: usize = self.edges.len();
        while lo < hi
            invariant
                lo <= hi <= self.edges@.len(),
                forall|i: int, j: int|
                    0 <= i < j < self.edges@.len() ==> edge_before(self.edges@[i], self.edges@[j]),
                forall|i: int| 0 <= i < lo ==> edge_before(#[trigger] self.edges@[i], edge),
                forall|i: int|
                    hi <= i < self.edges@.len() ==> edge_before(edge, #[trigger] self.edges@[i]),
            decreases hi - lo,
        {
            let mid: usize = lo + (hi - lo) / 2;
            let (a, b) = self.edges[mid];
            if a == edge.0 && b == edge.1 {
                return Some(mid);
            }
            proof {
                assert forall|i: int| 0 <= i < mid implies edge_before(
                    #[trigger] self.edges@[i],
                    self.edges@[mid as int],
                ) by {}
                assert forall|i: int| mid < i < self.edges@.len() implies edge_before(
                    self.edges@[mid as int],
                    #[trigger] self.edges@[i],
                ) by {}
            }
            if a < edge.0 || (a == edge.0 && b < edge.1) {
                lo = mid + 1;
            } else {
                hi = mid;
            }
        }
        None
    }
}

// ---------------------------------------------------------------------------------------------
// The two directions of an edge
// ---------------------------------------------------------------------------------------------

/// The weight of an edge in the loaded graph: that of its last mention with a weight.
pub open spec fn loaded_weight<W>(ms: Seq<Mention<W>>, edge: (u32, u32)) -> W {
    last_weight(ms, edge.0 as int, edge.1 as int)->0
}

/// Whether the ends of all mentions are node numbers.
spec fn in_range<W>(ms: Seq<Mention<W>>) -> bool {
    forall|k: int|
        0 <= k < ms.len() ==> 0 <= (#[trigger] ms[k]).lo <= u32::MAX && 0 <= ms[k].hi <= u32::MAX
}

/// A listed weight is that of a mention of its edge, which therefore has a loaded weight.
proof fn lemma_weighted<W>(ms: Seq<Mention<W>>, i: int)
    requires
        in_range(ms),
        0 <= i < weighted(ms).len(),
    ensures
        ({
            let m = weighted(ms)[i];
            &&& last_weight(ms, m.edge.0 as int, m.edge.1 as int) is Some
            &&& exists|k: int|
                0 <= k < ms.len() && (#[trigger] ms[k]).lo == m.edge.0 && ms[k].hi == m.edge.1
        }),
    decreases ms.len(),
{
    let shorter = ms.drop_last();
    let earlier = weighted(shorter);
    let m = weighted(ms)[i];
    assert(in_range(shorter));
    let last = ms[ms.len() - 1];
    assert(0 <= last.lo <= u32::MAX && 0 <= last.hi <= u32::MAX);
    if i < earlier.len() {
        lemma_weighted(shorter, i);
        assert(m == earlier[i]);
        let k = choose|k: int|
            0 <= k < shorter.len() && (#[trigger] shorter[k]).lo == m.edge.0 && shorter[k].hi
                == m.edge.1;
        assert(ms[k] == shorter[k]);
    } else {
        assert(ms[ms.len() - 1].lo == m.edge.0 && ms[ms.len() - 1].hi == m.edge.1);
    }
}

/// A loaded weight is listed.
proof fn lemma_loaded_is_listed<W>(ms: Seq<Mention<W>>, edge: (u32, u32)) -> (j: int)
    requires
        in_range(ms),
        last_weight(ms, edge.0 as int, edge.1 as int) is Some,
    ensures
        0 <= j < weighted(ms).len(),
        weighted(ms)[j].edge == edge,
        weighted(ms)[j].weight == loaded_weight(ms, edge),
    decreases ms.len(),
{
    let shorter = ms.drop_last();
    assert(in_range(shorter));
    let last = ms[ms.len() - 1];
    assert(0 <= last.lo <= u32::MAX && 0 <= last.hi <= u32::MAX);
    if last.lo == edge.0 && last.hi == edge.1 && last.weight is Some {
        weighted(shorter).len() as int
    } else {
        let j = lemma_loaded_is_listed(shorter, edge);
        assert(weighted(ms)[j] == weighted(shorter)[j]);
        j
    }
}

/// Whether the records of a graph were found to be usable.
pub open spec fn records_sound<W>(data: JsonGraphData<W>) -> bool {
    &&& data.nodes@.len() <= u32::MAX
    &&& data.adjacency@.len() == data.nodes@.len()
    &&& ids_sound(data.nodes@)
    &&& forall|s: int|
        0 <= s < data.adjacency@.len() ==> entry_sound(data.nodes@, #[trigger] data.adjacency@[s])
}

proof fn lemma_in_range<W>(data: JsonGraphData<W>, key: Option<Seq<char>>)
    requires
        records_sound(data),
    ensures
        in_range(mentions(data, key)),
{
    lemma_mentions_in_range(data, key, data.adjacency@.len() as int);
    let ms = mentions(data, key);
    assert forall|k: int| 0 <= k < ms.len() implies 0 <= (#[trigger] ms[k]).lo <= u32::MAX && 0
        <= ms[k].hi <= u32::MAX by {
        assert(0 <= ms[k].lo <= ms[k].hi < data.nodes@.len());
    }
}

/// The edge of every listed weight is in the loaded graph, whose weight for it is a listed one too.
pub proof fn law_mentioned_edge_is_loaded<W>(
    data: JsonGraphData<W>,
    request: GraphLoadRequest<W>,
    zero: W,
    graph: Graph<W>,
    i: int,
)
    requires
        records_sound(data),
        request.edge_weight is Some,
        graph.loads(data, request, zero),
        0 <= i < weighted(mentions(data, weight_key(request.edge_weight))).len(),
    ensures
        ({
            let ms = mentions(data, weight_key(request.edge_weight));
            let edge = weighted(ms)[i].edge;
            &&& graph.edges@.contains(edge)
            &&& forall|e: int|
                0 <= e < graph.edges@.len() && #[trigger] graph.edges@[e] == edge
                    ==> graph.edge_weights->0@[e] == loaded_weight(ms, edge)
            &&& exists|j: int|
                0 <= j < weighted(ms).len() && (#[trigger] weighted(ms)[j]).edge == edge
                    && weighted(ms)[j].weight == loaded_weight(ms, edge)
        }),
{
    let ms = mentions(data, weight_key(request.edge_weight));
    lemma_in_range(data, weight_key(request.edge_weight));
    lemma_weighted(ms, i);
    let edge = weighted(ms)[i].edge;
    lemma_edge_is_listed(ms, graph.edges@, i);
    let j = lemma_loaded_is_listed(ms, edge);
    assert(weighted(ms)[j].edge == edge);
    assert forall|e: int| 0 <= e < graph.edges@.len() && #[trigger] graph.edges@[e] == edge implies (
    graph.edge_weights->0@[e]) == loaded_weight(ms, edge) by {
        let weights = graph.edge_weights->0@;
        assert(weights[e] == last_weight(ms, edge.0 as int, edge.1 as int).unwrap_or(
            (request.edge_weight->0).default_value,
        ));
    }
}

proof fn lemma_edge_is_listed<W>(ms: Seq<Mention<W>>, edges: Seq<(u32, u32)>, i: int)
    requires
        in_range(ms),
        lists_edges(edges, ms),
        0 <= i < weighted(ms).len(),
    ensures
        edges.contains(weighted(ms)[i].edge),
{
    let edge = weighted(ms)[i].edge;
    lemma_weighted(ms, i);
    let k = choose|k: int|
        0 <= k < ms.len() && (#[trigger] ms[k]).lo == edge.0 && ms[k].hi == edge.1;
    assert(edges.contains((ms[k].lo as u32, ms[k].hi as u32)));
}

/// All records of every edge give one weight exactly where each of them gives the loaded weight.
pub proof fn law_records_agree_with_the_loaded_weight<W>(
    data: JsonGraphData<W>,
    key: Option<Seq<char>>,
)
    requires
        records_sound(data),
    ensures
        ({
            let ms = mentions(data, key);
            let found = weighted(ms);
            (forall|i: int, j: int|
                0 <= i < found.len() && 0 <= j < found.len() && (#[trigger] found[i]).edge == (
                #[trigger] found[j]).edge ==> found[i].weight == found[j].weight) <==> (forall|
                i: int,
            |
                0 <= i < found.len() ==> (#[trigger] found[i]).weight == loaded_weight(
                    ms,
                    found[i].edge,
                ))
        }),
{
    let ms = mentions(data, key);
    let found = weighted(ms);
    lemma_in_range(data, key);
    if forall|i: int, j: int|
        0 <= i < found.len() && 0 <= j < found.len() && (#[trigger] found[i]).edge == (
        #[trigger] found[j]).edge ==> found[i].weight == found[j].weight {
        assert forall|i: int| 0 <= i < found.len() implies (#[trigger] found[i]).weight
            == loaded_weight(ms, found[i].edge) by {
            lemma_weighted(ms, i);
            let j = lemma_loaded_is_listed(ms, found[i].edge);
            assert(found[i].edge == found[j].edge);
        }
    }
}

/// What is asked of the values under an edge key.
#[derive(Clone, Copy, PartialEq, Eq, Structural, Debug)]
pub enum EdgeValues {
    /// Some edge has one.
    Present,
    /// Some edge has one, all are finite numbers, and the two directions of an edge agree.
    Sound,
}

/// Whether a listed weight was found to agree with the loaded one, or not to.
pub open spec fn compared<W, F: Fn(W, W) -> bool>(
    agree: F,
    ms: Seq<Mention<W>>,
    i: int,
    outcome: bool,
) -> bool {
    let m = weighted(ms)[i];
    call_ensures(agree, (loaded_weight(ms, m.edge), m.weight), outcome)
}

/// Whether edge record `(entry, edge)` is the first whose weight is not a finite number.
pub open spec fn first_unfit<W>(
    data: JsonGraphData<W>,
    key: Seq<char>,
    entry: int,
    edge: int,
) -> bool {
    &&& 0 <= entry < data.adjacency@.len()
    &&& 0 <= edge < data.adjacency@[entry]->0@.len()
    &&& !weight_fits(data.adjacency@[entry]->0@[edge], key)
    &&& weights_fit_before(data, key, entry, edge)
}

/// Whether edge values are as asked for, as far as `agree` finds them to agree.
pub open spec fn values_hold<W, F: Fn(W, W) -> bool>(
    data: JsonGraphData<W>,
    key: Seq<char>,
    values: EdgeValues,
    agree: F,
) -> bool {
    let ms = mentions(data, Some(key));
    &&& some_carries(data, key)
    &&& values == EdgeValues::Sound ==> weights_fit_before(
        data,
        key,
        data.adjacency@.len() as int,
        0,
    ) && forall|i: int| 0 <= i < weighted(ms).len() ==> #[trigger] compared(agree, ms, i, true)
}

/// Whether `e` reports what is wrong with edge values: first that no edge has one, then the first
/// that is not a finite number, then the first edge on which `agree` finds a record to differ.
pub open spec fn reports_values<W, F: Fn(W, W) -> bool>(
    data: JsonGraphData<W>,
    key: Seq<char>,
    values: EdgeValues,
    agree: F,
    e: Error,
) -> bool {
    let ms = mentions(data, Some(key));
    if !some_carries(data, key) {
        e.is_invalid_input(no_weight_text(key))
    } else {
        &&& values == EdgeValues::Sound
        &&& if weights_fit_before(data, key, data.adjacency@.len() as int, 0) {
            exists|i: int|
                0 <= i < weighted(ms).len() && #[trigger] compared(agree, ms, i, false) && (
                forall|j: int| 0 <= j < i ==> #[trigger] compared(agree, ms, j, true))
                    && e.is_invalid_data(uneven_weight_text(key, weighted(ms)[i].edge))
        } else {
            exists|entry: int, edge: int| #[trigger]
                first_unfit(data, key, entry, edge) && e.is_invalid_data(
                    bad_weight_text(key, entry as nat, edge as nat),
                )
        }
    }
}

/// Check the edge values of a loaded graph. `agree` compares the weight that was loaded for an edge
/// with the weight that one of its records gives.
pub fn check_edge_values<W: Copy, F: Fn(W, W) -> bool>(
    data: &JsonGraphData<W>,
    request: &Option<EdgeWeightRequest<W>>,
    graph: &Graph<W>,
    values: EdgeValues,
    agree: F,
) -> (r: Result<(), Error>)
    requires
        records_sound(*data),
        lists_edges(graph.edges@, mentions(*data, weight_key(*request))),
        request matches Some(wanted) ==> (graph.edge_weights matches Some(weights) && weighs(
            weights@,
            graph.edges@,
            mentions(*data, weight_key(*request)),
            wanted.default_value,
        )),
        forall|a: W, b: W| #[trigger] call_requires(agree, (a, b)),
    ensures
        match request {
            None => r is Ok,
            Some(wanted) => match r {
                Ok(()) => values_hold(*data, wanted.key@, values, agree),
                Err(e) => reports_values(*data, wanted.key@, values, agree, e),
            },
        },
{
    let wanted = match request {
        Some(wanted) => wanted,
        None => {
            return Ok(());
        },
    };
    let ghost ms = mentions(*data, Some(wanted.key@));
    let ghost all = data.adjacency@.len() as int;
    proof {
        lemma_in_range(*data, Some(wanted.key@));
        assert forall|s: int| 0 <= s < data.adjacency@.len() implies #[trigger] data.adjacency@[s]
            is Some by {
            assert(entry_sound(data.nodes@, data.adjacency@[s]));
        }
    }
    match audit_edge_weights(data, &wanted.key) {
        Ok(()) => {},
        Err(fault) => {
            let ignored = match fault {
                EdgeWeightFault::NoMatch => false,
                EdgeWeightFault::NotFinite { entry, edge } => {
                    proof {
                        assert(first_unfit(*data, wanted.key@, entry as int, edge as int));
                        assert(carries(
                            data.adjacency@[entry as int]->0@[edge as int],
                            wanted.key@,
                        ));
                        assert(!weights_fit_before(*data, wanted.key@, all, 0));
                    }
                    values == EdgeValues::Present
                },
            };
            if ignored {
                return Ok(());
            }
            return Err(weight_fault_error(fault, wanted.key.as_str()));
        },
    }
    if values == EdgeValues::Present {
        return Ok(());
    }
    let found = weight_mentions(data, request);
    let mut i: usize = 0;
    while i < found.len()
        invariant
            i <= found@.len(),
            found@ == weighted(ms),
            in_range(ms),
            lists_edges(graph.edges@, ms),
            graph.edge_weights matches Some(weights) && weighs(
                weights@,
                graph.edges@,
                ms,
                wanted.default_value,
            ),
            ms == mentions(*data, Some(wanted.key@)),
            all == data.adjacency@.len(),
            some_carries(*data, wanted.key@),
            weights_fit_before(*data, wanted.key@, all, 0),
            values == EdgeValues::Sound,
            forall|a: W, b: W| #[trigger] call_requires(agree, (a, b)),
            forall|j: int| 0 <= j < i ==> #[trigger] compared(agree, ms, j, true),
            *request == Some(*wanted),
        decreases found.len() - i,
    {
        let edge = found[i].edge;
        let given: W = found[i].weight;
        proof {
            lemma_weighted(ms, i as int);
            lemma_edge_is_listed(ms, graph.edges@, i as int);
        }
        if let (Some(at), Some(weights)) = (graph.edge_index(edge), &graph.edge_weights) {
            assert(weights@[at as int] == loaded_weight(ms, edge));
            let same = agree(weights[at], given);
            assert(compared(agree, ms, i as int, same));
            if !same {
                return Err(uneven_weight_error(wanted.key.as_str(), edge));
            }
        }
        i += 1;
    }
    Ok(())
}

/// Whether some node has a usable value under `key`.
pub fn matches_any_node<W: Copy>(nodes: &Vec<Record<W>>, key: &String) -> (r: bool)
    ensures
        r <==> exists|i: int|
            0 <= i < nodes@.len() && ((#[trigger] nodes@[i]).field(key@) matches Some(field)
                && lenient_value(field) is Some),
{
    let mut i: usize = 0;
    while i < nodes.len()
        invariant
            i <= nodes@.len(),
            forall|k: int|
                0 <= k < i ==> !((#[trigger] nodes@[k]).field(key@) matches Some(field)
                    && lenient_value(field) is Some),
        decreases nodes.len() - i,
    {
        if let Some(field) = nodes[i].get(key) {
            if parse_numeric_opt(field).is_some() {
                assert(nodes@[i as int].field(key@) matches Some(f) && lenient_value(f) is Some);
                return true;
            }
        }
        i += 1;
    }
    false
}

/// The listed weights are those of the mentions that carry one, in reading order.
pub proof fn law_weighted<W>(ms: Seq<Mention<W>>)
    ensures
        weighted(ms) == ms.filter(|m: Mention<W>| m.weight is Some).map_values(
            |m: Mention<W>| WeightMention { edge: (m.lo as u32, m.hi as u32), weight: m.weight->0 },
        ),
    decreases ms.len(),
{
    reveal(Seq::filter);
    let carries_one = |m: Mention<W>| m.weight is Some;
    let made = |m: Mention<W>|
        WeightMention { edge: (m.lo as u32, m.hi as u32), weight: m.weight->0 };
    if ms.len() > 0 {
        law_weighted(ms.drop_last());
    }
    assert(weighted(ms) =~= ms.filter(carries_one).map_values(made));
}

/// An edge record has a value exactly when the field is there and not null, and the value fits
/// exactly when it is the finite reading of a number or of a string.
pub proof fn law_carried_values<W>(edge: Record<W>, key: Seq<char>)
    ensures
        carries(edge, key) <==> (edge.field(key) matches Some(f) && !(f is Null)),
        weight_fits(edge, key) <==> match edge.field(key) {
            None => true,
            Some(JsonField::Null) => true,
            Some(JsonField::Number { reading, .. }) => reading is Finite,
            Some(JsonField::Text { reading, .. }) => reading is Finite,
            _ => false,
        },
{
}

/// Some record has a value exactly when one carries it, and all values fit exactly when each does.
pub proof fn law_values_of_a_graph<W>(data: JsonGraphData<W>, key: Seq<char>)
    ensures
        some_carries(data, key) <==> exists|s: int, j: int|
            0 <= s < data.adjacency@.len() && 0 <= j < data.adjacency@[s]->0@.len() && ((
            #[trigger] data.adjacency@[s]->0@[j]).field(key) matches Some(f) && !(f is Null)),
        weights_fit_before(data, key, data.adjacency@.len() as int, 0) <==> forall|s: int, j: int|
            0 <= s < data.adjacency@.len() && 0 <= j < data.adjacency@[s]->0@.len() ==> weight_fits(
                #[trigger] data.adjacency@[s]->0@[j],
                key,
            ),
{
    if some_carries(data, key) {
        let (s, j) = choose|s: int, j: int|
            0 <= s < data.adjacency@.len() && 0 <= j < data.adjacency@[s]->0@.len() && carries(
                #[trigger] data.adjacency@[s]->0@[j],
                key,
            );
        assert(data.adjacency@[s]->0@[j].field(key) matches Some(f) && !(f is Null));
    }
    if exists|s: int, j: int|
        0 <= s < data.adjacency@.len() && 0 <= j < data.adjacency@[s]->0@.len() && ((
        #[trigger] data.adjacency@[s]->0@[j]).field(key) matches Some(f) && !(f is Null)) {
        let (s, j) = choose|s: int, j: int|
            0 <= s < data.adjacency@.len() && 0 <= j < data.adjacency@[s]->0@.len() && ((
            #[trigger] data.adjacency@[s]->0@[j]).field(key) matches Some(f) && !(f is Null));
        assert(carries(data.adjacency@[s]->0@[j], key));
    }
}

} // verus!

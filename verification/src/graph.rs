//! The dual graph that graph-driven metrics read.
//!
//! A graph arrives as parsed JSON records. [`load_graph`] turns it into flat columns indexed by
//! node position and a sorted list of edges, so that no metric looks at JSON again. Numeric values
//! have an abstract type `W`: the library moves them without computing on them.
use crate::text::{is_nan_text, optional_string, reads_nan, same_text, trim, trimmed};
use std::collections::HashMap;
use vstd::hash_map::StringHashMap;
use vstd::prelude::*;

verus! {

/// What a JSON number, or a numeric string, stands for.
#[derive(Debug)]
pub enum Reading<W> {
    /// A finite number.
    Finite(W),
    /// A number beyond the range of finite values.
    Infinite,
    /// Not a number in the sense of floating-point arithmetic.
    NotANumber,
    /// No number at all.
    Unreadable,
}

/// The value of one JSON field, as far as graph loading looks at it.
#[derive(Debug)]
pub enum JsonField<W> {
    Null,
    Bool(bool),
    /// A number, with its JSON text.
    Number { text: String, reading: Reading<W> },
    /// A string, with the number that it spells.
    Text { value: String, reading: Reading<W> },
    /// An array or an object.
    Other,
}

/// A node label: its JSON text, and its value where it is an unsigned integer.
#[derive(Debug)]
pub struct NodeId {
    pub text: String,
    pub unsigned: Option<u64>,
}

/// A JSON object: its `id` field and its other fields by name.
#[derive(Debug)]
pub struct Record<W> {
    pub id: Option<NodeId>,
    pub fields: Vec<(String, JsonField<W>)>,
}

/// A graph in adjacency format. An adjacency entry that is not an array is `None`.
#[derive(Debug)]
pub struct JsonGraphData<W> {
    pub directed: bool,
    pub multigraph: bool,
    pub nodes: Vec<Record<W>>,
    pub adjacency: Vec<Option<Vec<Record<W>>>>,
}

/// Which field of an edge record is its weight, and the weight of an edge without one.
#[derive(Debug)]
pub struct EdgeWeightRequest<W> {
    pub key: String,
    pub default_value: W,
}

/// What a caller needs from a graph.
#[derive(Debug)]
pub struct GraphLoadRequest<W> {
    /// Node fields that must be finite numbers on every node.
    pub numeric_keys: Vec<String>,
    /// Node fields that count as zero where they are missing or not a finite number.
    pub partial_numeric_keys: Vec<String>,
    /// Node fields that name a region.
    pub region_keys: Vec<String>,
    pub edge_weight: Option<EdgeWeightRequest<W>>,
    /// Whether incident-edge lists are wanted.
    pub need_adjacency: bool,
}

/// Why a node field is not usable as a number.
#[derive(Clone, Copy, PartialEq, Eq, Structural, Debug)]
pub enum NumericProblem {
    Missing,
    NotReal,
    Invalid,
    NonFinite,
}

/// What is wrong with a graph. Positions refer to the parsed records and to the request.
#[derive(Clone, Copy, PartialEq, Eq, Structural, Debug)]
pub enum GraphFault {
    Directed,
    /// Some nodes carry an id and some do not.
    PartialIds { labelled: usize, total: usize },
    /// The node's id is that of an earlier node.
    DuplicateId { node: usize },
    Numeric { key: usize, node: usize, problem: NumericProblem },
    AdjacencyCount { nodes: usize, lists: usize },
    NotAnArray { entry: usize },
    EdgeWithoutId { entry: usize, edge: usize },
    /// The edge's id is that of no node.
    UnknownId { entry: usize, edge: usize },
    IdNotNumeric { entry: usize, edge: usize },
    IdOutOfRange { entry: usize, edge: usize, target: u64 },
}

/// Incident edges by node: `neighbors[offsets[x]..offsets[x + 1]]` lists, in edge order, the other
/// end and the index of every edge at node `x`.
#[derive(Debug)]
pub struct CsrAdjacency {
    pub offsets: Vec<usize>,
    pub neighbors: Vec<(u32, usize)>,
}

/// A graph ready for the metrics.
#[derive(Debug)]
pub struct Graph<W> {
    pub node_count: usize,
    /// `attr_columns[c][i]` is the value of column `c` at node `i`.
    pub attr_columns: Vec<Vec<W>>,
    /// The key of each numeric column.
    pub attr_keys: Vec<String>,
    /// `region_columns[c][i]` is the dense region number of node `i`, if it has one.
    pub region_columns: Vec<Vec<Option<u32>>>,
    /// The key of each region column.
    pub region_keys: Vec<String>,
    /// How many regions each region column has.
    pub region_id_counts: Vec<u32>,
    /// Each edge once, smaller end first, in ascending order.
    pub edges: Vec<(u32, u32)>,
    /// The weight of each edge, where weights were asked for.
    pub edge_weights: Option<Vec<W>>,
    /// Incident edges by node, where they were asked for.
    pub adjacency: Option<CsrAdjacency>,
}

// ---------------------------------------------------------------------------------------------
// Fields
// ---------------------------------------------------------------------------------------------

/// The first field named `key`.
pub open spec fn field_named<W>(
    fields: Seq<(String, JsonField<W>)>,
    key: Seq<char>,
) -> Option<JsonField<W>>
    decreases fields.len(),
{
    if fields.len() == 0 {
        None
    } else if fields[0].0@ == key {
        Some(fields[0].1)
    } else {
        field_named(fields.drop_first(), key)
    }
}

impl<W> Record<W> {
    /// The value of field `key`.
    pub open spec fn field(&self, key: Seq<char>) -> Option<JsonField<W>> {
        field_named(self.fields@, key)
    }

    /// The value of field `key`.
    pub fn get(&self, key: &String) -> (r: Option<&JsonField<W>>)
        ensures
            r matches Some(f) ==> self.field(key@) == Some(*f),
            r is None ==> self.field(key@) is None,
    {
        let mut i: usize = 0;
        proof {
            assert(self.fields@.skip(0) =~= self.fields@);
        }
        while i < self.fields.len()
            invariant
                i <= self.fields@.len(),
                self.field(key@) == field_named(self.fields@.skip(i as int), key@),
            decreases self.fields.len() - i,
        {
            proof {
                assert(self.fields@.skip(i as int)[0] == self.fields@[i as int]);
                assert(self.fields@.skip(i as int).drop_first() =~= self.fields@.skip(i + 1));
            }
            if self.fields[i].0 == *key {
                return Some(&self.fields[i].1);
            }
            i += 1;
        }
        None
    }
}

/// What a required numeric field holds.
pub open spec fn numeric_value<W>(field: Option<JsonField<W>>) -> Result<W, NumericProblem> {
    match field {
        None => Err(NumericProblem::Missing),
        Some(JsonField::Number { reading, .. }) => match reading {
            Reading::Finite(w) => Ok(w),
            Reading::Unreadable => Err(NumericProblem::NotReal),
            _ => Err(NumericProblem::NonFinite),
        },
        Some(JsonField::Text { reading, .. }) => match reading {
            Reading::Finite(w) => Ok(w),
            Reading::Unreadable => Err(NumericProblem::Invalid),
            _ => Err(NumericProblem::NonFinite),
        },
        Some(_) => Err(NumericProblem::Invalid),
    }
}

/// Read a required numeric field.
pub fn parse_numeric<W: Copy>(node: &Record<W>, key: &String) -> (r: Result<W, NumericProblem>)
    ensures
        r == numeric_value(node.field(key@)),
{
    match node.get(key) {
        None => Err(NumericProblem::Missing),
        Some(field) => match field {
            JsonField::Number { text: _, reading } => match reading {
                Reading::Finite(w) => Ok(*w),
                Reading::Unreadable => Err(NumericProblem::NotReal),
                _ => Err(NumericProblem::NonFinite),
            },
            JsonField::Text { value: _, reading } => match reading {
                Reading::Finite(w) => Ok(*w),
                Reading::Unreadable => Err(NumericProblem::Invalid),
                _ => Err(NumericProblem::NonFinite),
            },
            _ => Err(NumericProblem::Invalid),
        },
    }
}

/// The finite number that a field holds, if it holds one.
pub open spec fn lenient_value<W>(field: JsonField<W>) -> Option<W> {
    match numeric_value(Some(field)) {
        Ok(w) => Some(w),
        Err(_) => None,
    }
}

/// The finite number that a field holds, if it holds one.
pub fn parse_numeric_opt<W: Copy>(field: &JsonField<W>) -> (r: Option<W>)
    ensures
        r == lenient_value(*field),
{
    match field {
        JsonField::Number { text: _, reading } => match reading {
            Reading::Finite(w) => Some(*w),
            _ => None,
        },
        JsonField::Text { value: _, reading } => match reading {
            Reading::Finite(w) => Some(*w),
            _ => None,
        },
        _ => None,
    }
}

/// The finite number that a field holds, or else `zero`.
pub fn parse_numeric_or_zero<W: Copy>(field: &JsonField<W>, zero: W) -> (r: W)
    ensures
        r == lenient_value(*field).unwrap_or(zero),
{
    match parse_numeric_opt(field) {
        Some(w) => w,
        None => zero,
    }
}

/// The value of an optional numeric field: `zero` where there is no finite number.
pub open spec fn partial_value<W>(field: Option<JsonField<W>>, zero: W) -> W {
    match field {
        None => zero,
        Some(f) => lenient_value(f).unwrap_or(zero),
    }
}

/// The region that a field names: none for null, blank, and not-a-number values.
pub open spec fn region_name<W>(field: Option<JsonField<W>>) -> Option<Seq<char>> {
    match field {
        Some(JsonField::Number { text, reading }) => match reading {
            Reading::NotANumber | Reading::Unreadable => None,
            _ => Some(text@),
        },
        Some(JsonField::Text { value, .. }) => {
            let name = trimmed(value@);
            if name.len() == 0 || reads_nan(name) {
                None
            } else {
                Some(name)
            }
        },
        Some(JsonField::Bool(b)) => Some(if b { "true"@ } else { "false"@ }),
        _ => None,
    }
}

/// The region that a node belongs to under `key`, if it names one.
pub fn parse_region_id<W>(node: &Record<W>, key: &String) -> (r: Option<String>)
    ensures
        optional_string(r) == region_name(node.field(key@)),
{
    match node.get(key) {
        None => None,
        Some(field) => match field {
            JsonField::Number { text, reading } => match reading {
                Reading::NotANumber | Reading::Unreadable => None,
                _ => Some(text.clone()),
            },
            JsonField::Text { value, reading: _ } => {
                let name = trim(value);
                if name.as_str().is_empty() || is_nan_text(&name) {
                    None
                } else {
                    Some(name)
                }
            },
            JsonField::Bool(b) => Some(if *b { "true".to_owned() } else { "false".to_owned() }),
            _ => None,
        },
    }
}

// ---------------------------------------------------------------------------------------------
// Node ids
// ---------------------------------------------------------------------------------------------

/// How many of the first `n` nodes carry an id.
pub open spec fn labelled_among<W>(nodes: Seq<Record<W>>, n: int) -> nat
    decreases n,
{
    if n <= 0 {
        0
    } else {
        labelled_among(nodes, n - 1) + if nodes[n - 1].id is Some {
            1nat
        } else {
            0nat
        }
    }
}

/// The JSON text of a node's id.
pub open spec fn id_text<W>(node: Record<W>) -> Seq<char> {
    node.id->0.text@
}

/// Whether node `p` repeats the id of an earlier node.
pub open spec fn repeats_id<W>(nodes: Seq<Record<W>>, p: int) -> bool {
    exists|q: int| 0 <= q < p && id_text(#[trigger] nodes[q]) == id_text(nodes[p])
}

/// Ids are on no node, or on every node and all different.
pub open spec fn ids_sound<W>(nodes: Seq<Record<W>>) -> bool {
    let labelled = labelled_among(nodes, nodes.len() as int);
    labelled == 0 || (labelled == nodes.len() && forall|p: int|
        0 <= p < nodes.len() ==> !#[trigger] repeats_id(nodes, p))
}

/// Whether the nodes carry ids, given that their ids are sound.
pub open spec fn is_labelled<W>(nodes: Seq<Record<W>>) -> bool {
    nodes.len() > 0 && nodes[0].id is Some
}

/// Whether `fault` is what is reported of the nodes' ids.
pub open spec fn ids_report<W>(nodes: Seq<Record<W>>, fault: GraphFault) -> bool {
    let labelled = labelled_among(nodes, nodes.len() as int);
    match fault {
        GraphFault::PartialIds { labelled: some, total } => some == labelled && total
            == nodes.len() && 0 < labelled < nodes.len(),
        GraphFault::DuplicateId { node } => {
            &&& labelled == nodes.len()
            &&& node < nodes.len()
            &&& repeats_id(nodes, node as int)
            &&& forall|p: int| 0 <= p < node ==> !#[trigger] repeats_id(nodes, p)
        },
        _ => false,
    }
}

proof fn lemma_labelled_bounds<W>(nodes: Seq<Record<W>>, n: int)
    requires
        0 <= n <= nodes.len(),
    ensures
        labelled_among(nodes, n) <= n,
        labelled_among(nodes, n) == n <==> forall|p: int|
            0 <= p < n ==> (#[trigger] nodes[p]).id is Some,
        labelled_among(nodes, n) == 0 <==> forall|p: int|
            0 <= p < n ==> (#[trigger] nodes[p]).id is None,
    decreases n,
{
    if n > 0 {
        lemma_labelled_bounds(nodes, n - 1);
        assert(nodes[n - 1].id is Some || nodes[n - 1].id is None);
    }
}

/// The position of each node by the text of its id, and the first position whose id is not the
/// position itself.
pub struct NodeIds {
    pub positions: StringHashMap<u32>,
    pub first_mismatch: Option<usize>,
}

/// Whether the id of node `p` is the number `p`.
pub open spec fn id_is_position<W>(nodes: Seq<Record<W>>, p: int) -> bool {
    nodes[p].id->0.unsigned == Some(p as u64)
}

impl NodeIds {
    /// Whether these are the ids of `nodes`.
    pub open spec fn indexes<W>(&self, nodes: Seq<Record<W>>) -> bool {
        &&& forall|p: int|
            0 <= p < nodes.len() ==> #[trigger] self.positions@.contains_key(id_text(nodes[p]))
                && self.positions@[id_text(nodes[p])] == p
        &&& forall|t: Seq<char>| #[trigger]
            self.positions@.contains_key(t) ==> 0 <= self.positions@[t] < nodes.len() && id_text(
                nodes[self.positions@[t] as int],
            ) == t
        &&& match self.first_mismatch {
            Some(p) => p < nodes.len() && !id_is_position(nodes, p as int) && forall|q: int|
                0 <= q < p ==> #[trigger] id_is_position(nodes, q),
            None => forall|q: int| 0 <= q < nodes.len() ==> #[trigger] id_is_position(nodes, q),
        }
    }
}

/// Index the node ids, or tell why they cannot be indexed. `None` when no node carries an id.
pub fn build_node_id_index<W>(nodes: &Vec<Record<W>>) -> (r: Result<Option<NodeIds>, GraphFault>)
    requires
        nodes@.len() <= u32::MAX,
    ensures
        r is Ok <==> ids_sound(nodes@),
        r matches Err(fault) ==> ids_report(nodes@, fault),
        r matches Ok(Some(ids)) ==> is_labelled(nodes@) && ids.indexes(nodes@),
        r matches Ok(None) ==> !is_labelled(nodes@),
{
    let mut labelled: usize = 0;
    let mut i: usize = 0;
    while i < nodes.len()
        invariant
            i <= nodes@.len(),
            labelled == labelled_among(nodes@, i as int),
            labelled <= i,
        decreases nodes.len() - i,
    {
        if nodes[i].id.is_some() {
            labelled += 1;
        }
        i += 1;
    }
    proof {
        lemma_labelled_bounds(nodes@, nodes@.len() as int);
    }
    if labelled == 0 {
        return Ok(None);
    }
    if labelled != nodes.len() {
        return Err(GraphFault::PartialIds { labelled, total: nodes.len() });
    }
    let mut positions: StringHashMap<u32> = StringHashMap::new();
    let mut first_mismatch: Option<usize> = None;
    let mut p: usize = 0;
    while p < nodes.len()
        invariant
            p <= nodes@.len() <= u32::MAX,
            labelled_among(nodes@, nodes@.len() as int) == nodes@.len(),
            forall|q: int| 0 <= q < nodes@.len() ==> (#[trigger] nodes@[q]).id is Some,
            forall|q: int| 0 <= q < p ==> !#[trigger] repeats_id(nodes@, q),
            forall|q: int|
                0 <= q < p ==> #[trigger] positions@.contains_key(id_text(nodes@[q]))
                    && positions@[id_text(nodes@[q])] == q,
            forall|t: Seq<char>| #[trigger]
                positions@.contains_key(t) ==> 0 <= positions@[t] < p && id_text(
                    nodes@[positions@[t] as int],
                ) == t,
            match first_mismatch {
                Some(m) => m < p && !id_is_position(nodes@, m as int) && forall|q: int|
                    0 <= q < m ==> #[trigger] id_is_position(nodes@, q),
                None => forall|q: int| 0 <= q < p ==> #[trigger] id_is_position(nodes@, q),
            },
        decreases nodes.len() - p,
    {
        assert(nodes@[p as int].id is Some);
        match &nodes[p].id {
            Some(id) => {
                if positions.contains_key(id.text.as_str()) {
                    proof {
                        let q = positions@[id.text@] as int;
                        assert(id_text(nodes@[q]) == id_text(nodes@[p as int]));
                        assert(repeats_id(nodes@, p as int));
                    }
                    return Err(GraphFault::DuplicateId { node: p });
                }
                proof {
                    assert forall|q: int| 0 <= q < p implies id_text(#[trigger] nodes@[q])
                        != id_text(nodes@[p as int]) by {
                        assert(positions@.contains_key(id_text(nodes@[q])));
                    }
                }
                positions.insert(id.text.clone(), p as u32);
                if first_mismatch.is_none() {
                    let matches_position = match id.unsigned {
                        Some(value) => value == p as u64,
                        None => false,
                    };
                    if !matches_position {
                        first_mismatch = Some(p);
                    }
                }
            },
            None => {},
        }
        p += 1;
    }
    Ok(Some(NodeIds { positions, first_mismatch }))
}

// ---------------------------------------------------------------------------------------------
// Regions
// ---------------------------------------------------------------------------------------------

/// Whether position `i` is the first with its name.
pub open spec fn first_of_name(names: Seq<Option<Seq<char>>>, i: int) -> bool {
    names[i] is Some && forall|j: int| 0 <= j < i ==> #[trigger] names[j] != names[i]
}

/// How many different names the first `n` positions hold.
pub open spec fn names_among(names: Seq<Option<Seq<char>>>, n: int) -> nat
    decreases n,
{
    if n <= 0 {
        0
    } else {
        names_among(names, n - 1) + if first_of_name(names, n - 1) {
            1nat
        } else {
            0nat
        }
    }
}

/// Whether `column` numbers the names densely in order of first appearance: equal names get equal
/// numbers, a new name gets the next number, and a position without a name gets none.
pub open spec fn interns(names: Seq<Option<Seq<char>>>, column: Seq<Option<u32>>) -> bool {
    &&& column.len() == names.len()
    &&& forall|i: int| 0 <= i < names.len() ==> (#[trigger] column[i] is Some <==> names[i] is Some)
    &&& forall|i: int, j: int|
        0 <= i < names.len() && 0 <= j < names.len() && names[i] is Some && names[j] is Some ==> (
        #[trigger] column[i] == #[trigger] column[j] <==> names[i] == names[j])
    &&& forall|i: int|
        0 <= i < names.len() && first_of_name(names, i) ==> #[trigger] column[i] == Some(
            names_among(names, i) as u32,
        )
    &&& forall|i: int|
        0 <= i < names.len() && names[i] is Some ==> (#[trigger] column[i])->0 < names_among(
            names,
            names.len() as int,
        )
}

/// The region name of every node under `key`.
pub open spec fn region_names<W>(nodes: Seq<Record<W>>, key: Seq<char>) -> Seq<Option<Seq<char>>> {
    Seq::new(nodes.len(), |i: int| region_name(nodes[i].field(key)))
}

proof fn lemma_names_among(names: Seq<Option<Seq<char>>>, n: int)
    requires
        0 <= n,
    ensures
        names_among(names, n) <= n,
    decreases n,
{
    if n > 0 {
        lemma_names_among(names, n - 1);
    }
}

/// Number the regions of one key.
pub fn region_column<W>(nodes: &Vec<Record<W>>, key: &String) -> (r: (Vec<Option<u32>>, u32))
    requires
        nodes@.len() <= u32::MAX,
    ensures
        interns(region_names(nodes@, key@), r.0@),
        r.1 == names_among(region_names(nodes@, key@), nodes@.len() as int),
{
    let ghost names = region_names(nodes@, key@);
    let mut interner: StringHashMap<u32> = StringHashMap::new();
    let mut next: u32 = 0;
    let mut column: Vec<Option<u32>> = Vec::new();
    let mut i: usize = 0;
    while i < nodes.len()
        invariant
            i <= nodes@.len() <= u32::MAX,
            names == region_names(nodes@, key@),
            names.len() == nodes@.len(),
            column@.len() == i,
            next == names_among(names, i as int),
            next <= i,
            forall|t: Seq<char>| #[trigger]
                interner@.contains_key(t) ==> interner@[t] < next && exists|j: int|
                    0 <= j < i && #[trigger] names[j] == Some(t),
            forall|j: int|
                0 <= j < i && names[j] is Some ==> interner@.contains_key(
                    (#[trigger] names[j])->0,
                ),
            forall|s: Seq<char>, t: Seq<char>|
                #[trigger] interner@.contains_key(s) && #[trigger] interner@.contains_key(t)
                    && interner@[s] == interner@[t] ==> s == t,
            forall|j: int|
                0 <= j < i ==> #[trigger] column@[j] == (if names[j] is Some {
                    Some(interner@[names[j]->0])
                } else {
                    None::<u32>
                }),
            forall|j: int|
                0 <= j < i && first_of_name(names, j) ==> #[trigger] column@[j] == Some(
                    names_among(names, j) as u32,
                ),
        decreases nodes.len() - i,
    {
        let name = parse_region_id(&nodes[i], key);
        assert(optional_string(name) == names[i as int]);
        let ghost before = interner@;
        match name {
            None => {
                column.push(None);
            },
            Some(text) => {
                let found: Option<u32> = match interner.get(text.as_str()) {
                    Some(id) => Some(*id),
                    None => None,
                };
                match found {
                    Some(id) => {
                        proof {
                            let j = choose|j: int| 0 <= j < i && #[trigger] names[j] == Some(
                                text@,
                            );
                            assert(names[j] == names[i as int]);
                            assert(!first_of_name(names, i as int));
                        }
                        column.push(Some(id));
                    },
                    None => {
                        let id: u32 = next;
                        proof {
                            assert forall|j: int| 0 <= j < i implies #[trigger] names[j]
                                != names[i as int] by {
                                if names[j] == names[i as int] {
                                    assert(interner@.contains_key(names[j]->0));
                                }
                            }
                            assert(first_of_name(names, i as int));
                        }
                        let ghost label = text@;
                        interner.insert(text, id);
                        next += 1;
                        column.push(Some(id));
                        proof {
                            assert forall|t: Seq<char>| #[trigger]
                                interner@.contains_key(t) implies interner@[t] < next && exists|
                                j: int,
                            |
                                0 <= j < i + 1 && #[trigger] names[j] == Some(t) by {
                                if t == label {
                                    assert(names[i as int] == Some(t));
                                } else {
                                    assert(before.contains_key(t));
                                    let j = choose|j: int|
                                        0 <= j < i && #[trigger] names[j] == Some(t);
                                    assert(names[j] == Some(t));
                                }
                            }
                        }
                    },
                }
            },
        }
        i += 1;
    }
    (column, next)
}

// ---------------------------------------------------------------------------------------------
// Edges
// ---------------------------------------------------------------------------------------------

/// Whether an edge's id refers to the node at position `t`.
///
/// Where the nodes carry ids, the id is that node's; otherwise it is the position itself.
pub open spec fn resolves_to<W>(nodes: Seq<Record<W>>, id: NodeId, t: int) -> bool {
    0 <= t < nodes.len() && if is_labelled(nodes) {
        id_text(nodes[t]) == id.text@
    } else {
        id.unsigned == Some(t as u64)
    }
}

/// The position that an edge's id refers to.
pub open spec fn edge_end<W>(nodes: Seq<Record<W>>, id: NodeId) -> int {
    choose|t: int| resolves_to(nodes, id, t)
}

/// Whether an edge record has an id that refers to a node.
pub open spec fn edge_sound<W>(nodes: Seq<Record<W>>, edge: Record<W>) -> bool {
    edge.id is Some && exists|t: int| resolves_to(nodes, edge.id->0, t)
}

/// Whether an adjacency entry is a list of sound edges.
pub open spec fn entry_sound<W>(nodes: Seq<Record<W>>, entry: Option<Vec<Record<W>>>) -> bool {
    entry matches Some(row) && forall|j: int|
        0 <= j < row@.len() ==> edge_sound(nodes, #[trigger] row@[j])
}

/// Whether `fault` is what is reported of the adjacency entries.
pub open spec fn adjacency_report<W>(data: JsonGraphData<W>, fault: GraphFault) -> bool {
    let nodes = data.nodes@;
    let adjacency = data.adjacency@;
    match fault {
        GraphFault::NotAnArray { entry } => {
            &&& entry < adjacency.len()
            &&& adjacency[entry as int] is None
            &&& forall|s: int| 0 <= s < entry ==> entry_sound(nodes, #[trigger] adjacency[s])
        },
        GraphFault::EdgeWithoutId { entry, edge } => faulty_edge(data, entry as int, edge as int)
            && adjacency[entry as int]->0@[edge as int].id is None,
        GraphFault::UnknownId { entry, edge } => faulty_edge(data, entry as int, edge as int)
            && adjacency[entry as int]->0@[edge as int].id is Some && is_labelled(nodes),
        GraphFault::IdNotNumeric { entry, edge } => faulty_edge(data, entry as int, edge as int)
            && !is_labelled(nodes) && (adjacency[entry as int]->0@[edge as int].id matches Some(id)
            && id.unsigned is None),
        GraphFault::IdOutOfRange { entry, edge, target } => faulty_edge(
            data,
            entry as int,
            edge as int,
        ) && !is_labelled(nodes) && (adjacency[entry as int]->0@[edge as int].id matches Some(id)
            && id.unsigned == Some(target)),
        _ => false,
    }
}

/// Whether the edge at `(entry, edge)` is the first that is not sound.
pub open spec fn faulty_edge<W>(data: JsonGraphData<W>, entry: int, edge: int) -> bool {
    let nodes = data.nodes@;
    let adjacency = data.adjacency@;
    &&& 0 <= entry < adjacency.len()
    &&& adjacency[entry] is Some
    &&& 0 <= edge < adjacency[entry]->0@.len()
    &&& !edge_sound(nodes, adjacency[entry]->0@[edge])
    &&& forall|j: int| 0 <= j < edge ==> edge_sound(nodes, #[trigger] adjacency[entry]->0@[j])
    &&& forall|s: int| 0 <= s < entry ==> entry_sound(nodes, #[trigger] adjacency[s])
}

/// One mention of an edge: its ends, smaller first, and the weight that the mention carries.
pub ghost struct Mention<W> {
    pub lo: int,
    pub hi: int,
    pub weight: Option<W>,
}

/// The weight that an edge record carries under the requested key.
pub open spec fn mentioned_weight<W>(edge: Record<W>, key: Option<Seq<char>>) -> Option<W> {
    match key {
        None => None,
        Some(k) => match edge.field(k) {
            None => None,
            Some(f) => lenient_value(f),
        },
    }
}

/// The mention made by edge record `edge` in the list of node `source`.
pub open spec fn mention<W>(
    nodes: Seq<Record<W>>,
    key: Option<Seq<char>>,
    source: int,
    edge: Record<W>,
) -> Mention<W> {
    let target = edge_end(nodes, edge.id->0);
    Mention {
        lo: if source <= target { source } else { target },
        hi: if source <= target { target } else { source },
        weight: mentioned_weight(edge, key),
    }
}

/// The mentions in the list of node `source`.
pub open spec fn row_mentions<W>(
    nodes: Seq<Record<W>>,
    key: Option<Seq<char>>,
    source: int,
    row: Seq<Record<W>>,
) -> Seq<Mention<W>> {
    Seq::new(row.len(), |j: int| mention(nodes, key, source, row[j]))
}

/// The mentions in the first `n` lists, in reading order.
pub open spec fn mentions_among<W>(
    data: JsonGraphData<W>,
    key: Option<Seq<char>>,
    n: int,
) -> Seq<Mention<W>>
    decreases n,
{
    if n <= 0 {
        Seq::empty()
    } else {
        mentions_among(data, key, n - 1) + row_mentions(
            data.nodes@,
            key,
            n - 1,
            data.adjacency@[n - 1]->0@,
        )
    }
}

/// All mentions, in reading order.
pub open spec fn mentions<W>(data: JsonGraphData<W>, key: Option<Seq<char>>) -> Seq<Mention<W>> {
    mentions_among(data, key, data.adjacency@.len() as int)
}

/// The weight carried by the last mention of edge `(lo, hi)` that carries one.
pub open spec fn last_weight<W>(ms: Seq<Mention<W>>, lo: int, hi: int) -> Option<W>
    decreases ms.len(),
{
    if ms.len() == 0 {
        None
    } else if ms.last().lo == lo && ms.last().hi == hi && ms.last().weight is Some {
        ms.last().weight
    } else {
        last_weight(ms.drop_last(), lo, hi)
    }
}

/// Whether edge `(lo, hi)` is mentioned.
pub open spec fn is_mentioned<W>(ms: Seq<Mention<W>>, lo: int, hi: int) -> bool {
    exists|k: int| 0 <= k < ms.len() && (#[trigger] ms[k]).lo == lo && ms[k].hi == hi
}

/// Whether edge `a` comes before edge `b`: by smaller end, then by larger end.
pub open spec fn edge_before(a: (u32, u32), b: (u32, u32)) -> bool {
    a.0 < b.0 || (a.0 == b.0 && a.1 < b.1)
}

/// Whether `edges` lists every mentioned edge once, in ascending order.
pub open spec fn lists_edges<W>(edges: Seq<(u32, u32)>, ms: Seq<Mention<W>>) -> bool {
    &&& forall|i: int, j: int| 0 <= i < j < edges.len() ==> edge_before(edges[i], edges[j])
    &&& forall|i: int|
        0 <= i < edges.len() ==> is_mentioned(
            ms,
            (#[trigger] edges[i]).0 as int,
            edges[i].1 as int,
        )
    &&& forall|k: int|
        0 <= k < ms.len() ==> edges.contains(
            ((#[trigger] ms[k]).lo as u32, ms[k].hi as u32),
        )
}

/// An edge as one number that sorts as the edge does.
spec fn code(lo: int, hi: int) -> int {
    lo * 0x1_0000_0000 + hi
}

/// Sort in ascending order, as `slice::sort_unstable` of `std` documents: the same items, each no
/// larger than the next.
#[verifier::external_body]
pub(crate) fn sort_ascending(items: &mut Vec<u64>)
    ensures
        final(items)@.to_multiset() == old(items)@.to_multiset(),
        forall|i: int, j: int|
            0 <= i < j < final(items)@.len() ==> final(items)@[i] <= final(items)@[j],
{
    items.sort_unstable();
}

/// The position that an edge's id refers to, or what is wrong with the id.
pub(crate) fn resolve_target<W>(
    nodes: &Vec<Record<W>>,
    ids: &Option<NodeIds>,
    id: &NodeId,
    entry: usize,
    edge: usize,
) -> (r: Result<u32, GraphFault>)
    requires
        nodes@.len() <= u32::MAX,
        ids_sound(nodes@),
        is_labelled(nodes@) <==> ids is Some,
        ids matches Some(x) ==> x.indexes(nodes@),
    ensures
        r matches Ok(t) ==> resolves_to(nodes@, *id, t as int) && t == edge_end(nodes@, *id),
        r is Ok <==> exists|t: int| resolves_to(nodes@, *id, t),
        r matches Err(f) ==> f == (if is_labelled(nodes@) {
            GraphFault::UnknownId { entry, edge }
        } else {
            match id.unsigned {
                None => GraphFault::IdNotNumeric { entry, edge },
                Some(target) => GraphFault::IdOutOfRange { entry, edge, target },
            }
        }),
{
    match ids {
        Some(known) => match known.positions.get(id.text.as_str()) {
            Some(position) => {
                let t: u32 = *position;
                proof {
                    assert(resolves_to(nodes@, *id, t as int));
                    let other = edge_end(nodes@, *id);
                    assert(known.positions@.contains_key(id_text(nodes@[other])));
                }
                Ok(t)
            },
            None => {
                proof {
                    if exists|t: int| resolves_to(nodes@, *id, t) {
                        let t = choose|t: int| resolves_to(nodes@, *id, t);
                        assert(known.positions@.contains_key(id_text(nodes@[t])));
                    }
                }
                Err(GraphFault::UnknownId { entry, edge })
            },
        },
        None => match id.unsigned {
            None => Err(GraphFault::IdNotNumeric { entry, edge }),
            Some(target) => {
                if target >= nodes.len() as u64 {
                    return Err(GraphFault::IdOutOfRange { entry, edge, target });
                }
                proof {
                    assert(resolves_to(nodes@, *id, target as int));
                }
                Ok(target as u32)
            },
        },
    }
}

/// The edges and weights mentioned so far, by number.
struct Collected<W> {
    codes: Vec<u64>,
    weights: HashMap<u64, W>,
}

impl<W: Copy> Collected<W> {
    spec fn holds(&self, ms: Seq<Mention<W>>) -> bool {
        &&& self.codes@.len() == ms.len()
        &&& forall|k: int|
            0 <= k < ms.len() ==> 0 <= (#[trigger] ms[k]).lo <= u32::MAX && 0 <= ms[k].hi
                <= u32::MAX && self.codes@[k] == code(ms[k].lo, ms[k].hi)
        &&& forall|lo: int, hi: int|
            #![trigger last_weight(ms, lo, hi)]
            0 <= lo <= u32::MAX && 0 <= hi <= u32::MAX ==> {
                let c = code(lo, hi) as u64;
                match last_weight(ms, lo, hi) {
                    Some(w) => self.weights@.contains_key(c) && self.weights@[c] == w,
                    None => !self.weights@.contains_key(c),
                }
            }
    }

    fn new() -> (r: Self)
        ensures
            r.holds(Seq::empty()),
    {
        broadcast use vstd::std_specs::hash::group_hash_axioms;

        Collected { codes: Vec::new(), weights: HashMap::new() }
    }

    fn add(&mut self, source: u32, target: u32, weight: Option<W>, Ghost(ms): Ghost<
        Seq<Mention<W>>,
    >, Ghost(m): Ghost<Mention<W>>)
        requires
            old(self).holds(ms),
            m.lo == if source <= target { source } else { target },
            m.hi == if source <= target { target } else { source },
            m.weight == weight,
        ensures
            final(self).holds(ms.push(m)),
    {
        broadcast use vstd::std_specs::hash::group_hash_axioms;

        let lo: u32 = if source <= target {
            source
        } else {
            target
        };
        let hi: u32 = if source <= target {
            target
        } else {
            source
        };
        let c: u64 = lo as u64 * 0x1_0000_0000 + hi as u64;
        self.codes.push(c);
        if let Some(w) = weight {
            self.weights.insert(c, w);
        }
        proof {
            assert(ms.push(m).drop_last() =~= ms);
            assert forall|a: int, b: int|
                #![trigger last_weight(ms.push(m), a, b)]
                0 <= a <= u32::MAX && 0 <= b <= u32::MAX implies {
                let k = code(a, b) as u64;
                match last_weight(ms.push(m), a, b) {
                    Some(w) => self.weights@.contains_key(k) && self.weights@[k] == w,
                    None => !self.weights@.contains_key(k),
                }
            } by {
                let k = code(a, b) as u64;
                assert(k == code(a, b));
                assert(k == c <==> a == lo && b == hi);
                assert(last_weight(ms, a, b) == last_weight(ms, a, b));
            }
        }
    }
}

/// The weight that an edge record carries under the requested key.
pub(crate) fn edge_weight<W: Copy>(edge: &Record<W>, request: &Option<EdgeWeightRequest<W>>) -> (r: Option<W>)
    ensures
        r == mentioned_weight(*edge, weight_key(*request)),
{
    match request {
        None => None,
        Some(wanted) => match edge.get(&wanted.key) {
            None => None,
            Some(field) => parse_numeric_opt(field),
        },
    }
}

/// The requested weight field.
pub open spec fn weight_key<W>(request: Option<EdgeWeightRequest<W>>) -> Option<Seq<char>> {
    match request {
        None => None,
        Some(wanted) => Some(wanted.key@),
    }
}

/// Read every adjacency list.
fn collect_edges<W: Copy>(
    data: &JsonGraphData<W>,
    ids: &Option<NodeIds>,
    request: &Option<EdgeWeightRequest<W>>,
) -> (r: Result<Collected<W>, GraphFault>)
    requires
        data.nodes@.len() <= u32::MAX,
        data.adjacency@.len() == data.nodes@.len(),
        ids_sound(data.nodes@),
        is_labelled(data.nodes@) <==> ids is Some,
        ids matches Some(x) ==> x.indexes(data.nodes@),
    ensures
        r matches Err(fault) ==> adjacency_report(*data, fault),
        r matches Ok(found) ==> {
            &&& forall|s: int|
                0 <= s < data.adjacency@.len() ==> entry_sound(
                    data.nodes@,
                    #[trigger] data.adjacency@[s],
                )
            &&& found.holds(mentions(*data, weight_key(*request)))
        },
{
    let ghost key = weight_key(*request);
    let mut found: Collected<W> = Collected::new();
    let mut s: usize = 0;
    while s < data.adjacency.len()
        invariant
            s <= data.adjacency@.len(),
            data.nodes@.len() <= u32::MAX,
            data.adjacency@.len() == data.nodes@.len(),
            ids_sound(data.nodes@),
            is_labelled(data.nodes@) <==> ids is Some,
            ids matches Some(x) ==> x.indexes(data.nodes@),
            key == weight_key(*request),
            forall|k: int|
                0 <= k < s ==> entry_sound(data.nodes@, #[trigger] data.adjacency@[k]),
            found.holds(mentions_among(*data, key, s as int)),
        decreases data.adjacency.len() - s,
    {
        match &data.adjacency[s] {
            None => {
                return Err(GraphFault::NotAnArray { entry: s });
            },
            Some(row) => {
                let ghost earlier = mentions_among(*data, key, s as int);
                let ghost here = row_mentions(data.nodes@, key, s as int, row@);
                let mut j: usize = 0;
                proof {
                    assert(earlier + here.take(0) =~= earlier);
                }
                while j < row.len()
                    invariant
                        j <= row@.len(),
                        s < data.adjacency@.len(),
                        data.adjacency@[s as int] == Some(*row),
                        data.nodes@.len() <= u32::MAX,
                        data.adjacency@.len() == data.nodes@.len(),
                        ids_sound(data.nodes@),
                        is_labelled(data.nodes@) <==> ids is Some,
                        ids matches Some(x) ==> x.indexes(data.nodes@),
                        key == weight_key(*request),
                        forall|k: int|
                            0 <= k < s ==> entry_sound(data.nodes@, #[trigger] data.adjacency@[k]),
                        forall|k: int| 0 <= k < j ==> edge_sound(data.nodes@, #[trigger] row@[k]),
                        here == row_mentions(data.nodes@, key, s as int, row@),
                        found.holds(earlier + here.take(j as int)),
                    decreases row.len() - j,
                {
                    match &row[j].id {
                        None => {
                            assert(!edge_sound(data.nodes@, row@[j as int]));
                            return Err(GraphFault::EdgeWithoutId { entry: s, edge: j });
                        },
                        Some(id) => {
                            let target: u32 = match resolve_target(&data.nodes, ids, id, s, j) {
                                Ok(t) => t,
                                Err(fault) => {
                                    assert(!edge_sound(data.nodes@, row@[j as int]));
                                    return Err(fault);
                                },
                            };
                            let weight = edge_weight(&row[j], request);
                            assert(edge_sound(data.nodes@, row@[j as int]));
                            let ghost so_far = earlier + here.take(j as int);
                            found.add(s as u32, target, weight, Ghost(so_far), Ghost(here[j as int]));
                            proof {
                                assert(so_far.push(here[j as int]) =~= earlier + here.take(j + 1));
                            }
                        },
                    }
                    j += 1;
                }
                proof {
                    assert(here.take(row@.len() as int) =~= here);
                    assert(entry_sound(data.nodes@, data.adjacency@[s as int]));
                }
            },
        }
        s += 1;
    }
    Ok(found)
}

/// Each edge once, in ascending order.
fn distinct_edges<W>(codes: Vec<u64>, Ghost(ms): Ghost<Seq<Mention<W>>>) -> (r: Vec<(u32, u32)>)
    requires
        codes@.len() == ms.len(),
        forall|k: int|
            0 <= k < ms.len() ==> 0 <= (#[trigger] ms[k]).lo <= u32::MAX && 0 <= ms[k].hi
                <= u32::MAX && codes@[k] == code(ms[k].lo, ms[k].hi),
    ensures
        lists_edges(r@, ms),
{
    broadcast use vstd::seq_lib::group_to_multiset_ensures;

    let ghost unsorted = codes@;
    let mut sorted = codes;
    sort_ascending(&mut sorted);
    proof {
        assert forall|k: int| 0 <= k < ms.len() implies #[trigger] sorted@.contains(
            unsorted[k],
        ) by {
            assert(unsorted.contains(unsorted[k]));
            assert(unsorted.to_multiset().contains(unsorted[k]));
        }
        assert forall|i: int| 0 <= i < sorted@.len() implies #[trigger] unsorted.contains(
            sorted@[i],
        ) by {
            assert(sorted@.contains(sorted@[i]));
            assert(sorted@.to_multiset().contains(sorted@[i]));
        }
    }
    let mut edges: Vec<(u32, u32)> = Vec::new();
    let mut i: usize = 0;
    while i < sorted.len()
        invariant
            i <= sorted@.len(),
            unsorted.len() == ms.len(),
            forall|k: int|
                0 <= k < ms.len() ==> 0 <= (#[trigger] ms[k]).lo <= u32::MAX && 0 <= ms[k].hi
                    <= u32::MAX && unsorted[k] == code(ms[k].lo, ms[k].hi),
            forall|a: int, b: int| 0 <= a < b < sorted@.len() ==> sorted@[a] <= sorted@[b],
            forall|a: int| 0 <= a < sorted@.len() ==> #[trigger] unsorted.contains(sorted@[a]),
            forall|a: int, b: int| 0 <= a < b < edges@.len() ==> edge_before(edges@[a], edges@[b]),
            forall|a: int|
                0 <= a < edges@.len() ==> is_mentioned(
                    ms,
                    (#[trigger] edges@[a]).0 as int,
                    edges@[a].1 as int,
                ),
            forall|a: int|
                0 <= a < i ==> exists|e: int|
                    0 <= e < edges@.len() && code(
                        (#[trigger] edges@[e]).0 as int,
                        edges@[e].1 as int,
                    ) == #[trigger] sorted@[a],
            i == 0 <==> edges@.len() == 0,
            i > 0 ==> code(edges@.last().0 as int, edges@.last().1 as int) == sorted@[i - 1],
        decreases sorted.len() - i,
    {
        let c: u64 = sorted[i];
        let ghost before = edges@;
        proof {
            assert(unsorted.contains(sorted@[i as int]));
        }
        if i == 0 || sorted[i - 1] != c {
            let lo: u32 = (c / 0x1_0000_0000) as u32;
            let hi: u32 = (c % 0x1_0000_0000) as u32;
            proof {
                let k = choose|k: int| 0 <= k < unsorted.len() && unsorted[k] == c;
                assert(unsorted[k] == code(ms[k].lo, ms[k].hi));
                assert(ms[k].lo == lo && ms[k].hi == hi);
                assert(is_mentioned(ms, lo as int, hi as int));
                assert(code(lo as int, hi as int) == c);
            }
            edges.push((lo, hi));
            proof {
                assert forall|a: int, b: int| 0 <= a < b < edges@.len() implies edge_before(
                    edges@[a],
                    edges@[b],
                ) by {
                    if b == before.len() {
                        if a < before.len() - 1 {
                            assert(edge_before(before[a], before[before.len() - 1]));
                        }
                        assert(code(before.last().0 as int, before.last().1 as int) < c);
                    }
                }
            }
        }
        proof {
            assert forall|a: int| 0 <= a < i + 1 implies exists|e: int|
                0 <= e < edges@.len() && code(
                    (#[trigger] edges@[e]).0 as int,
                    edges@[e].1 as int,
                ) == #[trigger] sorted@[a] by {
                if a < i {
                    let e = choose|e: int|
                        0 <= e < before.len() && code(
                            (#[trigger] before[e]).0 as int,
                            before[e].1 as int,
                        ) == sorted@[a];
                    assert(edges@[e] == before[e]);
                } else {
                    let e = edges@.len() - 1;
                    assert(code(edges@[e].0 as int, edges@[e].1 as int) == sorted@[a]);
                }
            }
        }
        i += 1;
    }
    proof {
        assert forall|k: int| 0 <= k < ms.len() implies edges@.contains(
            ((#[trigger] ms[k]).lo as u32, ms[k].hi as u32),
        ) by {
            assert(sorted@.contains(unsorted[k]));
            let a = choose|a: int| 0 <= a < sorted@.len() && sorted@[a] == unsorted[k];
            let e = choose|e: int|
                0 <= e < edges@.len() && code(
                    (#[trigger] edges@[e]).0 as int,
                    edges@[e].1 as int,
                ) == sorted@[a];
            assert(unsorted[k] == code(ms[k].lo, ms[k].hi));
            assert(edges@[e] == (ms[k].lo as u32, ms[k].hi as u32));
        }
    }
    edges
}

/// The weight of every edge: that of its last mention with a weight, or else the default.
pub open spec fn weighs<W>(
    weights: Seq<W>,
    edges: Seq<(u32, u32)>,
    ms: Seq<Mention<W>>,
    default_value: W,
) -> bool {
    &&& weights.len() == edges.len()
    &&& forall|i: int|
        0 <= i < edges.len() ==> #[trigger] weights[i] == last_weight(
            ms,
            edges[i].0 as int,
            edges[i].1 as int,
        ).unwrap_or(default_value)
}

/// The weight of every edge.
fn aligned_weights<W: Copy>(
    edges: &Vec<(u32, u32)>,
    found: &HashMap<u64, W>,
    default_value: W,
    Ghost(ms): Ghost<Seq<Mention<W>>>,
) -> (r: Vec<W>)
    requires
        forall|lo: int, hi: int|
            #![trigger last_weight(ms, lo, hi)]
            0 <= lo <= u32::MAX && 0 <= hi <= u32::MAX ==> {
                let c = code(lo, hi) as u64;
                match last_weight(ms, lo, hi) {
                    Some(w) => found@.contains_key(c) && found@[c] == w,
                    None => !found@.contains_key(c),
                }
            },
    ensures
        weighs(r@, edges@, ms, default_value),
{
    broadcast use vstd::std_specs::hash::group_hash_axioms;

    let mut weights: Vec<W> = Vec::new();
    let mut i: usize = 0;
    while i < edges.len()
        invariant
            i <= edges@.len(),
            weights@.len() == i,
            forall|lo: int, hi: int|
                #![trigger last_weight(ms, lo, hi)]
                0 <= lo <= u32::MAX && 0 <= hi <= u32::MAX ==> {
                    let c = code(lo, hi) as u64;
                    match last_weight(ms, lo, hi) {
                        Some(w) => found@.contains_key(c) && found@[c] == w,
                        None => !found@.contains_key(c),
                    }
                },
            forall|k: int|
                0 <= k < i ==> #[trigger] weights@[k] == last_weight(
                    ms,
                    edges@[k].0 as int,
                    edges@[k].1 as int,
                ).unwrap_or(default_value),
        decreases edges.len() - i,
    {
        let (lo, hi) = edges[i];
        let c: u64 = lo as u64 * 0x1_0000_0000 + hi as u64;
        proof {
            assert(c == code(lo as int, hi as int));
            assert(last_weight(ms, lo as int, hi as int) == last_weight(ms, lo as int, hi as int));
        }
        let weight: W = match found.get(&c) {
            Some(w) => *w,
            None => default_value,
        };
        weights.push(weight);
        i += 1;
    }
    weights
}

// ---------------------------------------------------------------------------------------------
// Incident edges
// ---------------------------------------------------------------------------------------------

/// The other end and the index of every edge at `node` among the first `n` edges, in edge order.
pub open spec fn incident(edges: Seq<(u32, u32)>, node: int, n: int) -> Seq<(u32, usize)>
    decreases n,
{
    if n <= 0 {
        Seq::empty()
    } else {
        let shorter = incident(edges, node, n - 1);
        if edges[n - 1].0 == node {
            shorter.push((edges[n - 1].1, (n - 1) as usize))
        } else if edges[n - 1].1 == node {
            shorter.push((edges[n - 1].0, (n - 1) as usize))
        } else {
            shorter
        }
    }
}

/// Every edge at a node is listed for it, and only those.
pub proof fn law_incident_edges(edges: Seq<(u32, u32)>, node: int, n: int)
    requires
        0 <= n <= edges.len() <= usize::MAX,
    ensures
        forall|e: int|
            #![trigger edges[e]]
            0 <= e < n ==> ((edges[e].0 == node || edges[e].1 == node) <==> exists|k: int|
                0 <= k < incident(edges, node, n).len() && (#[trigger] incident(edges, node, n)[k]).1
                    == e),
        forall|k: int|
            0 <= k < incident(edges, node, n).len() ==> (#[trigger] incident(edges, node, n)[k]).1
                < n,
    decreases n,
{
    if n > 0 {
        law_incident_edges(edges, node, n - 1);
        let shorter = incident(edges, node, n - 1);
        let all = incident(edges, node, n);
        assert forall|e: int|
            #![trigger edges[e]]
            0 <= e < n implies ((edges[e].0 == node || edges[e].1 == node) <==> exists|k: int|
            0 <= k < all.len() && (#[trigger] all[k]).1 == e) by {
            if edges[e].0 == node || edges[e].1 == node {
                if e == n - 1 {
                    assert(all[all.len() - 1].1 == e);
                } else {
                    let k = choose|k: int| 0 <= k < shorter.len() && (#[trigger] shorter[k]).1 == e;
                    assert(all[k].1 == e);
                }
            } else if exists|k: int| 0 <= k < all.len() && (#[trigger] all[k]).1 == e {
                let k = choose|k: int| 0 <= k < all.len() && (#[trigger] all[k]).1 == e;
                if k < shorter.len() {
                    assert(shorter[k].1 == e);
                }
            }
        }
    }
}

impl CsrAdjacency {
    /// Whether this lists the incident edges of a graph with `node_count` nodes.
    pub open spec fn describes(&self, node_count: nat, edges: Seq<(u32, u32)>) -> bool {
        &&& self.offsets@.len() == node_count + 1
        &&& forall|x: int|
            0 <= x < node_count ==> #[trigger] self.row(x) == incident(
                edges,
                x,
                edges.len() as int,
            )
        &&& forall|x: int|
            0 <= x < node_count ==> self.offsets@[x] <= #[trigger] self.offsets@[x + 1]
        &&& forall|x: int|
            0 <= x <= node_count ==> #[trigger] self.offsets@[x] <= self.neighbors@.len()
    }

    /// The incident edges of node `x`.
    pub open spec fn row(&self, x: int) -> Seq<(u32, usize)> {
        self.neighbors@.subrange(self.offsets@[x] as int, self.offsets@[x + 1] as int)
    }

    /// Incident-edge lists of a graph with `node_count` nodes.
    pub fn new(node_count: usize, edges: &Vec<(u32, u32)>) -> (r: CsrAdjacency)
        requires
            forall|e: int|
                0 <= e < edges@.len() ==> (#[trigger] edges@[e]).0 < node_count && edges@[e].1
                    < node_count,
        ensures
            r.describes(node_count as nat, edges@),
    {
        let mut lists: Vec<Vec<(u32, usize)>> = Vec::new();
        let mut x: usize = 0;
        while x < node_count
            invariant
                x <= node_count,
                lists@.len() == x,
                forall|y: int| 0 <= y < x ==> (#[trigger] lists@[y])@ == Seq::<(u32, usize)>::empty(),
            decreases node_count - x,
        {
            lists.push(Vec::new());
            x += 1;
        }
        let mut e: usize = 0;
        while e < edges.len()
            invariant
                e <= edges@.len(),
                lists@.len() == node_count,
                forall|k: int|
                    0 <= k < edges@.len() ==> (#[trigger] edges@[k]).0 < node_count && edges@[k].1
                        < node_count,
                forall|y: int|
                    0 <= y < node_count ==> (#[trigger] lists@[y])@ == incident(edges@, y, e as int),
            decreases edges.len() - e,
        {
            let (u, v) = edges[e];
            assert(edges@[e as int].0 < node_count && edges@[e as int].1 < node_count);
            lists[u as usize].push((v, e));
            if v != u {
                lists[v as usize].push((u, e));
            }
            e += 1;
        }
        let mut offsets: Vec<usize> = Vec::new();
        let mut neighbors: Vec<(u32, usize)> = Vec::new();
        offsets.push(0);
        let mut x: usize = 0;
        while x < node_count
            invariant
                x <= node_count,
                lists@.len() == node_count,
                offsets@.len() == x + 1,
                offsets@[x as int] == neighbors@.len(),
                forall|y: int|
                    0 <= y < node_count ==> (#[trigger] lists@[y])@ == incident(
                        edges@,
                        y,
                        edges@.len() as int,
                    ),
                forall|y: int| 0 <= y <= x ==> #[trigger] offsets@[y] <= neighbors@.len(),
                forall|y: int| 0 <= y < x ==> offsets@[y] <= #[trigger] offsets@[y + 1],
                forall|y: int|
                    0 <= y < x ==> neighbors@.subrange(
                        #[trigger] offsets@[y] as int,
                        offsets@[y + 1] as int,
                    ) == incident(edges@, y, edges@.len() as int),
            decreases node_count - x,
        {
            let ghost before = neighbors@;
            let list = &lists[x];
            let mut k: usize = 0;
            while k < list.len()
                invariant
                    k <= list@.len(),
                    neighbors@ == before + list@.take(k as int),
                decreases list.len() - k,
            {
                neighbors.push(list[k]);
                proof {
                    assert(list@.take(k + 1) =~= list@.take(k as int).push(list@[k as int]));
                }
                k += 1;
            }
            let ghost old_offsets = offsets@;
            offsets.push(neighbors.len());
            proof {
                assert(list@.take(list@.len() as int) =~= list@);
                assert forall|y: int| 0 <= y < x + 1 implies neighbors@.subrange(
                    #[trigger] offsets@[y] as int,
                    offsets@[y + 1] as int,
                ) == incident(edges@, y, edges@.len() as int) by {
                    if y < x {
                        assert(offsets@[y] == old_offsets[y]);
                        assert(offsets@[y + 1] == old_offsets[y + 1]);
                        assert(old_offsets[y + 1] <= before.len());
                        assert(neighbors@.subrange(offsets@[y] as int, offsets@[y + 1] as int)
                            =~= before.subrange(offsets@[y] as int, offsets@[y + 1] as int));
                    } else {
                        assert(neighbors@.subrange(offsets@[y] as int, offsets@[y + 1] as int)
                            =~= list@);
                    }
                }
            }
            x += 1;
        }
        CsrAdjacency { offsets, neighbors }
    }
}

// ---------------------------------------------------------------------------------------------
// Loading
// ---------------------------------------------------------------------------------------------

/// The texts of a list of keys.
pub open spec fn texts(keys: Seq<String>) -> Seq<Seq<char>> {
    Seq::new(keys.len(), |i: int| keys[i]@)
}

/// Whether the required numeric fields are finite numbers on every node.
pub open spec fn numeric_sound<W>(nodes: Seq<Record<W>>, keys: Seq<String>) -> bool {
    forall|k: int, i: int|
        0 <= k < keys.len() && 0 <= i < nodes.len() ==> numeric_value(
            (#[trigger] nodes[i]).field((#[trigger] keys[k])@),
        ) is Ok
}

/// Whether `(key, node)` is the first required numeric field, key by key, that is unusable, and
/// `problem` is why.
pub open spec fn numeric_report<W>(
    nodes: Seq<Record<W>>,
    keys: Seq<String>,
    key: int,
    node: int,
    problem: NumericProblem,
) -> bool {
    &&& 0 <= key < keys.len()
    &&& 0 <= node < nodes.len()
    &&& numeric_value(nodes[node].field(keys[key]@)) == Err::<W, NumericProblem>(problem)
    &&& forall|i: int|
        0 <= i < node ==> numeric_value((#[trigger] nodes[i]).field(keys[key]@)) is Ok
    &&& numeric_sound(nodes, keys.take(key))
}

/// Whether the graph can be loaded.
pub open spec fn graph_sound<W>(data: JsonGraphData<W>, request: GraphLoadRequest<W>) -> bool {
    &&& !data.directed
    &&& ids_sound(data.nodes@)
    &&& numeric_sound(data.nodes@, request.numeric_keys@)
    &&& data.adjacency@.len() == data.nodes@.len()
    &&& forall|s: int|
        0 <= s < data.adjacency@.len() ==> entry_sound(data.nodes@, #[trigger] data.adjacency@[s])
}

/// Whether `fault` is why the graph cannot be loaded. Faults are looked for in this order:
/// direction, node ids, required numeric fields, number of adjacency lists, edges.
pub open spec fn graph_report<W>(
    data: JsonGraphData<W>,
    request: GraphLoadRequest<W>,
    fault: GraphFault,
) -> bool {
    match fault {
        GraphFault::Directed => data.directed,
        GraphFault::PartialIds { .. } | GraphFault::DuplicateId { .. } => !data.directed
            && ids_report(data.nodes@, fault),
        GraphFault::Numeric { key, node, problem } => !data.directed && ids_sound(data.nodes@)
            && numeric_report(
            data.nodes@,
            request.numeric_keys@,
            key as int,
            node as int,
            problem,
        ),
        GraphFault::AdjacencyCount { nodes, lists } => !data.directed && ids_sound(data.nodes@)
            && numeric_sound(data.nodes@, request.numeric_keys@) && nodes == data.nodes@.len()
            && lists == data.adjacency@.len() && nodes != lists,
        _ => !data.directed && ids_sound(data.nodes@) && numeric_sound(
            data.nodes@,
            request.numeric_keys@,
        ) && data.adjacency@.len() == data.nodes@.len() && adjacency_report(data, fault),
    }
}

impl<W> Graph<W> {
    /// Whether columns, edges, weights, and incident-edge lists fit together.
    pub open spec fn wf(&self) -> bool {
        &&& self.columns_wf()
        &&& self.regions_wf()
        &&& self.edges_wf()
        &&& self.adjacency matches Some(adjacency) ==> adjacency.describes(
            self.node_count as nat,
            self.edges@,
        )
    }

    /// Whether every numeric column has one value per node.
    pub open spec fn columns_wf(&self) -> bool {
        &&& self.attr_keys@.len() <= self.attr_columns@.len()
        &&& forall|c: int|
            0 <= c < self.attr_columns@.len() ==> (#[trigger] self.attr_columns@[c])@.len()
                == self.node_count
    }

    /// Whether every region column has one entry per node, each below the column's region count.
    pub open spec fn regions_wf(&self) -> bool {
        &&& self.region_keys@.len() <= self.region_columns@.len()
        &&& self.region_columns@.len() == self.region_id_counts@.len()
        &&& forall|c: int|
            0 <= c < self.region_columns@.len() ==> (#[trigger] self.region_columns@[c])@.len()
                == self.node_count
        &&& forall|c: int, i: int|
            0 <= c < self.region_columns@.len() && 0 <= i < self.node_count ==> (
            #[trigger] self.region_columns@[c]@[i] matches Some(region) ==> region
                < self.region_id_counts@[c])
    }

    /// Whether every edge joins two nodes and has a weight where weights were asked for.
    pub open spec fn edges_wf(&self) -> bool {
        &&& forall|e: int|
            0 <= e < self.edges@.len() ==> (#[trigger] self.edges@[e]).0 < self.node_count
                && self.edges@[e].1 < self.node_count
        &&& self.edge_weights matches Some(weights) ==> weights@.len() == self.edges@.len()
    }

    /// Whether this is the graph of `data` with the columns that `request` asks for.
    pub open spec fn loads(
        &self,
        data: JsonGraphData<W>,
        request: GraphLoadRequest<W>,
        zero: W,
    ) -> bool {
        let nodes = data.nodes@;
        let ms = mentions(data, weight_key(request.edge_weight));
        let required = request.numeric_keys@;
        let optional = request.partial_numeric_keys@;
        &&& self.node_count == nodes.len()
        &&& texts(self.attr_keys@) == texts(required) + texts(optional)
        &&& self.attr_columns@.len() == required.len() + optional.len()
        &&& forall|c: int, i: int|
            0 <= c < required.len() && 0 <= i < nodes.len() ==> numeric_value(
                nodes[i].field(required[c]@),
            ) == Ok::<W, NumericProblem>(#[trigger] self.attr_columns@[c]@[i])
        &&& forall|c: int, i: int|
            required.len() <= c < self.attr_columns@.len() && 0 <= i < nodes.len() ==> (
            #[trigger] self.attr_columns@[c]@[i]) == partial_value(
                nodes[i].field(optional[c - required.len()]@),
                zero,
            )
        &&& texts(self.region_keys@) == texts(request.region_keys@)
        &&& self.region_columns@.len() == request.region_keys@.len()
        &&& forall|c: int|
            0 <= c < self.region_columns@.len() ==> interns(
                region_names(nodes, request.region_keys@[c]@),
                (#[trigger] self.region_columns@[c])@,
            ) && self.region_id_counts@[c] == names_among(
                region_names(nodes, request.region_keys@[c]@),
                nodes.len() as int,
            )
        &&& lists_edges(self.edges@, ms)
        &&& match (request.edge_weight, self.edge_weights) {
            (None, None) => true,
            (Some(wanted), Some(weights)) => weighs(
                weights@,
                self.edges@,
                ms,
                wanted.default_value,
            ),
            _ => false,
        }
        &&& self.adjacency is Some <==> request.need_adjacency
    }
}

pub(crate) proof fn lemma_mentions_in_range<W>(data: JsonGraphData<W>, key: Option<Seq<char>>, n: int)
    requires
        0 <= n <= data.adjacency@.len(),
        data.adjacency@.len() == data.nodes@.len(),
        forall|s: int|
            0 <= s < n ==> entry_sound(data.nodes@, #[trigger] data.adjacency@[s]),
    ensures
        forall|k: int|
            0 <= k < mentions_among(data, key, n).len() ==> 0 <= (#[trigger] mentions_among(
                data,
                key,
                n,
            )[k]).lo <= mentions_among(data, key, n)[k].hi < data.nodes@.len(),
    decreases n,
{
    if n > 0 {
        lemma_mentions_in_range(data, key, n - 1);
        let earlier = mentions_among(data, key, n - 1);
        let row = data.adjacency@[n - 1]->0@;
        let here = row_mentions(data.nodes@, key, n - 1, row);
        let all = mentions_among(data, key, n);
        assert forall|k: int| 0 <= k < all.len() implies 0 <= (#[trigger] all[k]).lo <= all[k].hi
            < data.nodes@.len() by {
            if k >= earlier.len() {
                let j = k - earlier.len();
                assert(all[k] == here[j]);
                assert(entry_sound(data.nodes@, data.adjacency@[n - 1]));
                assert(edge_sound(data.nodes@, row[j]));
            } else {
                assert(all[k] == earlier[k]);
            }
        }
    }
}

/// The column of a required numeric field.
fn numeric_column_of<W: Copy>(nodes: &Vec<Record<W>>, key: &String) -> (r: Result<
    Vec<W>,
    (usize, NumericProblem),
>)
    ensures
        r matches Ok(column) ==> column@.len() == nodes@.len() && forall|i: int|
            0 <= i < nodes@.len() ==> numeric_value(nodes@[i].field(key@)) == Ok::<
                W,
                NumericProblem,
            >(#[trigger] column@[i]),
        r matches Err((node, problem)) ==> node < nodes@.len() && numeric_value(
            nodes@[node as int].field(key@),
        ) == Err::<W, NumericProblem>(problem) && forall|i: int|
            0 <= i < node ==> numeric_value((#[trigger] nodes@[i]).field(key@)) is Ok,
{
    let mut column: Vec<W> = Vec::new();
    let mut i: usize = 0;
    while i < nodes.len()
        invariant
            i <= nodes@.len(),
            column@.len() == i,
            forall|k: int|
                0 <= k < i ==> numeric_value(nodes@[k].field(key@)) == Ok::<W, NumericProblem>(
                    #[trigger] column@[k],
                ),
        decreases nodes.len() - i,
    {
        match parse_numeric(&nodes[i], key) {
            Ok(value) => column.push(value),
            Err(problem) => {
                proof {
                    assert forall|k: int| 0 <= k < i implies numeric_value(
                        (#[trigger] nodes@[k]).field(key@),
                    ) is Ok by {
                        let value = column@[k];
                    }
                }
                return Err((i, problem));
            },
        }
        i += 1;
    }
    Ok(column)
}

/// The column of an optional numeric field.
fn partial_column_of<W: Copy>(nodes: &Vec<Record<W>>, key: &String, zero: W) -> (r: Vec<W>)
    ensures
        r@.len() == nodes@.len(),
        forall|i: int|
            0 <= i < nodes@.len() ==> #[trigger] r@[i] == partial_value(
                nodes@[i].field(key@),
                zero,
            ),
{
    let mut column: Vec<W> = Vec::new();
    let mut i: usize = 0;
    while i < nodes.len()
        invariant
            i <= nodes@.len(),
            column@.len() == i,
            forall|k: int|
                0 <= k < i ==> #[trigger] column@[k] == partial_value(nodes@[k].field(key@), zero),
        decreases nodes.len() - i,
    {
        let value: W = match nodes[i].get(key) {
            Some(field) => parse_numeric_or_zero(field, zero),
            None => zero,
        };
        column.push(value);
        i += 1;
    }
    column
}

/// Load a graph with exactly the columns and weights that the caller asks for.
///
/// Node records keep their order: position `i` of every column is node `i`. Adjacency ids are
/// resolved through the nodes' ids where the nodes carry them, and are positions otherwise. Each
/// edge is kept once; of the weights that its mentions carry, the last finite one counts.
pub fn load_graph<W: Copy>(
    data: &JsonGraphData<W>,
    request: GraphLoadRequest<W>,
    zero: W,
) -> (r: Result<Graph<W>, GraphFault>)
    requires
        data.nodes@.len() <= u32::MAX,
    ensures
        r is Ok <==> graph_sound(*data, request),
        r matches Err(fault) ==> graph_report(*data, request, fault),
        r matches Ok(graph) ==> graph.loads(*data, request, zero) && graph.wf(),
{
    if data.directed {
        return Err(GraphFault::Directed);
    }
    let ids = match build_node_id_index(&data.nodes) {
        Ok(ids) => ids,
        Err(fault) => {
            return Err(fault);
        },
    };
    let ghost nodes = data.nodes@;
    let ghost required = request.numeric_keys@;
    let ghost optional = request.partial_numeric_keys@;
    let mut attr_columns: Vec<Vec<W>> = Vec::new();
    let mut attr_keys: Vec<String> = Vec::new();
    let mut k: usize = 0;
    while k < request.numeric_keys.len()
        invariant
            k <= request.numeric_keys@.len(),
            nodes == data.nodes@,
            required == request.numeric_keys@,
            !data.directed,
            ids_sound(nodes),
            attr_columns@.len() == k,
            attr_keys@.len() == k,
            forall|c: int| 0 <= c < k ==> (#[trigger] attr_keys@[c])@ == required[c]@,
            forall|c: int| 0 <= c < k ==> (#[trigger] attr_columns@[c])@.len() == nodes.len(),
            forall|c: int, i: int|
                0 <= c < k && 0 <= i < nodes.len() ==> numeric_value(nodes[i].field(required[c]@))
                    == Ok::<W, NumericProblem>(#[trigger] attr_columns@[c]@[i]),
        decreases request.numeric_keys.len() - k,
    {
        let column = match numeric_column_of(&data.nodes, &request.numeric_keys[k]) {
            Ok(column) => column,
            Err((node, problem)) => {
                proof {
                    assert(numeric_sound(nodes, required.take(k as int))) by {
                        assert forall|c: int, i: int|
                            0 <= c < k && 0 <= i < nodes.len() implies numeric_value(
                            (#[trigger] nodes[i]).field((#[trigger] required.take(k as int)[c])@),
                        ) is Ok by {
                            let value = attr_columns@[c]@[i];
                        }
                    }
                }
                return Err(GraphFault::Numeric { key: k, node, problem });
            },
        };
        attr_keys.push(request.numeric_keys[k].clone());
        attr_columns.push(column);
        k += 1;
    }
    proof {
        assert(numeric_sound(nodes, required)) by {
            assert forall|c: int, i: int|
                0 <= c < required.len() && 0 <= i < nodes.len() implies numeric_value(
                (#[trigger] nodes[i]).field((#[trigger] required[c])@),
            ) is Ok by {
                let value = attr_columns@[c]@[i];
            }
        }
    }
    let mut k: usize = 0;
    while k < request.partial_numeric_keys.len()
        invariant
            k <= request.partial_numeric_keys@.len(),
            nodes == data.nodes@,
            required == request.numeric_keys@,
            optional == request.partial_numeric_keys@,
            attr_columns@.len() == required.len() + k,
            attr_keys@.len() == required.len() + k,
            forall|c: int|
                0 <= c < required.len() ==> (#[trigger] attr_keys@[c])@ == required[c]@,
            forall|c: int|
                required.len() <= c < required.len() + k ==> (#[trigger] attr_keys@[c])@
                    == optional[c - required.len()]@,
            forall|c: int|
                0 <= c < attr_columns@.len() ==> (#[trigger] attr_columns@[c])@.len()
                    == nodes.len(),
            forall|c: int, i: int|
                0 <= c < required.len() && 0 <= i < nodes.len() ==> numeric_value(
                    nodes[i].field(required[c]@),
                ) == Ok::<W, NumericProblem>(#[trigger] attr_columns@[c]@[i]),
            forall|c: int, i: int|
                required.len() <= c < attr_columns@.len() && 0 <= i < nodes.len() ==> (
                #[trigger] attr_columns@[c]@[i]) == partial_value(
                    nodes[i].field(optional[c - required.len()]@),
                    zero,
                ),
        decreases request.partial_numeric_keys.len() - k,
    {
        let column = partial_column_of(&data.nodes, &request.partial_numeric_keys[k], zero);
        attr_keys.push(request.partial_numeric_keys[k].clone());
        attr_columns.push(column);
        k += 1;
    }
    let ghost regions = request.region_keys@;
    let mut region_columns: Vec<Vec<Option<u32>>> = Vec::new();
    let mut region_keys: Vec<String> = Vec::new();
    let mut region_id_counts: Vec<u32> = Vec::new();
    let mut k: usize = 0;
    while k < request.region_keys.len()
        invariant
            k <= request.region_keys@.len(),
            nodes == data.nodes@,
            nodes.len() <= u32::MAX,
            regions == request.region_keys@,
            region_columns@.len() == k,
            region_keys@.len() == k,
            region_id_counts@.len() == k,
            forall|c: int| 0 <= c < k ==> (#[trigger] region_keys@[c])@ == regions[c]@,
            forall|c: int|
                0 <= c < k ==> interns(
                    region_names(nodes, regions[c]@),
                    (#[trigger] region_columns@[c])@,
                ) && region_id_counts@[c] == names_among(
                    region_names(nodes, regions[c]@),
                    nodes.len() as int,
                ),
        decreases request.region_keys.len() - k,
    {
        let (column, count) = region_column(&data.nodes, &request.region_keys[k]);
        region_keys.push(request.region_keys[k].clone());
        region_id_counts.push(count);
        region_columns.push(column);
        k += 1;
    }
    let node_count: usize = data.nodes.len();
    if data.adjacency.len() != node_count {
        return Err(
            GraphFault::AdjacencyCount { nodes: node_count, lists: data.adjacency.len() },
        );
    }
    let ghost key = weight_key(request.edge_weight);
    let ghost ms = mentions(*data, key);
    let found = match collect_edges(data, &ids, &request.edge_weight) {
        Ok(found) => found,
        Err(fault) => {
            return Err(fault);
        },
    };
    proof {
        lemma_mentions_in_range(*data, key, data.adjacency@.len() as int);
    }
    let edges = distinct_edges::<W>(found.codes, Ghost(ms));
    let edge_weights: Option<Vec<W>> = match &request.edge_weight {
        None => None,
        Some(wanted) => Some(
            aligned_weights(&edges, &found.weights, wanted.default_value, Ghost(ms)),
        ),
    };
    let adjacency: Option<CsrAdjacency> = if request.need_adjacency {
        Some(CsrAdjacency::new(node_count, &edges))
    } else {
        None
    };
    let graph = Graph {
        node_count,
        attr_columns,
        attr_keys,
        region_columns,
        region_keys,
        region_id_counts,
        edges,
        edge_weights,
        adjacency,
    };
    proof {
        assert(texts(graph.attr_keys@) =~= texts(required) + texts(optional));
        assert(texts(graph.region_keys@) =~= texts(regions));
        assert(graph.regions_wf()) by {
            assert forall|c: int|
                0 <= c < graph.region_columns@.len() implies (
            #[trigger] graph.region_columns@[c])@.len() == graph.node_count by {
                assert(interns(
                    region_names(nodes, regions[c]@),
                    graph.region_columns@[c]@,
                ));
            }
            assert forall|c: int, i: int|
                0 <= c < graph.region_columns@.len() && 0 <= i < graph.node_count implies (
            #[trigger] graph.region_columns@[c]@[i] matches Some(region) ==> region
                < graph.region_id_counts@[c]) by {
                assert(interns(
                    region_names(nodes, regions[c]@),
                    graph.region_columns@[c]@,
                ));
            }
        }
    }
    Ok(graph)
}

impl<W> Graph<W> {
    /// The numeric column of `key`; the last one where the key was asked for more than once.
    pub fn numeric_column_index(&self, key: &str) -> (r: Option<usize>)
        ensures
            r == column_for(self.attr_keys@, key@),
            r matches Some(c) ==> c < self.attr_keys@.len(),
    {
        last_position(&self.attr_keys, key)
    }

    /// The values of the numeric column of `key`.
    pub fn numeric_column(&self, key: &str) -> (r: Option<&[W]>)
        requires
            self.columns_wf(),
        ensures
            match column_for(self.attr_keys@, key@) {
                None => r is None,
                Some(c) => c < self.attr_columns@.len() && (r matches Some(column) && column@
                    == self.attr_columns@[c as int]@),
            },
    {
        match self.numeric_column_index(key) {
            None => None,
            Some(c) => Some(self.attr_columns[c].as_slice()),
        }
    }

    /// The region column of `key`; the last one where the key was asked for more than once.
    pub fn region_column_index(&self, key: &str) -> (r: Option<usize>)
        ensures
            r == column_for(self.region_keys@, key@),
            r matches Some(c) ==> c < self.region_keys@.len(),
    {
        last_position(&self.region_keys, key)
    }

    /// The weight of every edge, where weights were asked for.
    pub fn edge_weight_column(&self) -> (r: Option<&[W]>)
        ensures
            match self.edge_weights {
                None => r is None,
                Some(weights) => r matches Some(column) && column@ == weights@,
            },
    {
        match &self.edge_weights {
            None => None,
            Some(weights) => Some(weights.as_slice()),
        }
    }

    /// The other end and the index of every edge at `node`, in edge order.
    pub fn neighbors(&self, node: usize) -> (r: &[(u32, usize)])
        requires
            self.wf(),
            self.adjacency is Some,
            node < self.node_count,
        ensures
            r@ == incident(self.edges@, node as int, self.edges@.len() as int),
    {
        let adjacency = self.adjacency.as_ref().unwrap();
        proof {
            assert(adjacency.row(node as int) == incident(
                self.edges@,
                node as int,
                self.edges@.len() as int,
            ));
            assert(adjacency.offsets@[node as int] <= adjacency.offsets@[node + 1]);
            assert(adjacency.offsets@[node + 1] <= adjacency.neighbors@.len());
        }
        vstd::slice::slice_subrange(
            adjacency.neighbors.as_slice(),
            adjacency.offsets[node],
            adjacency.offsets[node + 1],
        )
    }
}

/// The last column whose key is `key`.
pub open spec fn column_for(keys: Seq<String>, key: Seq<char>) -> Option<usize>
    decreases keys.len(),
{
    if keys.len() == 0 {
        None
    } else if keys.last()@ == key {
        Some((keys.len() - 1) as usize)
    } else {
        column_for(keys.drop_last(), key)
    }
}

/// The last position of `key` among `keys`.
fn last_position(keys: &Vec<String>, key: &str) -> (r: Option<usize>)
    ensures
        r == column_for(keys@, key@),
        r matches Some(c) ==> c < keys@.len(),
{
    let mut n: usize = keys.len();
    proof {
        assert(keys@.take(n as int) =~= keys@);
    }
    while n > 0
        invariant
            n <= keys@.len(),
            column_for(keys@, key@) == column_for(
                keys@.take(n as int),
                key@,
            ),
        decreases n,
    {
        proof {
            assert(keys@.take(n as int).drop_last() =~= keys@.take(n - 1));
            assert(keys@.take(n as int).last() == keys@[n - 1]);
        }
        if same_text(keys[n - 1].as_str(), key) {
            return Some(n - 1);
        }
        n -= 1;
    }
    None
}

} // verus!

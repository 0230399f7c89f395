//! What graph loading promises, stated on the parsed records.
use crate::graph::{
    column_for, edge_before, edge_end, edge_sound, entry_sound, field_named, first_of_name,
    graph_sound, id_text, ids_sound, incident, interns, is_labelled, is_mentioned, labelled_among,
    last_weight, lists_edges, mention, mentions, mentions_among, names_among, numeric_sound,
    numeric_value, partial_value, region_name, region_names, repeats_id, resolves_to, texts, weighs,
    Graph, GraphLoadRequest, JsonField, JsonGraphData, Mention, NodeId, NumericProblem, Reading,
    Record,
};
use crate::metrics::counts::{indices, law_indices, law_listed, listed};
use crate::text::{reads_nan, trimmed};
use vstd::prelude::*;

verus! {

// ---------------------------------------------------------------------------------------------
// Fields
// ---------------------------------------------------------------------------------------------

/// A field is found exactly when some field has the name, and it is the first one with it.
pub proof fn law_field_named<W>(fields: Seq<(String, JsonField<W>)>, key: Seq<char>, i: int)
    requires
        0 <= i < fields.len(),
        fields[i].0@ == key,
        forall|j: int| 0 <= j < i ==> (#[trigger] fields[j]).0@ != key,
    ensures
        field_named(fields, key) == Some(fields[i].1),
    decreases fields.len(),
{
    if i > 0 {
        assert(fields[0].0@ != key);
        let rest = fields.drop_first();
        assert forall|j: int| 0 <= j < i - 1 implies (#[trigger] rest[j]).0@ != key by {
            assert(rest[j] == fields[j + 1]);
        }
        law_field_named(rest, key, i - 1);
    }
}

/// No field is found exactly when none has the name.
pub proof fn law_field_missing<W>(fields: Seq<(String, JsonField<W>)>, key: Seq<char>)
    ensures
        field_named(fields, key) is None <==> forall|j: int|
            0 <= j < fields.len() ==> (#[trigger] fields[j]).0@ != key,
    decreases fields.len(),
{
    if fields.len() > 0 {
        let rest = fields.drop_first();
        law_field_missing(rest, key);
        if fields[0].0@ != key {
            if forall|j: int| 0 <= j < rest.len() ==> (#[trigger] rest[j]).0@ != key {
                assert forall|j: int| 0 <= j < fields.len() implies (#[trigger] fields[j]).0@
                    != key by {
                    if j > 0 {
                        assert(rest[j - 1] == fields[j]);
                    }
                }
            }
            if forall|j: int| 0 <= j < fields.len() ==> (#[trigger] fields[j]).0@ != key {
                assert forall|j: int| 0 <= j < rest.len() implies (#[trigger] rest[j]).0@ != key by {
                    assert(rest[j] == fields[j + 1]);
                }
            }
        }
    }
}

/// A required number is the finite reading of a number or of a string, and every other field is
/// refused: a missing one as missing, a number that cannot be read as not real, a reading that is
/// not finite as such, and the rest as invalid.
pub proof fn law_numeric_value<W>(field: Option<JsonField<W>>, w: W)
    ensures
        numeric_value(field) == Ok::<W, NumericProblem>(w) <==> match field {
            Some(JsonField::Number { reading, .. }) => reading == Reading::Finite(w),
            Some(JsonField::Text { reading, .. }) => reading == Reading::Finite(w),
            _ => false,
        },
        numeric_value(field) == Err::<W, NumericProblem>(NumericProblem::Missing) <==> field
            is None,
        numeric_value(field) == Err::<W, NumericProblem>(NumericProblem::NotReal) <==> (
        field matches Some(JsonField::Number { reading, .. }) && reading is Unreadable),
        numeric_value(field) == Err::<W, NumericProblem>(NumericProblem::NonFinite) <==> match field {
            Some(JsonField::Number { reading, .. }) => !(reading is Finite) && !(reading
                is Unreadable),
            Some(JsonField::Text { reading, .. }) => !(reading is Finite) && !(reading
                is Unreadable),
            _ => false,
        },
{
}

/// An optional number is the finite reading of a number or of a string, and zero otherwise.
pub proof fn law_partial_value<W>(field: Option<JsonField<W>>, zero: W)
    ensures
        partial_value(field, zero) == match field {
            Some(JsonField::Number { reading: Reading::Finite(w), .. }) => w,
            Some(JsonField::Text { reading: Reading::Finite(w), .. }) => w,
            _ => zero,
        },
{
}

/// The region that a field names: the text of a number that is one, a string without the white space
/// around it unless that is empty or reads as not-a-number, and the name of a truth value.
pub proof fn law_region_name<W>(field: Option<JsonField<W>>)
    ensures
        field matches Some(JsonField::Number { text, reading }) ==> region_name(field) == (
        if reading is NotANumber || reading is Unreadable {
            None
        } else {
            Some(text@)
        }),
        field matches Some(JsonField::Text { value, .. }) ==> region_name(field) == (if trimmed(
            value@,
        ).len() == 0 || reads_nan(trimmed(value@)) {
            None
        } else {
            Some(trimmed(value@))
        }),
        field matches Some(JsonField::Bool(b)) ==> region_name(field) == Some(
            if b {
                "true"@
            } else {
                "false"@
            },
        ),
        field is None ==> region_name(field) is None,
        field matches Some(f) && (f is Null || f is Other) ==> region_name(field) is None,
{
}

// ---------------------------------------------------------------------------------------------
// Node ids
// ---------------------------------------------------------------------------------------------

/// The nodes with an id are counted.
pub proof fn law_labelled_among<W>(nodes: Seq<Record<W>>, n: int)
    requires
        0 <= n <= nodes.len(),
    ensures
        labelled_among(nodes, n) == Set::new(|p: int| 0 <= p < n && nodes[p].id is Some).len(),
    decreases n,
{
    let holds = |p: int| nodes[p].id is Some;
    assert(Set::new(|p: int| 0 <= p < n && nodes[p].id is Some) =~= indices(n, holds));
    law_indices(0, holds);
    if n > 0 {
        law_labelled_among(nodes, n - 1);
        law_indices(n - 1, holds);
        assert(Set::new(|p: int| 0 <= p < n - 1 && nodes[p].id is Some) =~= indices(n - 1, holds));
    }
}

/// Ids are sound exactly when no node has one, or every node has one and no two are alike.
pub proof fn law_ids_sound<W>(nodes: Seq<Record<W>>)
    ensures
        ids_sound(nodes) <==> (forall|p: int| 0 <= p < nodes.len() ==> (#[trigger] nodes[p]).id
            is None) || ((forall|p: int| 0 <= p < nodes.len() ==> (#[trigger] nodes[p]).id is Some)
            && forall|p: int, q: int|
            0 <= p < q < nodes.len() ==> (#[trigger] nodes[p]).id->0.text@ != (
            #[trigger] nodes[q]).id->0.text@),
{
    let n = nodes.len() as int;
    lemma_none_or_all(nodes, n);
    if ids_sound(nodes) && labelled_among(nodes, n) != 0 {
        assert forall|p: int, q: int| 0 <= p < q < nodes.len() implies (
        #[trigger] nodes[p]).id->0.text@ != (#[trigger] nodes[q]).id->0.text@ by {
            assert(!repeats_id(nodes, q));
            assert(id_text(nodes[p]) != id_text(nodes[q]));
        }
    }
    if (forall|p: int| 0 <= p < nodes.len() ==> (#[trigger] nodes[p]).id is Some) && (forall|
        p: int,
        q: int,
    |
        0 <= p < q < nodes.len() ==> (#[trigger] nodes[p]).id->0.text@ != (
        #[trigger] nodes[q]).id->0.text@) {
        assert forall|q: int| 0 <= q < nodes.len() implies !#[trigger] repeats_id(nodes, q) by {
            if repeats_id(nodes, q) {
                let p = choose|p: int|
                    0 <= p < q && id_text(#[trigger] nodes[p]) == id_text(nodes[q]);
                assert(nodes[p].id->0.text@ != nodes[q].id->0.text@);
            }
        }
    }
}

proof fn lemma_none_or_all<W>(nodes: Seq<Record<W>>, n: int)
    requires
        0 <= n <= nodes.len(),
    ensures
        labelled_among(nodes, n) <= n,
        labelled_among(nodes, n) == n <==> forall|p: int|
            0 <= p < n ==> (#[trigger] nodes[p]).id is Some,
        labelled_among(nodes, n) == 0 <==> forall|p: int|
            0 <= p < n ==> (#[trigger] nodes[p]).id is None,
    decreases n,
{
    if n > 0 {
        lemma_none_or_all(nodes, n - 1);
        assert(nodes[n - 1].id is Some || nodes[n - 1].id is None);
    }
}

/// An edge's id refers to the node that carries it, or, where nodes carry none, to the node at that
/// position; so to one node only.
pub proof fn law_edge_end<W>(nodes: Seq<Record<W>>, id: NodeId, t: int)
    requires
        ids_sound(nodes),
        nodes.len() <= u32::MAX,
        0 <= t < nodes.len(),
        if nodes[0].id is Some {
            nodes[t].id->0.text@ == id.text@
        } else {
            id.unsigned == Some(t as u64)
        },
    ensures
        resolves_to(nodes, id, t),
        edge_end(nodes, id) == t,
{
    law_ids_sound(nodes);
    assert(resolves_to(nodes, id, t));
    let found = edge_end(nodes, id);
    assert(resolves_to(nodes, id, found));
    if nodes[0].id is Some {
        assert(is_labelled(nodes));
        if found < t {
            assert(nodes[found].id->0.text@ != nodes[t].id->0.text@);
        }
        if t < found {
            assert(nodes[t].id->0.text@ != nodes[found].id->0.text@);
        }
    }
}

// ---------------------------------------------------------------------------------------------
// Regions
// ---------------------------------------------------------------------------------------------

/// The different names are counted where each appears first.
pub proof fn law_names_among(names: Seq<Option<Seq<char>>>, n: int)
    requires
        0 <= n <= names.len(),
    ensures
        names_among(names, n) == Set::new(
            |i: int|
                0 <= i < n && names[i] is Some && forall|j: int|
                    0 <= j < i ==> #[trigger] names[j] != names[i],
        ).len(),
    decreases n,
{
    let holds = |i: int|
        names[i] is Some && forall|j: int| 0 <= j < i ==> #[trigger] names[j] != names[i];
    assert(Set::new(
        |i: int|
            0 <= i < n && names[i] is Some && forall|j: int|
                0 <= j < i ==> #[trigger] names[j] != names[i],
    ) =~= indices(n, holds));
    law_indices(0, holds);
    if n > 0 {
        law_names_among(names, n - 1);
        law_indices(n - 1, holds);
        assert(Set::new(
            |i: int|
                0 <= i < n - 1 && names[i] is Some && forall|j: int|
                    0 <= j < i ==> #[trigger] names[j] != names[i],
        ) =~= indices(n - 1, holds));
        assert(first_of_name(names, n - 1) == holds(n - 1));
    }
}

/// Regions are numbered by name: a node has a number exactly when it names a region, two nodes have
/// the same number exactly when they name the same region, and the number is the number of regions
/// named before that region was named first.
pub proof fn law_region_numbers(
    names: Seq<Option<Seq<char>>>,
    column: Seq<Option<u32>>,
    i: int,
    j: int,
)
    requires
        interns(names, column),
        names.len() <= u32::MAX,
        0 <= i < names.len(),
        0 <= j < names.len(),
    ensures
        column.len() == names.len(),
        column[i] is Some <==> names[i] is Some,
        names[i] is Some && names[j] is Some ==> (column[i] == column[j] <==> names[i]
            == names[j]),
        names[i] is Some && j <= i && names[j] == names[i] && (forall|k: int|
            0 <= k < j ==> #[trigger] names[k] != names[i]) ==> column[i]->0 == Set::new(
            |x: int|
                0 <= x < j && names[x] is Some && forall|y: int|
                    0 <= y < x ==> #[trigger] names[y] != names[x],
        ).len(),
{
    assert(column[i] is Some <==> names[i] is Some);
    assert(column[j] is Some <==> names[j] is Some);
    if names[i] is Some && j <= i && names[j] == names[i] && (forall|k: int|
        0 <= k < j ==> #[trigger] names[k] != names[i]) {
        assert(first_of_name(names, j));
        law_names_among(names, j);
        lemma_few_names(names, j);
        assert(column[j] == Some(names_among(names, j) as u32));
        assert(column[i] == column[j]);
        assert(Set::new(
            |x: int|
                0 <= x < j && names[x] is Some && forall|y: int|
                    0 <= y < x ==> #[trigger] names[y] != names[x],
        ) =~= Set::new(
            |i: int|
                0 <= i < j && names[i] is Some && forall|j: int|
                    0 <= j < i ==> #[trigger] names[j] != names[i],
        ));
    }
}

proof fn lemma_few_names(names: Seq<Option<Seq<char>>>, n: int)
    requires
        0 <= n,
    ensures
        names_among(names, n) <= n,
    decreases n,
{
    if n > 0 {
        lemma_few_names(names, n - 1);
    }
}

// ---------------------------------------------------------------------------------------------
// Edges
// ---------------------------------------------------------------------------------------------

/// One list more adds its records as mentions, in order: each joins the node of the list with the
/// node that its id refers to, and carries its finite number under the weight key, if it has one.
pub proof fn law_mentions_of_a_list<W>(
    data: JsonGraphData<W>,
    key: Option<Seq<char>>,
    s: int,
    j: int,
)
    requires
        0 <= s < data.adjacency@.len(),
        data.adjacency@[s] is Some,
        0 <= j < data.adjacency@[s]->0@.len(),
    ensures
        mentions_among(data, key, 0).len() == 0,
        mentions_among(data, key, s + 1).len() == mentions_among(data, key, s).len()
            + data.adjacency@[s]->0@.len(),
        mentions_among(data, key, s + 1).take(mentions_among(data, key, s).len() as int)
            == mentions_among(data, key, s),
        ({
            let record = data.adjacency@[s]->0@[j];
            let t = edge_end(data.nodes@, record.id->0);
            let made = mentions_among(data, key, s + 1)[mentions_among(data, key, s).len() + j];
            &&& (made.lo == s && made.hi == t && s <= t) || (made.lo == t && made.hi == s && t < s)
            &&& made.weight == match key {
                None => None,
                Some(k) => match field_named(record.fields@, k) {
                    Some(JsonField::Number { reading: Reading::Finite(w), .. }) => Some(w),
                    Some(JsonField::Text { reading: Reading::Finite(w), .. }) => Some(w),
                    _ => None,
                },
            }
        }),
{
    let before = mentions_among(data, key, s);
    assert(mentions_among(data, key, s + 1).take(before.len() as int) =~= before);
}

proof fn lemma_mention_at<W>(data: JsonGraphData<W>, key: Option<Seq<char>>, n: int, s: int, j: int)
    requires
        0 <= s < n <= data.adjacency@.len(),
        0 <= j < data.adjacency@[s]->0@.len(),
    ensures
        exists|k: int|
            0 <= k < mentions_among(data, key, n).len() && #[trigger] mentions_among(
                data,
                key,
                n,
            )[k] == mention(data.nodes@, key, s, data.adjacency@[s]->0@[j]),
    decreases n,
{
    let made = mention(data.nodes@, key, s, data.adjacency@[s]->0@[j]);
    let before = mentions_among(data, key, n - 1);
    let all = mentions_among(data, key, n);
    if s == n - 1 {
        assert(all[before.len() + j] == made);
    } else {
        lemma_mention_at(data, key, n - 1, s, j);
        let k = choose|k: int| 0 <= k < before.len() && #[trigger] before[k] == made;
        assert(all[k] == made);
    }
}

proof fn lemma_mention_of<W>(data: JsonGraphData<W>, key: Option<Seq<char>>, n: int, k: int)
    requires
        0 <= n <= data.adjacency@.len(),
        0 <= k < mentions_among(data, key, n).len(),
    ensures
        exists|s: int, j: int|
            #![trigger data.adjacency@[s]->0@[j]]
            0 <= s < n && 0 <= j < data.adjacency@[s]->0@.len() && mentions_among(data, key, n)[k]
                == mention(data.nodes@, key, s, data.adjacency@[s]->0@[j]),
    decreases n,
{
    if n > 0 {
        let before = mentions_among(data, key, n - 1);
        let all = mentions_among(data, key, n);
        if k < before.len() {
            lemma_mention_of(data, key, n - 1, k);
            assert(all[k] == before[k]);
            let (s, j) = choose|s: int, j: int|
                #![trigger data.adjacency@[s]->0@[j]]
                0 <= s < n - 1 && 0 <= j < data.adjacency@[s]->0@.len() && before[k] == mention(
                    data.nodes@,
                    key,
                    s,
                    data.adjacency@[s]->0@[j],
                );
            assert(all[k] == mention(data.nodes@, key, s, data.adjacency@[s]->0@[j]));
        } else {
            let j = k - before.len();
            assert(all[k] == mention(data.nodes@, key, n - 1, data.adjacency@[n - 1]->0@[j]));
        }
    }
}

/// The edges of a graph are the pairs of nodes of which one's list names the other, each once, with
/// the smaller end first, in ascending order.
pub proof fn law_listed_edges<W>(
    data: JsonGraphData<W>,
    key: Option<Seq<char>>,
    edges: Seq<(u32, u32)>,
    a: int,
    b: int,
)
    requires
        lists_edges(edges, mentions(data, key)),
        data.nodes@.len() <= u32::MAX,
        data.adjacency@.len() == data.nodes@.len(),
        forall|s: int|
            0 <= s < data.adjacency@.len() ==> entry_sound(data.nodes@, #[trigger] data.adjacency@[s]),
        0 <= a <= b < data.nodes@.len(),
    ensures
        edges.contains((a as u32, b as u32)) <==> exists|s: int, j: int|
            #![trigger data.adjacency@[s]->0@[j]]
            0 <= s < data.adjacency@.len() && 0 <= j < data.adjacency@[s]->0@.len() && {
                let t = edge_end(data.nodes@, data.adjacency@[s]->0@[j].id->0);
                (s == a && t == b) || (s == b && t == a)
            },
        forall|i: int, j: int|
            0 <= i < j < edges.len() ==> (#[trigger] edges[i]).0 < (#[trigger] edges[j]).0 || (
            edges[i].0 == edges[j].0 && edges[i].1 < edges[j].1),
{
    let n = data.adjacency@.len() as int;
    let ms = mentions(data, key);
    let edge = (a as u32, b as u32);
    assert forall|i: int, j: int| 0 <= i < j < edges.len() implies (#[trigger] edges[i]).0 < (
    #[trigger] edges[j]).0 || (edges[i].0 == edges[j].0 && edges[i].1 < edges[j].1) by {
        assert(edge_before(edges[i], edges[j]));
    }
    if edges.contains(edge) {
        let i = choose|i: int| 0 <= i < edges.len() && edges[i] == edge;
        assert(is_mentioned(ms, edges[i].0 as int, edges[i].1 as int));
        let k = choose|k: int|
            0 <= k < ms.len() && (#[trigger] ms[k]).lo == a && ms[k].hi == b;
        lemma_mention_of(data, key, n, k);
        let (s, j) = choose|s: int, j: int|
            #![trigger data.adjacency@[s]->0@[j]]
            0 <= s < n && 0 <= j < data.adjacency@[s]->0@.len() && ms[k] == mention(
                data.nodes@,
                key,
                s,
                data.adjacency@[s]->0@[j],
            );
        let t = edge_end(data.nodes@, data.adjacency@[s]->0@[j].id->0);
        assert((s == a && t == b) || (s == b && t == a));
    }
    if exists|s: int, j: int|
        #![trigger data.adjacency@[s]->0@[j]]
        0 <= s < data.adjacency@.len() && 0 <= j < data.adjacency@[s]->0@.len() && {
            let t = edge_end(data.nodes@, data.adjacency@[s]->0@[j].id->0);
            (s == a && t == b) || (s == b && t == a)
        } {
        let (s, j) = choose|s: int, j: int|
            #![trigger data.adjacency@[s]->0@[j]]
            0 <= s < data.adjacency@.len() && 0 <= j < data.adjacency@[s]->0@.len() && {
                let t = edge_end(data.nodes@, data.adjacency@[s]->0@[j].id->0);
                (s == a && t == b) || (s == b && t == a)
            };
        lemma_mention_at(data, key, n, s, j);
        let made = mention(data.nodes@, key, s, data.adjacency@[s]->0@[j]);
        let k = choose|k: int| 0 <= k < ms.len() && #[trigger] ms[k] == made;
        assert(ms[k].lo == a && ms[k].hi == b);
        assert(edges.contains((ms[k].lo as u32, ms[k].hi as u32)));
    }
}

/// The weight of an edge comes from its last mention that carries one.
pub proof fn law_last_weight<W>(ms: Seq<Mention<W>>, lo: int, hi: int, k: int)
    ensures
        last_weight(ms, lo, hi) is None <==> forall|j: int|
            0 <= j < ms.len() && (#[trigger] ms[j]).lo == lo && ms[j].hi == hi ==> ms[j].weight
                is None,
        0 <= k < ms.len() && ms[k].lo == lo && ms[k].hi == hi && ms[k].weight is Some && (forall|
            j: int,
        |
            k < j < ms.len() && (#[trigger] ms[j]).lo == lo && ms[j].hi == hi ==> ms[j].weight
                is None) ==> last_weight(ms, lo, hi) == ms[k].weight,
    decreases ms.len(),
{
    if ms.len() > 0 {
        let shorter = ms.drop_last();
        let last = ms.last();
        let end = ms.len() - 1;
        assert(ms[end] == last);
        law_last_weight(shorter, lo, hi, k);
        if !(last.lo == lo && last.hi == hi && last.weight is Some) {
            if forall|j: int|
                0 <= j < shorter.len() && (#[trigger] shorter[j]).lo == lo && shorter[j].hi == hi
                    ==> shorter[j].weight is None {
                assert forall|j: int|
                    0 <= j < ms.len() && (#[trigger] ms[j]).lo == lo && ms[j].hi == hi implies ms[j].weight
                    is None by {
                    if j < end {
                        assert(shorter[j] == ms[j]);
                    }
                }
            }
            if forall|j: int|
                0 <= j < ms.len() && (#[trigger] ms[j]).lo == lo && ms[j].hi == hi ==> ms[j].weight
                    is None {
                assert forall|j: int|
                    0 <= j < shorter.len() && (#[trigger] shorter[j]).lo == lo && shorter[j].hi
                        == hi implies shorter[j].weight is None by {
                    assert(shorter[j] == ms[j]);
                }
            }
            if 0 <= k < ms.len() && ms[k].lo == lo && ms[k].hi == hi && ms[k].weight is Some && (
            forall|j: int|
                k < j < ms.len() && (#[trigger] ms[j]).lo == lo && ms[j].hi == hi ==> ms[j].weight
                    is None) {
                assert(k < end);
                assert(shorter[k] == ms[k]);
                assert forall|j: int|
                    k < j < shorter.len() && (#[trigger] shorter[j]).lo == lo && shorter[j].hi
                        == hi implies shorter[j].weight is None by {
                    assert(shorter[j] == ms[j]);
                }
            }
        }
    }
}

/// Every edge has a weight: that of its last mention with one, or else the default.
pub proof fn law_edge_weights<W>(
    weights: Seq<W>,
    edges: Seq<(u32, u32)>,
    ms: Seq<Mention<W>>,
    default_value: W,
    i: int,
)
    requires
        weighs(weights, edges, ms, default_value),
        0 <= i < edges.len(),
    ensures
        weights.len() == edges.len(),
        weights[i] == match last_weight(ms, edges[i].0 as int, edges[i].1 as int) {
            Some(w) => w,
            None => default_value,
        },
{
}

/// The edges at a node are listed in edge order, each with its other end.
pub proof fn law_incident_listed(edges: Seq<(u32, u32)>, node: int, n: int)
    requires
        0 <= n <= edges.len() <= usize::MAX,
    ensures
        incident(edges, node, n) == listed(
            n,
            |e: int| edges[e].0 == node || edges[e].1 == node,
        ).map_values(
            |e: int|
                (
                    if edges[e].0 == node {
                        edges[e].1
                    } else {
                        edges[e].0
                    },
                    e as usize,
                ),
        ),
    decreases n,
{
    let here = |e: int| edges[e].0 == node || edges[e].1 == node;
    law_listed(n - 1, here);
    law_listed(0, here);
    if n > 0 {
        law_incident_listed(edges, node, n - 1);
    }
    assert(incident(edges, node, n) =~= listed(n, here).map_values(
        |e: int|
            (
                if edges[e].0 == node {
                    edges[e].1
                } else {
                    edges[e].0
                },
                e as usize,
            ),
    ));
}

// ---------------------------------------------------------------------------------------------
// The graph
// ---------------------------------------------------------------------------------------------

/// A key's column is the last one asked for under that name.
pub proof fn law_column_for(keys: Seq<String>, key: Seq<char>, c: int)
    requires
        keys.len() <= usize::MAX,
    ensures
        column_for(keys, key) is None <==> forall|k: int|
            0 <= k < keys.len() ==> (#[trigger] keys[k])@ != key,
        0 <= c < keys.len() && keys[c]@ == key && (forall|k: int|
            c < k < keys.len() ==> (#[trigger] keys[k])@ != key) ==> column_for(keys, key) == Some(
            c as usize,
        ),
    decreases keys.len(),
{
    if keys.len() > 0 {
        let shorter = keys.drop_last();
        let end = keys.len() - 1;
        assert(keys[end] == keys.last());
        law_column_for(shorter, key, c);
        if keys.last()@ != key {
            if forall|k: int| 0 <= k < shorter.len() ==> (#[trigger] shorter[k])@ != key {
                assert forall|k: int| 0 <= k < keys.len() implies (#[trigger] keys[k])@ != key by {
                    if k < end {
                        assert(shorter[k] == keys[k]);
                    }
                }
            }
            if forall|k: int| 0 <= k < keys.len() ==> (#[trigger] keys[k])@ != key {
                assert forall|k: int| 0 <= k < shorter.len() implies (#[trigger] shorter[k])@
                    != key by {
                    assert(shorter[k] == keys[k]);
                }
            }
            if 0 <= c < keys.len() && keys[c]@ == key && (forall|k: int|
                c < k < keys.len() ==> (#[trigger] keys[k])@ != key) {
                assert(c < end);
                assert(shorter[c] == keys[c]);
                assert forall|k: int| c < k < shorter.len() implies (#[trigger] shorter[k])@
                    != key by {
                    assert(shorter[k] == keys[k]);
                }
            }
        }
    }
}

/// What a loaded graph holds of a node: under each required key the number that its field holds,
/// under each optional key that number or zero, and a region number exactly where it names a region.
pub proof fn law_loaded_node<W>(
    graph: Graph<W>,
    data: JsonGraphData<W>,
    request: GraphLoadRequest<W>,
    zero: W,
    i: int,
    c: int,
)
    requires
        graph.loads(data, request, zero),
        0 <= i < data.nodes@.len(),
        0 <= c,
    ensures
        graph.node_count == data.nodes@.len(),
        c < request.numeric_keys@.len() ==> graph.attr_keys@[c]@ == request.numeric_keys@[c]@ && (
        match field_named(data.nodes@[i].fields@, request.numeric_keys@[c]@) {
            Some(JsonField::Number { reading, .. }) => reading == Reading::Finite(
                graph.attr_columns@[c]@[i],
            ),
            Some(JsonField::Text { reading, .. }) => reading == Reading::Finite(
                graph.attr_columns@[c]@[i],
            ),
            _ => false,
        }),
        c < request.partial_numeric_keys@.len() ==> graph.attr_keys@[request.numeric_keys@.len()
            + c]@ == request.partial_numeric_keys@[c]@ && graph.attr_columns@[request.numeric_keys@.len()
            + c]@[i] == (match field_named(
            data.nodes@[i].fields@,
            request.partial_numeric_keys@[c]@,
        ) {
            Some(JsonField::Number { reading: Reading::Finite(w), .. }) => w,
            Some(JsonField::Text { reading: Reading::Finite(w), .. }) => w,
            _ => zero,
        }),
        c < request.region_keys@.len() ==> graph.region_keys@[c]@ == request.region_keys@[c]@ && (
        graph.region_columns@[c]@[i] is Some <==> region_name(
            field_named(data.nodes@[i].fields@, request.region_keys@[c]@),
        ) is Some),
        graph.edge_weights is Some <==> request.edge_weight is Some,
        graph.adjacency is Some <==> request.need_adjacency,
{
    let required = request.numeric_keys@;
    let optional = request.partial_numeric_keys@;
    let keys = texts(required) + texts(optional);
    assert(texts(graph.attr_keys@) == keys);
    assert(texts(graph.attr_keys@).len() == graph.attr_keys@.len());
    if c < required.len() {
        assert(texts(graph.attr_keys@)[c] == keys[c]);
        let value = graph.attr_columns@[c]@[i];
        assert(numeric_value(data.nodes@[i].field(required[c]@)) == Ok::<W, NumericProblem>(value));
    }
    if c < optional.len() {
        let at = required.len() + c;
        assert(texts(graph.attr_keys@)[at] == keys[at]);
        let value = graph.attr_columns@[at]@[i];
        assert(value == partial_value(data.nodes@[i].field(optional[at - required.len()]@), zero));
    }
    if c < request.region_keys@.len() {
        assert(texts(graph.region_keys@).len() == texts(request.region_keys@).len());
        assert(graph.region_keys@.len() == request.region_keys@.len());
        assert(texts(graph.region_keys@)[c] == texts(request.region_keys@)[c]);
        let names = region_names(data.nodes@, request.region_keys@[c]@);
        assert(interns(names, graph.region_columns@[c]@));
        assert(names[i] == region_name(data.nodes@[i].field(request.region_keys@[c]@)));
        assert(graph.region_columns@[c]@[i] is Some <==> names[i] is Some);
    }
}

/// A loaded graph joins two nodes exactly when the list of one of them names the other. Each region
/// column counts its regions.
pub proof fn law_loaded_edges<W>(
    graph: Graph<W>,
    data: JsonGraphData<W>,
    request: GraphLoadRequest<W>,
    zero: W,
    a: int,
    b: int,
)
    requires
        graph.loads(data, request, zero),
        data.nodes@.len() <= u32::MAX,
        data.adjacency@.len() == data.nodes@.len(),
        forall|s: int|
            0 <= s < data.adjacency@.len() ==> entry_sound(data.nodes@, #[trigger] data.adjacency@[s]),
        0 <= a <= b < data.nodes@.len(),
    ensures
        graph.edges@.contains((a as u32, b as u32)) <==> exists|s: int, j: int|
            #![trigger data.adjacency@[s]->0@[j]]
            0 <= s < data.adjacency@.len() && 0 <= j < data.adjacency@[s]->0@.len() && {
                let t = edge_end(data.nodes@, data.adjacency@[s]->0@[j].id->0);
                (s == a && t == b) || (s == b && t == a)
            },
        forall|c: int|
            0 <= c < graph.region_columns@.len() ==> #[trigger] graph.region_id_counts@[c]
                == names_among(
                region_names(data.nodes@, request.region_keys@[c]@),
                data.nodes@.len() as int,
            ),
{
    let key = match request.edge_weight {
        None => None,
        Some(wanted) => Some(wanted.key@),
    };
    law_listed_edges(data, key, graph.edges@, a, b);
    assert forall|c: int|
        0 <= c < graph.region_columns@.len() implies #[trigger] graph.region_id_counts@[c]
        == names_among(
        region_names(data.nodes@, request.region_keys@[c]@),
        data.nodes@.len() as int,
    ) by {
        assert(interns(
            region_names(data.nodes@, request.region_keys@[c]@),
            graph.region_columns@[c]@,
        ));
    }
}

/// A graph can be loaded exactly when it is not directed, its ids are on no node or on every node and
/// all different, every required field is a finite number, and there is a list for every node whose
/// records all refer to a node.
pub proof fn law_graph_sound<W>(data: JsonGraphData<W>, request: GraphLoadRequest<W>)
    ensures
        graph_sound(data, request) <==> {
            &&& !data.directed
            &&& ids_sound(data.nodes@)
            &&& forall|k: int, i: int|
                0 <= k < request.numeric_keys@.len() && 0 <= i < data.nodes@.len() ==> match (
                #[trigger] data.nodes@[i]).field((#[trigger] request.numeric_keys@[k])@) {
                    Some(JsonField::Number { reading, .. }) => reading is Finite,
                    Some(JsonField::Text { reading, .. }) => reading is Finite,
                    _ => false,
                }
            &&& data.adjacency@.len() == data.nodes@.len()
            &&& forall|s: int|
                0 <= s < data.adjacency@.len() ==> (#[trigger] data.adjacency@[s]) is Some
            &&& forall|s: int, j: int|
                0 <= s < data.adjacency@.len() && 0 <= j < data.adjacency@[s]->0@.len() ==> (
                #[trigger] data.adjacency@[s]->0@[j]).id is Some && exists|t: int|
                    #[trigger] resolves_to(data.nodes@, data.adjacency@[s]->0@[j].id->0, t)
        },
{
    let nodes = data.nodes@;
    let keys = request.numeric_keys@;
    if graph_sound(data, request) {
        assert forall|k: int, i: int| 0 <= k < keys.len() && 0 <= i < nodes.len() implies match (
        #[trigger] nodes[i]).field((#[trigger] keys[k])@) {
            Some(JsonField::Number { reading, .. }) => reading is Finite,
            Some(JsonField::Text { reading, .. }) => reading is Finite,
            _ => false,
        } by {
            assert(numeric_value(nodes[i].field(keys[k]@)) is Ok);
        }
        assert forall|s: int| 0 <= s < data.adjacency@.len() implies (
        #[trigger] data.adjacency@[s]) is Some by {
            assert(entry_sound(nodes, data.adjacency@[s]));
        }
        assert forall|s: int, j: int|
            0 <= s < data.adjacency@.len() && 0 <= j < data.adjacency@[s]->0@.len() implies (
        #[trigger] data.adjacency@[s]->0@[j]).id is Some && exists|t: int|
            #[trigger] resolves_to(nodes, data.adjacency@[s]->0@[j].id->0, t) by {
            assert(entry_sound(nodes, data.adjacency@[s]));
            assert(edge_sound(nodes, data.adjacency@[s]->0@[j]));
        }
    }
    if {
        &&& !data.directed
        &&& ids_sound(nodes)
        &&& forall|k: int, i: int|
            0 <= k < keys.len() && 0 <= i < nodes.len() ==> match (#[trigger] nodes[i]).field(
                (#[trigger] keys[k])@,
            ) {
                Some(JsonField::Number { reading, .. }) => reading is Finite,
                Some(JsonField::Text { reading, .. }) => reading is Finite,
                _ => false,
            }
        &&& data.adjacency@.len() == nodes.len()
        &&& forall|s: int|
            0 <= s < data.adjacency@.len() ==> (#[trigger] data.adjacency@[s]) is Some
        &&& forall|s: int, j: int|
            0 <= s < data.adjacency@.len() && 0 <= j < data.adjacency@[s]->0@.len() ==> (
            #[trigger] data.adjacency@[s]->0@[j]).id is Some && exists|t: int|
                #[trigger] resolves_to(nodes, data.adjacency@[s]->0@[j].id->0, t)
    } {
        assert(numeric_sound(nodes, keys)) by {
            assert forall|k: int, i: int|
                0 <= k < keys.len() && 0 <= i < nodes.len() implies numeric_value(
                (#[trigger] nodes[i]).field((#[trigger] keys[k])@),
            ) is Ok by {}
        }
        assert forall|s: int| 0 <= s < data.adjacency@.len() implies entry_sound(
            nodes,
            #[trigger] data.adjacency@[s],
        ) by {
            let row = data.adjacency@[s]->0@;
            assert forall|j: int| 0 <= j < row.len() implies edge_sound(nodes, #[trigger] row[j]) by {
                assert(data.adjacency@[s]->0@[j].id is Some);
            }
        }
    }
}

} // verus!

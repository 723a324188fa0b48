//! Deterministic graph analytics over node ids: the directed adjacency and
//! the fan-in / fan-out of every node, including nodes that only relations
//! mention.

use vstd::prelude::*;
use vstd::multiset::Multiset;
use crate::health::{canonical, canonical_nodes, id_views, node_ids};
use crate::model::{Graph, GraphNodeId, RelationView};
use crate::strmap::{count_add, count_touch, counts, keys_of, lemma_counts_empty, lemma_sorted_listing, lemma_strictly_sorted_unique, sorted_listing};

verus! {

broadcast use {vstd::seq_lib::group_seq_properties, vstd::seq_lib::group_to_multiset_ensures};

/// The sources of the relations, in order.
pub open spec fn sources(rels: Seq<RelationView>) -> Seq<Seq<char>> {
    rels.map_values(|r: RelationView| r.source)
}

/// The targets of the relations, in order.
pub open spec fn targets(rels: Seq<RelationView>) -> Seq<Seq<char>> {
    rels.map_values(|r: RelationView| r.target)
}

/// Every node id and every relation end.
pub open spec fn all_ids(g: crate::model::GraphView) -> Set<Seq<char>> {
    node_ids(g.nodes).to_set().union(sources(g.relations).to_set()).union(targets(g.relations).to_set())
}

/// Every id once, increasing, with how many relations end at it and how
/// many start at it.
pub open spec fn degree_rows(g: crate::model::GraphView) -> Seq<(Seq<char>, nat, nat)> {
    sorted_listing(all_ids(g)).map_values(
        |k: Seq<char>| (k, targets(g.relations).to_multiset().count(k), sources(g.relations).to_multiset().count(k)),
    )
}

/// The targets of the relations that start at `id`, in relation order.
pub open spec fn out_targets(rels: Seq<RelationView>, id: Seq<char>) -> Seq<Seq<char>>
    decreases rels.len(),
{
    if rels.len() == 0 {
        Seq::empty()
    } else if rels.last().source == id {
        out_targets(rels.drop_last(), id).push(rels.last().target)
    } else {
        out_targets(rels.drop_last(), id)
    }
}

/// Every id once, increasing, with the distinct targets of its relations, increasing.
pub open spec fn adjacency_rows(g: crate::model::GraphView) -> Seq<(Seq<char>, Seq<Seq<char>>)> {
    sorted_listing(all_ids(g)).map_values(|k: Seq<char>| (k, canonical_nodes(out_targets(g.relations, k))))
}

/// Builds a count table over every id of the graph: it counts the targets
/// when `inbound`, else the sources.
fn end_table(graph: &Graph, inbound: bool) -> (t: Vec<(String, usize)>)
    requires
        graph.relations@.len() < usize::MAX,
    ensures
        strictly_sorted_keys(t@),
        keys_of(t@).to_set() == all_ids(graph@),
        forall|k: int| 0 <= k < t@.len() ==> (#[trigger] t@[k]).1 as nat == (if inbound {
            targets(graph@.relations)
        } else {
            sources(graph@.relations)
        }).to_multiset().count(t@[k].0@),
{
    let ghost g = graph@;
    let ghost counted = if inbound { targets(g.relations) } else { sources(g.relations) };
    let ghost other = if inbound { sources(g.relations) } else { targets(g.relations) };
    let mut table: Vec<(String, usize)> = Vec::new();
    proof {
        lemma_counts_empty();
        assert(node_ids(graph.nodes@).subrange(0, 0).to_set() =~= Set::<Seq<char>>::empty());
    }
    let mut i: usize = 0;
    while i < graph.nodes.len()
        invariant
            i <= graph.nodes@.len(),
            counts(table@, node_ids(graph.nodes@).subrange(0, i as int).to_set(), Multiset::empty()),
        decreases graph.nodes@.len() - i,
    {
        let ghost keys = node_ids(graph.nodes@).subrange(0, i as int).to_set();
        count_touch(&mut table, graph.nodes[i].id().as_str(), Ghost(keys), Ghost(Multiset::empty()));
        assert(node_ids(graph.nodes@).subrange(0, i + 1) =~= node_ids(graph.nodes@).subrange(0, i as int).push(
            crate::model::node_id(graph.nodes@[i as int]),
        ));
        assert(node_ids(graph.nodes@).subrange(0, i + 1).to_set() =~= keys.insert(crate::model::node_id(graph.nodes@[i as int])));
        i = i + 1;
    }
    assert(node_ids(graph.nodes@).subrange(0, i as int) =~= node_ids(graph.nodes@));
    assert(Seq::<Seq<char>>::empty().to_multiset() =~= Multiset::<Seq<char>>::empty());
    assert(other.subrange(0, 0) =~= Seq::<Seq<char>>::empty());
    assert(counted.subrange(0, 0) =~= Seq::<Seq<char>>::empty());
    assert(other.subrange(0, 0).to_set() =~= Set::<Seq<char>>::empty());
    assert(node_ids(graph.nodes@).to_set().union(Set::<Seq<char>>::empty()) =~= node_ids(graph.nodes@).to_set());
    let mut j: usize = 0;
    while j < graph.relations.len()
        invariant
            j <= graph.relations@.len(),
            graph.relations@.len() < usize::MAX,
            g == graph@,
            counted == (if inbound { targets(g.relations) } else { sources(g.relations) }),
            other == (if inbound { sources(g.relations) } else { targets(g.relations) }),
            counted.len() == g.relations.len(),
            other.len() == g.relations.len(),
            counts(table@, node_ids(graph.nodes@).to_set().union(other.subrange(0, j as int).to_set()), counted.subrange(0, j as int).to_multiset()),
        decreases graph.relations@.len() - j,
    {
        let r = &graph.relations[j];
        assert(g.relations[j as int] == r@);
        let ghost keys = node_ids(graph.nodes@).to_set().union(other.subrange(0, j as int).to_set());
        let ghost items = counted.subrange(0, j as int).to_multiset();
        let (touch, add) = if inbound {
            (r.source.as_str(), r.target.as_str())
        } else {
            (r.target.as_str(), r.source.as_str())
        };
        assert(touch@ == other[j as int] && add@ == counted[j as int]);
        count_touch(&mut table, touch, Ghost(keys), Ghost(items));
        count_add(&mut table, add, Ghost(keys.insert(touch@)), Ghost(items));
        assert(other.subrange(0, j + 1) =~= other.subrange(0, j as int).push(touch@));
        assert(counted.subrange(0, j + 1) =~= counted.subrange(0, j as int).push(add@));
        assert(node_ids(graph.nodes@).to_set().union(other.subrange(0, j + 1).to_set()) =~= keys.insert(touch@));
        j = j + 1;
    }
    assert(other.subrange(0, j as int) =~= other);
    assert(counted.subrange(0, j as int) =~= counted);
    assert(node_ids(graph.nodes@).to_set().union(other.to_set()).union(counted.to_multiset().dom()) =~= all_ids(g)) by {
        assert forall|x: Seq<char>| counted.to_multiset().dom().contains(x) <==> counted.to_set().contains(x) by {
            assert(counted.contains(x) <==> counted.to_multiset().count(x) > 0);
        }
    }
    table
}

/// Keys strictly increase.
pub open spec fn strictly_sorted_keys(t: Seq<(String, usize)>) -> bool {
    crate::strmap::strictly_sorted(keys_of(t))
}


/// The values of degree rows.
pub open spec fn metric_row_views(r: Seq<(GraphNodeId, usize, usize)>) -> Seq<(Seq<char>, nat, nat)> {
    r.map_values(|e: (GraphNodeId, usize, usize)| (e.0@, e.1 as nat, e.2 as nat))
}

/// The values of adjacency rows.
pub open spec fn adjacency_row_views(r: Seq<(GraphNodeId, Vec<GraphNodeId>)>) -> Seq<(Seq<char>, Seq<Seq<char>>)> {
    r.map_values(|e: (GraphNodeId, Vec<GraphNodeId>)| (e.0@, id_views(e.1@)))
}

/// Deterministic degree/fan metric baseline: every node id and relation
/// end once, in increasing order, with its fan-in and fan-out.
pub fn degree_metrics(graph: &Graph) -> (r: Vec<(GraphNodeId, usize, usize)>)
    requires
        graph.relations@.len() < usize::MAX,
    ensures
        metric_row_views(r@) == degree_rows(graph@),
{
    let inbound = end_table(graph, true);
    let outbound = end_table(graph, false);
    proof {
        lemma_strictly_sorted_unique(keys_of(inbound@), keys_of(outbound@));
        lemma_sorted_listing(keys_of(inbound@), all_ids(graph@));
    }
    let mut rows: Vec<(GraphNodeId, usize, usize)> = Vec::new();
    let mut k: usize = 0;
    assert(keys_of(inbound@).len() == keys_of(outbound@).len());
    while k < inbound.len()
        invariant
            k <= inbound@.len(),
            inbound@.len() == outbound@.len(),
            keys_of(inbound@) == keys_of(outbound@),
            keys_of(inbound@) == sorted_listing(all_ids(graph@)),
            forall|q: int| 0 <= q < inbound@.len() ==> (#[trigger] inbound@[q]).1 as nat == targets(graph@.relations).to_multiset().count(inbound@[q].0@),
            forall|q: int| 0 <= q < outbound@.len() ==> (#[trigger] outbound@[q]).1 as nat == sources(graph@.relations).to_multiset().count(outbound@[q].0@),
            rows@.len() == k,
            forall|q: int| 0 <= q < k ==> (#[trigger] rows@[q]).0@ == inbound@[q].0@ && rows@[q].1 == inbound@[q].1 && rows@[q].2 == outbound@[q].1,
        decreases inbound@.len() - k,
    {
        assert(keys_of(inbound@)[k as int] == keys_of(outbound@)[k as int]);
        rows.push((GraphNodeId::new(inbound[k].0.as_str()), inbound[k].1, outbound[k].1));
        k = k + 1;
    }
    assert(metric_row_views(rows@) =~= degree_rows(graph@)) by {
        assert forall|q: int| 0 <= q < rows@.len() implies #[trigger] metric_row_views(rows@)[q] == degree_rows(graph@)[q] by {
            assert(keys_of(inbound@)[q] == inbound@[q].0@);
            assert(keys_of(outbound@)[q] == outbound@[q].0@);
        }
    }
    rows
}

/// The targets of the relations of `graph` that start at `id`, in order.
fn targets_from(graph: &Graph, id: &str) -> (r: Vec<GraphNodeId>)
    ensures
        id_views(r@) == out_targets(graph@.relations, id@),
{
    let ghost rv = graph@.relations;
    let mut r: Vec<GraphNodeId> = Vec::new();
    let mut j: usize = 0;
    while j < graph.relations.len()
        invariant
            j <= graph.relations@.len(),
            rv == graph@.relations,
            id_views(r@) == out_targets(rv.subrange(0, j as int), id@),
        decreases graph.relations@.len() - j,
    {
        let rel = &graph.relations[j];
        assert(rv[j as int] == rel@);
        assert(rv.subrange(0, j + 1).drop_last() =~= rv.subrange(0, j as int));
        if crate::text::str_eq(rel.source.as_str(), id) {
            let ghost before = r@;
            r.push(rel.target.clone());
            assert(id_views(r@) =~= id_views(before).push(rel.target@));
        }
        j = j + 1;
    }
    assert(rv.subrange(0, j as int) =~= rv);
    r
}

/// Builds a stable directed adjacency: every node id and relation end once,
/// in increasing order, with the distinct targets of its relations in
/// increasing order.
pub fn adjacency(graph: &Graph) -> (r: Vec<(GraphNodeId, Vec<GraphNodeId>)>)
    requires
        graph.relations@.len() < usize::MAX,
    ensures
        adjacency_row_views(r@) == adjacency_rows(graph@),
{
    let keys = end_table(graph, true);
    proof {
        lemma_sorted_listing(keys_of(keys@), all_ids(graph@));
    }
    let mut rows: Vec<(GraphNodeId, Vec<GraphNodeId>)> = Vec::new();
    let mut k: usize = 0;
    while k < keys.len()
        invariant
            k <= keys@.len(),
            keys_of(keys@) == sorted_listing(all_ids(graph@)),
            rows@.len() == k,
            forall|q: int| 0 <= q < k ==> (#[trigger] rows@[q]).0@ == keys@[q].0@ && id_views(rows@[q].1@) == canonical_nodes(
                out_targets(graph@.relations, keys@[q].0@),
            ),
        decreases keys@.len() - k,
    {
        let id = keys[k].0.as_str();
        let targets = canonical(targets_from(graph, id));
        rows.push((GraphNodeId::new(id), targets));
        k = k + 1;
    }
    assert(adjacency_row_views(rows@) =~= adjacency_rows(graph@)) by {
        assert forall|q: int| 0 <= q < rows@.len() implies #[trigger] adjacency_row_views(rows@)[q] == adjacency_rows(graph@)[q] by {
            assert(keys_of(keys@)[q] == keys@[q].0@);
        }
    }
    rows
}

} // verus!

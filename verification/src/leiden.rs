//! The local-moving phase of deterministic Leiden over the relations a
//! community scope admits, and the integer summary of every community.
//!
//! Nodes are the ends of admitted relations, indexed in increasing id order.
//! Each node starts in its own community; the active node with the smallest
//! index moves to the neighbouring community that raises modularity the
//! most (ties to the smaller label, and only above staying), waking its
//! neighbours when it moves, until no node is active or the safety bound is
//! met. Communities of two or more nodes are summarized.

use vstd::prelude::*;
use crate::communities::{
    admitted, is_better_candidate, normal_form, normalized_scope, relation_in_scope, relation_weight, weight_of, CommunityScope,
};
use crate::model::{node_id, Graph, GraphNode, GraphNodeId, Relation, RelationView};
use crate::strmap::{insert_unique, lemma_sorted_listing, locate_str, sorted_listing, strictly_sorted, views};
use crate::sorting::{lemma_sort_map, sort_by, sort_spec};
use crate::text::{cat, owned, str_eq, str_less};

verus! {

broadcast use {vstd::seq_lib::group_seq_properties, vstd::seq_lib::group_to_multiset_ensures};

/// The indices below `k` of the relations that `scope` admits, in order.
pub open spec fn admitted_indices(rels: Seq<RelationView>, nodes: Seq<GraphNode>, scope: CommunityScope, k: int) -> Seq<int>
    decreases k,
{
    if k <= 0 {
        Seq::empty()
    } else if admitted(rels[k - 1], nodes, scope) {
        admitted_indices(rels, nodes, scope, k - 1).push(k - 1)
    } else {
        admitted_indices(rels, nodes, scope, k - 1)
    }
}

pub proof fn lemma_admitted_indices_bounded(rels: Seq<RelationView>, nodes: Seq<GraphNode>, scope: CommunityScope, k: int)
    requires
        0 <= k,
    ensures
        admitted_indices(rels, nodes, scope, k).len() <= k,
        forall|j: int| 0 <= j < admitted_indices(rels, nodes, scope, k).len() ==> 0 <= #[trigger] admitted_indices(rels, nodes, scope, k)[j] < k,
    decreases k,
{
    if k > 0 {
        lemma_admitted_indices_bounded(rels, nodes, scope, k - 1);
    }
}

/// The indices of the relations of `graph` that `scope` admits, in order.
pub fn select_relations(graph: &Graph, scope: &CommunityScope) -> (sel: Vec<usize>)
    ensures
        sel@.map_values(|i: usize| i as int) == admitted_indices(graph@.relations, graph.nodes@, *scope, graph@.relations.len() as int),
        forall|j: int| 0 <= j < sel@.len() ==> #[trigger] sel@[j] < graph.relations@.len(),
{
    let ghost g = graph@;
    let mut sel: Vec<usize> = Vec::new();
    let mut k: usize = 0;
    while k < graph.relations.len()
        invariant
            k <= graph.relations@.len(),
            g == graph@,
            sel@.map_values(|i: usize| i as int) == admitted_indices(g.relations, graph.nodes@, *scope, k as int),
            forall|j: int| 0 <= j < sel@.len() ==> #[trigger] sel@[j] < k,
        decreases graph.relations@.len() - k,
    {
        assert(g.relations[k as int] == graph.relations@[k as int]@);
        if relation_in_scope(&graph.relations[k], &graph.nodes, scope) {
            let ghost before = sel@;
            sel.push(k);
            assert(sel@.map_values(|i: usize| i as int) =~= before.map_values(|i: usize| i as int).push(k as int));
        }
        k = k + 1;
    }
    sel
}

/// Both ends of the relations at `sel`, as a set of ids.
pub open spec fn end_ids(rels: Seq<RelationView>, sel: Seq<usize>) -> Set<Seq<char>> {
    Set::new(|x: Seq<char>| exists|j: int| 0 <= j < sel.len() && (rels[#[trigger] sel[j] as int].source == x || rels[sel[j] as int].target == x))
}

/// The ids at the ends of the selected relations, once each, increasing.
pub fn participants(graph: &Graph, sel: &Vec<usize>) -> (ids: Vec<String>)
    requires
        forall|j: int| 0 <= j < sel@.len() ==> #[trigger] sel@[j] < graph.relations@.len(),
    ensures
        strictly_sorted(views(ids@)),
        views(ids@).to_set() == end_ids(graph@.relations, sel@),
{
    let ghost rv = graph@.relations;
    let mut ids: Vec<String> = Vec::new();
    let mut j: usize = 0;
    assert(views(ids@).to_set() =~= end_ids(rv, sel@.subrange(0, 0)));
    while j < sel.len()
        invariant
            j <= sel@.len(),
            rv == graph@.relations,
            forall|q: int| 0 <= q < sel@.len() ==> #[trigger] sel@[q] < graph.relations@.len(),
            strictly_sorted(views(ids@)),
            views(ids@).to_set() == end_ids(rv, sel@.subrange(0, j as int)),
        decreases sel@.len() - j,
    {
        let r = &graph.relations[sel[j]];
        assert(rv[sel@[j as int] as int] == r@);
        insert_unique(&mut ids, r.source.as_str());
        insert_unique(&mut ids, r.target.as_str());
        let ghost prev = sel@.subrange(0, j as int);
        let ghost next = sel@.subrange(0, j + 1);
        assert(end_ids(rv, next) =~= end_ids(rv, prev).insert(r.source@).insert(r.target@)) by {
            assert forall|x: Seq<char>| end_ids(rv, next).contains(x) <==> end_ids(rv, prev).insert(r.source@).insert(r.target@).contains(x) by {
                if end_ids(rv, next).contains(x) {
                    let q = choose|q: int| 0 <= q < next.len() && (rv[#[trigger] next[q] as int].source == x || rv[next[q] as int].target == x);
                    if q < j {
                        assert(prev[q] == next[q]);
                    }
                }
                if end_ids(rv, prev).contains(x) {
                    let q = choose|q: int| 0 <= q < prev.len() && (rv[#[trigger] prev[q] as int].source == x || rv[prev[q] as int].target == x);
                    assert(next[q] == prev[q]);
                }
                if x == r.source@ || x == r.target@ {
                    assert(next[j as int] == sel@[j as int]);
                }
            }
        }
        j = j + 1;
    }
    assert(sel@.subrange(0, j as int) =~= sel@);
    ids
}

/// One admitted relation by the indices of its ends among the participants
/// and its position in the graph.
pub struct IndexedEdge {
    pub source: usize,
    pub target: usize,
    pub relation: usize,
}

/// `edges` are the selected relations, each by the indices of its ends in `ids`.
pub open spec fn indexes_edges(edges: Seq<IndexedEdge>, rels: Seq<RelationView>, sel: Seq<usize>, ids: Seq<Seq<char>>) -> bool {
    &&& edges.len() == sel.len()
    &&& forall|j: int| 0 <= j < edges.len() ==> {
        &&& (#[trigger] edges[j]).relation == sel[j]
        &&& edges[j].source < ids.len()
        &&& edges[j].target < ids.len()
        &&& ids[edges[j].source as int] == rels[sel[j] as int].source
        &&& ids[edges[j].target as int] == rels[sel[j] as int].target
    }
}

/// The selected relations by the indices of their ends in `ids`.
pub fn index_edges(graph: &Graph, sel: &Vec<usize>, ids: &Vec<String>) -> (edges: Vec<IndexedEdge>)
    requires
        forall|j: int| 0 <= j < sel@.len() ==> #[trigger] sel@[j] < graph.relations@.len(),
        strictly_sorted(views(ids@)),
        views(ids@).to_set() == end_ids(graph@.relations, sel@),
    ensures
        indexes_edges(edges@, graph@.relations, sel@, views(ids@)),
{
    let ghost rv = graph@.relations;
    let mut edges: Vec<IndexedEdge> = Vec::new();
    let mut j: usize = 0;
    while j < sel.len()
        invariant
            j <= sel@.len(),
            rv == graph@.relations,
            forall|q: int| 0 <= q < sel@.len() ==> #[trigger] sel@[q] < graph.relations@.len(),
            strictly_sorted(views(ids@)),
            views(ids@).to_set() == end_ids(rv, sel@),
            edges@.len() == j,
            forall|q: int| 0 <= q < j ==> {
                &&& (#[trigger] edges@[q]).relation == sel@[q]
                &&& edges@[q].source < ids@.len()
                &&& edges@[q].target < ids@.len()
                &&& views(ids@)[edges@[q].source as int] == rv[sel@[q] as int].source
                &&& views(ids@)[edges@[q].target as int] == rv[sel@[q] as int].target
            },
        decreases sel@.len() - j,
    {
        let r = &graph.relations[sel[j]];
        assert(rv[sel@[j as int] as int] == r@);
        assert(end_ids(rv, sel@).contains(r.source@));
        assert(end_ids(rv, sel@).contains(r.target@));
        let (fs, s) = locate_str(ids, r.source.as_str());
        let (ft, t) = locate_str(ids, r.target.as_str());
        proof {
            if !fs {
                assert(views(ids@).to_set().contains(r.source@));
                let q = choose|q: int| 0 <= q < views(ids@).len() && views(ids@)[q] == r.source@;
            }
            if !ft {
                assert(views(ids@).to_set().contains(r.target@));
                let q = choose|q: int| 0 <= q < views(ids@).len() && views(ids@)[q] == r.target@;
            }
        }
        edges.push(IndexedEdge { source: s, target: t, relation: sel[j] });
        j = j + 1;
    }
    edges
}


/// The total weight of a row of `(neighbour, weight)` entries.
pub open spec fn row_sum(row: Seq<(usize, u64)>) -> int
    decreases row.len(),
{
    if row.len() == 0 {
        0
    } else {
        row_sum(row.drop_last()) + row.last().1
    }
}

/// The sum of the first `k` values.
pub open spec fn sum_upto(d: Seq<u64>, k: int) -> int
    decreases k,
{
    if k <= 0 {
        0
    } else {
        sum_upto(d, k - 1) + d[k - 1]
    }
}

/// A row lists distinct neighbours below `n` in increasing order, each
/// with a positive weight.
pub open spec fn row_ok(row: Seq<(usize, u64)>, n: int) -> bool {
    &&& forall|a: int, b: int| 0 <= a < b < row.len() ==> (#[trigger] row[a]).0 < (#[trigger] row[b]).0
    &&& forall|a: int| 0 <= a < row.len() ==> (#[trigger] row[a]).0 < n && row[a].1 > 0
}

/// The adjacency of `n` nodes: one well-formed row each, whose weights add
/// up to the node's degree, the degrees adding up to `total`.
pub open spec fn adjacency_ok(adj: Seq<Vec<(usize, u64)>>, degrees: Seq<u64>, total: int, n: int) -> bool {
    &&& adj.len() == n
    &&& degrees.len() == n
    &&& forall|i: int| 0 <= i < n ==> row_ok((#[trigger] adj[i])@, n)
    &&& forall|i: int| 0 <= i < n ==> row_sum((#[trigger] adj[i])@) == degrees[i]
    &&& sum_upto(degrees, n) == total
}

proof fn lemma_row_sum_nonneg_prefix(row: Seq<(usize, u64)>, k: int)
    requires
        0 <= k <= row.len(),
    ensures
        0 <= row_sum(row.take(k)) <= row_sum(row),
    decreases row.len(),
{
    if k < row.len() {
        assert(row.drop_last().take(k) =~= row.take(k));
        lemma_row_sum_nonneg_prefix(row.drop_last(), k);
    } else {
        assert(row.take(k) =~= row);
        lemma_row_sum_nonneg_prefix_full(row);
    }
}

proof fn lemma_row_sum_nonneg_prefix_full(row: Seq<(usize, u64)>)
    ensures
        0 <= row_sum(row),
    decreases row.len(),
{
    if row.len() > 0 {
        lemma_row_sum_nonneg_prefix_full(row.drop_last());
    }
}

proof fn lemma_row_sum_update(row: Seq<(usize, u64)>, p: int, v: u64)
    requires
        0 <= p < row.len(),
    ensures
        row_sum(row.update(p, (row[p].0, v))) == row_sum(row) - row[p].1 + v,
    decreases row.len(),
{
    if p < row.len() - 1 {
        assert(row.update(p, (row[p].0, v)).drop_last() =~= row.drop_last().update(p, (row[p].0, v)));
        lemma_row_sum_update(row.drop_last(), p, v);
    } else {
        assert(row.update(p, (row[p].0, v)).drop_last() =~= row.drop_last());
    }
}

proof fn lemma_row_sum_insert(row: Seq<(usize, u64)>, p: int, e: (usize, u64))
    requires
        0 <= p <= row.len(),
    ensures
        row_sum(row.insert(p, e)) == row_sum(row) + e.1,
    decreases row.len(),
{
    if p == row.len() {
        assert(row.insert(p, e) =~= row.push(e));
        assert(row.push(e).drop_last() =~= row);
    } else {
        assert(row.insert(p, e).drop_last() =~= row.drop_last().insert(p, e));
        lemma_row_sum_insert(row.drop_last(), p, e);
    }
}

/// The weight of `key`'s entry in a row, zero when it has none.
pub open spec fn entry_weight(row: Seq<(usize, u64)>, key: int) -> int
    decreases row.len(),
{
    if row.len() == 0 {
        0
    } else {
        entry_weight(row.drop_last(), key) + if row.last().0 == key { row.last().1 as int } else { 0 }
    }
}

/// The weight the edges put between nodes `i` and `k`, counted once from
/// each end, so that a relation from a node to itself counts twice.
pub open spec fn pair_weight(edges: Seq<IndexedEdge>, rels: Seq<RelationView>, scope: CommunityScope, i: int, k: int) -> int
    decreases edges.len(),
{
    if edges.len() == 0 {
        0
    } else {
        let e = edges.last();
        let w = weight_of(rels[e.relation as int].kind, scope) as int;
        pair_weight(edges.drop_last(), rels, scope, i, k) + (if e.source == i && e.target == k { w } else { 0 }) + (
        if e.target == i && e.source == k {
            w
        } else {
            0
        })
    }
}

/// `rows` are the adjacency of `n` nodes that the edges weighted by `scope`
/// give: each row lists its neighbours in increasing order, each with its
/// pair weight.
pub open spec fn weighted_rows(rows: Seq<Seq<(usize, u64)>>, edges: Seq<IndexedEdge>, rels: Seq<RelationView>, scope: CommunityScope, n: int) -> bool {
    &&& rows.len() == n
    &&& forall|i: int| 0 <= i < n ==> row_ok(#[trigger] rows[i], n)
    &&& forall|i: int, k: int| 0 <= i < n ==> #[trigger] entry_weight(rows[i], k) == pair_weight(edges, rels, scope, i, k)
}

/// The degree of each node is the total of its row, and `total` theirs.
pub open spec fn row_degrees(rows: Seq<Seq<(usize, u64)>>, degrees: Seq<u64>, total: int) -> bool {
    &&& degrees.len() == rows.len()
    &&& forall|i: int| 0 <= i < rows.len() ==> #[trigger] degrees[i] == row_sum(rows[i])
    &&& sum_upto(degrees, rows.len() as int) == total
}

proof fn lemma_entry_absent(row: Seq<(usize, u64)>, key: int)
    requires
        forall|a: int| 0 <= a < row.len() ==> (#[trigger] row[a]).0 != key,
    ensures
        entry_weight(row, key) == 0,
    decreases row.len(),
{
    if row.len() > 0 {
        lemma_entry_absent(row.drop_last(), key);
    }
}

proof fn lemma_row_ok_drop_last(row: Seq<(usize, u64)>, n: int)
    requires
        row_ok(row, n),
        row.len() > 0,
    ensures
        row_ok(row.drop_last(), n),
        forall|a: int| 0 <= a < row.len() - 1 ==> (#[trigger] row[a]).0 < row.last().0,
        entry_weight(row, row.last().0 as int) == row.last().1,
        forall|k: int| k > row.last().0 ==> #[trigger] entry_weight(row, k) == 0,
{
    let d = row.drop_last();
    assert forall|a: int, b: int| 0 <= a < b < d.len() implies (#[trigger] d[a]).0 < (#[trigger] d[b]).0 by {
        assert(d[a] == row[a] && d[b] == row[b]);
    }
    assert forall|a: int| 0 <= a < row.len() - 1 implies (#[trigger] row[a]).0 < row.last().0 by {
        assert(row[a].0 < row[row.len() - 1].0);
    }
    lemma_entry_absent(d, row.last().0 as int);
    assert forall|k: int| k > row.last().0 implies #[trigger] entry_weight(row, k) == 0 by {
        assert forall|a: int| 0 <= a < row.len() implies (#[trigger] row[a]).0 != k by {
            if a < row.len() - 1 {
                assert(row[a].0 < row.last().0);
            }
        }
        lemma_entry_absent(row, k);
    }
}

proof fn lemma_rows_equal(a: Seq<(usize, u64)>, b: Seq<(usize, u64)>, n: int)
    requires
        row_ok(a, n),
        row_ok(b, n),
        forall|k: int| #[trigger] entry_weight(a, k) == entry_weight(b, k),
    ensures
        a == b,
    decreases a.len() + b.len(),
{
    if a.len() == 0 && b.len() == 0 {
        assert(a =~= b);
    } else if a.len() == 0 {
        lemma_row_ok_drop_last(b, n);
        assert(entry_weight(b, b.last().0 as int) == entry_weight(a, b.last().0 as int));
    } else if b.len() == 0 {
        lemma_row_ok_drop_last(a, n);
        assert(entry_weight(a, a.last().0 as int) == entry_weight(b, a.last().0 as int));
    } else {
        lemma_row_ok_drop_last(a, n);
        lemma_row_ok_drop_last(b, n);
        let ka = a.last().0 as int;
        let kb = b.last().0 as int;
        assert(entry_weight(a, ka) == entry_weight(b, ka));
        assert(entry_weight(a, kb) == entry_weight(b, kb));
        assert(ka == kb);
        assert forall|k: int| #[trigger] entry_weight(a.drop_last(), k) == entry_weight(b.drop_last(), k) by {
            assert(entry_weight(a, k) == entry_weight(b, k));
            if k == ka {
                assert forall|q: int| 0 <= q < a.drop_last().len() implies (#[trigger] a.drop_last()[q]).0 != k by {
                    assert(a[q].0 < a.last().0);
                }
                assert forall|q: int| 0 <= q < b.drop_last().len() implies (#[trigger] b.drop_last()[q]).0 != k by {
                    assert(b[q].0 < b.last().0);
                }
                lemma_entry_absent(a.drop_last(), k);
                lemma_entry_absent(b.drop_last(), k);
            }
        }
        lemma_rows_equal(a.drop_last(), b.drop_last(), n);
        assert(a =~= a.drop_last().push(a.last()));
        assert(b =~= b.drop_last().push(b.last()));
    }
}

/// The weighted adjacency of a set of edges is unique: two row sequences
/// that both list, for every node, its neighbours in increasing order with
/// their pair weights are equal.
pub proof fn lemma_weighted_rows_unique(
    r1: Seq<Seq<(usize, u64)>>,
    r2: Seq<Seq<(usize, u64)>>,
    edges: Seq<IndexedEdge>,
    rels: Seq<RelationView>,
    scope: CommunityScope,
    n: int,
)
    requires
        weighted_rows(r1, edges, rels, scope, n),
        weighted_rows(r2, edges, rels, scope, n),
    ensures
        r1 == r2,
{
    assert forall|i: int| 0 <= i < n implies #[trigger] r1[i] == r2[i] by {
        assert forall|k: int| #[trigger] entry_weight(r1[i], k) == entry_weight(r2[i], k) by {
            assert(entry_weight(r1[i], k) == pair_weight(edges, rels, scope, i, k));
            assert(entry_weight(r2[i], k) == pair_weight(edges, rels, scope, i, k));
        }
        assert(row_ok(r1[i], n) && row_ok(r2[i], n));
        lemma_rows_equal(r1[i], r2[i], n);
    }
    assert(r1 =~= r2);
}

proof fn lemma_entry_update(row: Seq<(usize, u64)>, p: int, v: u64, key: int)
    requires
        0 <= p < row.len(),
    ensures
        entry_weight(row.update(p, (row[p].0, v)), key) == entry_weight(row, key) + if row[p].0 == key {
            v - row[p].1
        } else {
            0
        },
    decreases row.len(),
{
    if p < row.len() - 1 {
        assert(row.update(p, (row[p].0, v)).drop_last() =~= row.drop_last().update(p, (row[p].0, v)));
        lemma_entry_update(row.drop_last(), p, v, key);
    } else {
        assert(row.update(p, (row[p].0, v)).drop_last() =~= row.drop_last());
    }
}

proof fn lemma_entry_insert(row: Seq<(usize, u64)>, p: int, e: (usize, u64), key: int)
    requires
        0 <= p <= row.len(),
    ensures
        entry_weight(row.insert(p, e), key) == entry_weight(row, key) + if e.0 == key { e.1 as int } else { 0 },
    decreases row.len(),
{
    if p == row.len() {
        assert(row.insert(p, e) =~= row.push(e));
        assert(row.push(e).drop_last() =~= row);
    } else {
        assert(row.insert(p, e).drop_last() =~= row.drop_last().insert(p, e));
        lemma_entry_insert(row.drop_last(), p, e, key);
    }
}

proof fn lemma_sum_update(d: Seq<u64>, k: int, p: int, v: u64)
    requires
        0 <= p < k <= d.len(),
    ensures
        sum_upto(d.update(p, v), k) == sum_upto(d, k) - d[p] + v,
    decreases k,
{
    if k - 1 > p {
        lemma_sum_update(d, k - 1, p, v);
    } else {
        lemma_sum_same_prefix(d, d.update(p, v), k - 1);
    }
}

proof fn lemma_sum_same_prefix(a: Seq<u64>, b: Seq<u64>, k: int)
    requires
        0 <= k <= a.len(),
        k <= b.len(),
        forall|i: int| 0 <= i < k ==> a[i] == b[i],
    ensures
        sum_upto(a, k) == sum_upto(b, k),
    decreases k,
{
    if k > 0 {
        lemma_sum_same_prefix(a, b, k - 1);
    }
}

proof fn lemma_sum_zeros(d: Seq<u64>, k: int)
    requires
        0 <= k <= d.len(),
        forall|i: int| 0 <= i < k ==> d[i] == 0,
    ensures
        sum_upto(d, k) == 0,
    decreases k,
{
    if k > 0 {
        lemma_sum_zeros(d, k - 1);
    }
}

proof fn lemma_sum_bounds(d: Seq<u64>, k: int, i: int)
    requires
        0 <= i < k <= d.len(),
    ensures
        d[i] <= sum_upto(d, k),
        0 <= sum_upto(d, k),
    decreases k,
{
    lemma_sum_nonneg(d, k - 1);
    if i < k - 1 {
        lemma_sum_bounds(d, k - 1, i);
    }
}

proof fn lemma_sum_nonneg(d: Seq<u64>, k: int)
    requires
        0 <= k <= d.len(),
    ensures
        0 <= sum_upto(d, k),
    decreases k,
{
    if k > 0 {
        lemma_sum_nonneg(d, k - 1);
    }
}

/// Adds weight `w` to `key`'s entry of a sorted row, creating it when absent.
fn add_to_row(row: &Vec<(usize, u64)>, key: usize, w: u64, Ghost(n): Ghost<int>) -> (r: Vec<(usize, u64)>)
    requires
        row_ok(row@, n),
        key < n,
        w > 0,
        row_sum(row@) + w <= u64::MAX,
    ensures
        row_ok(r@, n),
        row_sum(r@) == row_sum(row@) + w,
        forall|k: int| #[trigger] entry_weight(r@, k) == entry_weight(row@, k) + if k == key { w as int } else { 0 },
{
    let mut r: Vec<(usize, u64)> = Vec::new();
    let mut i: usize = 0;
    while i < row.len() && row[i].0 < key
        invariant
            i <= row@.len(),
            row_ok(row@, n),
            r@ == row@.subrange(0, i as int),
            forall|a: int| 0 <= a < i ==> row@[a].0 < key,
        decreases row@.len() - i,
    {
        r.push(row[i]);
        assert(r@ =~= row@.subrange(0, i + 1));
        i = i + 1;
    }
    let ghost at = i as int;
    let ghost target: Seq<(usize, u64)>;
    let mut rest: usize = i;
    if i < row.len() && row[i].0 == key {
        proof {
            lemma_entry_le_sum(row@, at);
            lemma_row_sum_update(row@, at, (row@[at].1 + w) as u64);
            target = row@.update(at, (row@[at].0, (row@[at].1 + w) as u64));
            assert forall|k: int| #[trigger] entry_weight(target, k) == entry_weight(row@, k) + if k == key { w as int } else { 0 } by {
                lemma_entry_update(row@, at, (row@[at].1 + w) as u64, k);
            }
        }
        r.push((key, row[i].1 + w));
        rest = i + 1;
        assert(r@ =~= target.subrange(0, rest as int));
    } else {
        proof {
            lemma_row_sum_insert(row@, at, (key, w));
            target = row@.insert(at, (key, w));
            assert forall|k: int| #[trigger] entry_weight(target, k) == entry_weight(row@, k) + if k == key { w as int } else { 0 } by {
                lemma_entry_insert(row@, at, (key, w), k);
            }
        }
        r.push((key, w));
        assert(r@ =~= target.subrange(0, at + 1));
    }
    let ghost shift: int = if rest == i { 1 } else { 0 };
    assert(target.len() == row@.len() + shift);
    while rest < row.len()
        invariant
            at <= rest <= row@.len(),
            shift == 0 || shift == 1,
            target.len() == row@.len() + shift,
            forall|a: int| rest <= a < row@.len() ==> target[a + shift] == row@[a],
            r@ == target.subrange(0, rest + shift),
        decreases row@.len() - rest,
    {
        r.push(row[rest]);
        assert(r@ =~= target.subrange(0, rest + 1 + shift));
        rest = rest + 1;
    }
    assert(r@ =~= target);
    proof {
        if shift == 0 {
            lemma_update_row_ok(row@, at, (row@[at].1 + w) as u64, n);
        } else {
            lemma_insert_row_ok(row@, at, key, w, n);
        }
    }
    r
}

proof fn lemma_update_row_ok(row: Seq<(usize, u64)>, at: int, v: u64, n: int)
    requires
        row_ok(row, n),
        0 <= at < row.len(),
        v > 0,
    ensures
        row_ok(row.update(at, (row[at].0, v)), n),
{
    let r = row.update(at, (row[at].0, v));
    assert forall|a: int, b: int| 0 <= a < b < r.len() implies (#[trigger] r[a]).0 < (#[trigger] r[b]).0 by {
        assert(r[a].0 == row[a].0 && r[b].0 == row[b].0);
    }
}

proof fn lemma_insert_row_ok(row: Seq<(usize, u64)>, at: int, key: usize, w: u64, n: int)
    requires
        row_ok(row, n),
        0 <= at <= row.len(),
        key < n,
        w > 0,
        forall|a: int| 0 <= a < at ==> row[a].0 < key,
        at < row.len() ==> row[at].0 > key,
    ensures
        row_ok(row.insert(at, (key, w)), n),
{
    let r = row.insert(at, (key, w));
    assert forall|a: int, b: int| 0 <= a < b < r.len() implies (#[trigger] r[a]).0 < (#[trigger] r[b]).0 by {
        if b < at {
        } else if a < at && b == at {
        } else if a < at {
            assert(r[b] == row[b - 1]);
            assert(row[a].0 < key);
            if b - 1 > at {
                assert(row[at].0 < row[b - 1].0);
            }
        } else if a == at {
            assert(r[b] == row[b - 1]);
            if b - 1 > at {
                assert(row[at].0 < row[b - 1].0);
            }
        } else {
            assert(r[a] == row[a - 1] && r[b] == row[b - 1]);
        }
    }
    assert forall|a: int| 0 <= a < r.len() implies (#[trigger] r[a]).0 < n && r[a].1 > 0 by {
        if a > at {
            assert(r[a] == row[a - 1]);
        } else if a < at {
            assert(r[a] == row[a]);
        }
    }
}

proof fn lemma_entry_le_sum(row: Seq<(usize, u64)>, p: int)
    requires
        0 <= p < row.len(),
    ensures
        row[p].1 <= row_sum(row),
    decreases row.len(),
{
    lemma_row_sum_nonneg_prefix_full(row.drop_last());
    if p < row.len() - 1 {
        lemma_entry_le_sum(row.drop_last(), p);
    }
}

/// The aggregated, symmetric adjacency of the indexed edges, each weighted
/// by `scope`: a relation from `s` to `t` adds its weight to `s`'s entry for
/// `t` and to `t`'s entry for `s`.
pub fn build_adjacency(graph: &Graph, edges: &Vec<IndexedEdge>, n: usize, scope: &CommunityScope) -> (r: (Vec<Vec<(usize, u64)>>, Vec<u64>, u64))
    requires
        graph.relations@.len() < 0x4000_0000,
        edges@.len() <= graph.relations@.len(),
        forall|j: int| 0 <= j < edges@.len() ==> {
            &&& (#[trigger] edges@[j]).source < n
            &&& edges@[j].target < n
            &&& edges@[j].relation < graph.relations@.len()
            &&& weight_of(graph.relations@[edges@[j].relation as int].kind, *scope) > 0
        },
    ensures
        adjacency_ok(r.0@, r.1@, r.2 as int, n as int),
        weighted_rows(rows_of(r.0@), edges@, graph@.relations, *scope, n as int),
        r.2 <= 2 * edges@.len() * 0xffff_ffff,
{
    let mut adj: Vec<Vec<(usize, u64)>> = Vec::new();
    let mut degrees: Vec<u64> = Vec::new();
    let mut i: usize = 0;
    while i < n
        invariant
            i <= n,
            adj@.len() == i,
            degrees@.len() == i,
            forall|a: int| 0 <= a < i ==> (#[trigger] adj@[a])@.len() == 0,
            forall|a: int| 0 <= a < i ==> #[trigger] degrees@[a] == 0,
        decreases n - i,
    {
        adj.push(Vec::new());
        degrees.push(0);
        i = i + 1;
    }
    let ghost rels = graph@.relations;
    proof {
        lemma_sum_zeros(degrees@, n as int);
        assert forall|a: int| 0 <= a < n implies row_ok((#[trigger] adj@[a])@, n as int) by {}
        assert forall|a: int| 0 <= a < n implies row_sum((#[trigger] adj@[a])@) == degrees@[a] by {}
        assert(edges@.take(0) =~= Seq::<IndexedEdge>::empty());
    }
    let mut total: u64 = 0;
    let mut j: usize = 0;
    while j < edges.len()
        invariant
            j <= edges@.len(),
            edges@.len() <= graph.relations@.len(),
            graph.relations@.len() < 0x4000_0000,
            forall|q: int| 0 <= q < edges@.len() ==> {
                &&& (#[trigger] edges@[q]).source < n
                &&& edges@[q].target < n
                &&& edges@[q].relation < graph.relations@.len()
                &&& weight_of(graph.relations@[edges@[q].relation as int].kind, *scope) > 0
            },
            adjacency_ok(adj@, degrees@, total as int, n as int),
            rels == graph@.relations,
            forall|i: int, k: int| 0 <= i < n ==> #[trigger] entry_weight(adj@[i]@, k) == pair_weight(
                edges@.take(j as int),
                rels,
                *scope,
                i,
                k,
            ),
            total <= 2 * j * 0xffff_ffff,
        decreases edges@.len() - j,
    {
        let e = &edges[j];
        let w = relation_weight(graph.relations[e.relation].kind, scope) as u64;
        let ghost adj0 = adj@;
        proof {
            assert(rels[e.relation as int] == graph.relations@[e.relation as int]@);
            assert(edges@.take(j + 1).drop_last() =~= edges@.take(j as int));
            assert(edges@.take(j + 1).last() == edges@[j as int]);
        }
        let s = e.source;
        let t = e.target;
        proof {
            lemma_sum_bounds(degrees@, n as int, s as int);
            lemma_sum_bounds(degrees@, n as int, t as int);
        }
        let row_s = add_to_row(&adj[s], t, w, Ghost(n as int));
        adj.set(s, row_s);
        let ghost d0 = degrees@;
        degrees.set(s, degrees[s] + w);
        proof {
            lemma_sum_update(d0, n as int, s as int, (d0[s as int] + w) as u64);
            lemma_sum_bounds(degrees@, n as int, t as int);
        }
        let row_t = add_to_row(&adj[t], s, w, Ghost(n as int));
        adj.set(t, row_t);
        let ghost d1 = degrees@;
        degrees.set(t, degrees[t] + w);
        proof {
            lemma_sum_update(d1, n as int, t as int, (d1[t as int] + w) as u64);
        }
        proof {
            assert forall|i: int, k: int| 0 <= i < n implies #[trigger] entry_weight(adj@[i]@, k) == pair_weight(
                edges@.take(j + 1),
                rels,
                *scope,
                i,
                k,
            ) by {
                assert(entry_weight(adj0[i]@, k) == pair_weight(edges@.take(j as int), rels, *scope, i, k));
            }
        }
        total = total + 2 * w;
        j = j + 1;
    }
    proof {
        assert(edges@.take(edges@.len() as int) =~= edges@);
        assert forall|i: int| 0 <= i < n implies row_ok(#[trigger] rows_of(adj@)[i], n as int) by {
            assert(row_ok(adj@[i]@, n as int));
        }
        assert forall|i: int, k: int| 0 <= i < n implies #[trigger] entry_weight(rows_of(adj@)[i], k) == pair_weight(
            edges@,
            rels,
            *scope,
            i,
            k,
        ) by {
            assert(entry_weight(adj@[i]@, k) == pair_weight(edges@.take(j as int), rels, *scope, i, k));
        }
    }
    (adj, degrees, total)
}


/// How many entries are set.
pub open spec fn count_true(a: Seq<bool>) -> nat
    decreases a.len(),
{
    if a.len() == 0 {
        0
    } else {
        count_true(a.drop_last()) + if a.last() { 1nat } else { 0nat }
    }
}

proof fn lemma_count_set(a: Seq<bool>, i: int, v: bool)
    requires
        0 <= i < a.len(),
    ensures
        count_true(a.update(i, v)) + (if a[i] { 1nat } else { 0nat }) == count_true(a) + (if v { 1nat } else { 0nat }),
    decreases a.len(),
{
    if i < a.len() - 1 {
        assert(a.update(i, v).drop_last() =~= a.drop_last().update(i, v));
        lemma_count_set(a.drop_last(), i, v);
    } else {
        assert(a.update(i, v).drop_last() =~= a.drop_last());
    }
}

proof fn lemma_count_le(a: Seq<bool>)
    ensures
        count_true(a) <= a.len(),
    decreases a.len(),
{
    if a.len() > 0 {
        lemma_count_le(a.drop_last());
    }
}

proof fn lemma_count_finds(a: Seq<bool>, c: int)
    requires
        count_true(a) > 0,
        0 <= c,
        forall|i: int| 0 <= i < c && i < a.len() ==> !a[i],
    ensures
        exists|j: int| c <= j < a.len() && a[j],
    decreases a.len(),
{
    if a.last() {
        assert(a.len() - 1 >= c) by {
            if a.len() - 1 < c {
                assert(!a[a.len() - 1]);
            }
        }
        assert(a[a.len() - 1]);
    } else {
        lemma_count_finds(a.drop_last(), c);
        let j = choose|j: int| c <= j < a.drop_last().len() && a.drop_last()[j];
        assert(a[j]);
    }
}

proof fn lemma_count_all(a: Seq<bool>)
    requires
        forall|i: int| 0 <= i < a.len() ==> a[i],
    ensures
        count_true(a) == a.len(),
    decreases a.len(),
{
    if a.len() > 0 {
        lemma_count_all(a.drop_last());
    }
}

/// The total degree of the first `k` nodes labelled `l`.
pub open spec fn vol_upto(labels: Seq<usize>, degrees: Seq<u64>, l: int, k: int) -> int
    decreases k,
{
    if k <= 0 {
        0
    } else {
        vol_upto(labels, degrees, l, k - 1) + if labels[k - 1] == l { degrees[k - 1] as int } else { 0 }
    }
}

proof fn lemma_vol_le(labels: Seq<usize>, degrees: Seq<u64>, l: int, k: int)
    requires
        0 <= k,
    ensures
        0 <= vol_upto(labels, degrees, l, k) <= sum_upto(degrees, k),
    decreases k,
{
    if k > 0 {
        lemma_vol_le(labels, degrees, l, k - 1);
    }
}

proof fn lemma_vol_has(labels: Seq<usize>, degrees: Seq<u64>, l: int, k: int, p: int)
    requires
        0 <= p < k,
        labels[p] == l,
    ensures
        vol_upto(labels, degrees, l, k) >= degrees[p],
    decreases k,
{
    lemma_vol_le(labels, degrees, l, k - 1);
    if p < k - 1 {
        lemma_vol_has(labels, degrees, l, k - 1, p);
    }
}

proof fn lemma_vol_update(labels: Seq<usize>, degrees: Seq<u64>, l: int, k: int, p: int, x: usize)
    requires
        0 <= p < k <= labels.len(),
    ensures
        vol_upto(labels.update(p, x), degrees, l, k) == vol_upto(labels, degrees, l, k)
            - (if labels[p] == l { degrees[p] as int } else { 0 }) + (if x == l { degrees[p] as int } else { 0 }),
    decreases k,
{
    if p < k - 1 {
        lemma_vol_update(labels, degrees, l, k - 1, p, x);
    } else {
        lemma_vol_same(labels, labels.update(p, x), degrees, l, k - 1);
    }
}

proof fn lemma_vol_same(a: Seq<usize>, b: Seq<usize>, degrees: Seq<u64>, l: int, k: int)
    requires
        0 <= k <= a.len(),
        k <= b.len(),
        forall|i: int| 0 <= i < k ==> a[i] == b[i],
    ensures
        vol_upto(a, degrees, l, k) == vol_upto(b, degrees, l, k),
    decreases k,
{
    if k > 0 {
        lemma_vol_same(a, b, degrees, l, k - 1);
    }
}

proof fn lemma_vol_identity(labels: Seq<usize>, degrees: Seq<u64>, l: int, k: int)
    requires
        0 <= k <= labels.len(),
        forall|i: int| 0 <= i < labels.len() ==> labels[i] == i,
    ensures
        vol_upto(labels, degrees, l, k) == if 0 <= l < k { degrees[l] as int } else { 0 },
    decreases k,
{
    if k > 0 {
        lemma_vol_identity(labels, degrees, l, k - 1);
    }
}

/// The modularity gain score of joining a community: its internal weight
/// times the total degree, less the node's degree times the community's volume.
pub open spec fn move_score(internal: int, total: int, degree: int, volume: int) -> int {
    internal * total - degree * volume
}

fn score_of(internal: u64, total: u64, degree: u64, volume: u64) -> (r: i128)
    requires
        internal < 0x8000_0000_0000_0000,
        total < 0x8000_0000_0000_0000,
        degree < 0x8000_0000_0000_0000,
        volume < 0x8000_0000_0000_0000,
    ensures
        r == move_score(internal as int, total as int, degree as int, volume as int),
{
    let a = internal as i128;
    let b = total as i128;
    let c = degree as i128;
    let d = volume as i128;
    assert(a * b < 0x4000_0000_0000_0000_0000_0000_0000_0000) by (nonlinear_arith)
        requires
            0 <= a < 0x8000_0000_0000_0000,
            0 <= b < 0x8000_0000_0000_0000,
    ;
    assert(c * d < 0x4000_0000_0000_0000_0000_0000_0000_0000) by (nonlinear_arith)
        requires
            0 <= c < 0x8000_0000_0000_0000,
            0 <= d < 0x8000_0000_0000_0000,
    ;
    assert(0 <= a * b) by (nonlinear_arith)
        requires
            0 <= a,
            0 <= b,
    ;
    assert(0 <= c * d) by (nonlinear_arith)
        requires
            0 <= c,
            0 <= d,
    ;
    a * b - c * d
}

/// The total weight of the row's entries whose neighbour is labelled `l`.
pub open spec fn label_weight(row: Seq<(usize, u64)>, labels: Seq<usize>, l: int) -> int
    decreases row.len(),
{
    if row.len() == 0 {
        0
    } else {
        label_weight(row.drop_last(), labels, l) + if labels[row.last().0 as int] == l {
            row.last().1 as int
        } else {
            0
        }
    }
}

/// The labels of the row's neighbours, each once, in order of first appearance.
pub open spec fn touched_labels(row: Seq<(usize, u64)>, labels: Seq<usize>) -> Seq<usize>
    decreases row.len(),
{
    if row.len() == 0 {
        Seq::empty()
    } else {
        let prior = touched_labels(row.drop_last(), labels);
        let l = labels[row.last().0 as int];
        if prior.contains(l) {
            prior
        } else {
            prior.push(l)
        }
    }
}

/// The labels a visit weighs: the neighbours' labels, then the node's own
/// when no neighbour shares it.
pub open spec fn candidate_labels(row: Seq<(usize, u64)>, labels: Seq<usize>, current: usize) -> Seq<usize> {
    let t = touched_labels(row, labels);
    if t.contains(current) {
        t
    } else {
        t.push(current)
    }
}

/// The volume of community `l` with the visited node taken out of its own.
pub open spec fn volume_without(labels: Seq<usize>, degrees: Seq<u64>, l: int, node: int) -> int {
    vol_upto(labels, degrees, l, labels.len() as int) - if labels[node] == l { degrees[node] as int } else { 0 }
}

/// The gain score of moving the visited node into community `l`.
pub open spec fn candidate_score(row: Seq<(usize, u64)>, labels: Seq<usize>, degrees: Seq<u64>, total: int, node: int, l: int) -> int {
    move_score(label_weight(row, labels, l), total, degrees[node] as int, volume_without(labels, degrees, l, node))
}

/// Whether `l` with score `cs` replaces the best so far.
pub open spec fn better(l: int, cs: int, best: int, best_score: int, staying: int) -> bool {
    cs > best_score || (cs == best_score && l < best && cs > staying)
}

/// The best label and score among `cands`, starting from staying put.
pub open spec fn pick(cands: Seq<usize>, row: Seq<(usize, u64)>, labels: Seq<usize>, degrees: Seq<u64>, total: int, node: int) -> (usize, int)
    decreases cands.len(),
{
    let current = labels[node];
    let staying = candidate_score(row, labels, degrees, total, node, current as int);
    if cands.len() == 0 {
        (current, staying)
    } else {
        let best = pick(cands.drop_last(), row, labels, degrees, total, node);
        let l = cands.last();
        let cs = candidate_score(row, labels, degrees, total, node, l as int);
        if better(l as int, cs, best.0 as int, best.1, staying) {
            (l, cs)
        } else {
            best
        }
    }
}

/// Where a visit sends the node: the best candidate when it is another
/// community that scores strictly above staying, else its own.
pub open spec fn destination(row: Seq<(usize, u64)>, labels: Seq<usize>, degrees: Seq<u64>, total: int, node: int) -> usize {
    let current = labels[node];
    let staying = candidate_score(row, labels, degrees, total, node, current as int);
    let best = pick(candidate_labels(row, labels, current), row, labels, degrees, total, node);
    if best.0 != current && best.1 > staying {
        best.0
    } else {
        current
    }
}

/// The first set entry, or the length when none is set.
pub open spec fn first_true(a: Seq<bool>) -> int
    decreases a.len(),
{
    if a.len() == 0 {
        0
    } else {
        let p = first_true(a.drop_last());
        if p < a.len() - 1 {
            p
        } else if a.last() {
            a.len() - 1
        } else {
            a.len() as int
        }
    }
}

proof fn lemma_first_true(a: Seq<bool>, c: int)
    requires
        0 <= c < a.len(),
        a[c],
        forall|i: int| 0 <= i < c ==> !a[i],
    ensures
        first_true(a) == c,
    decreases a.len(),
{
    if c < a.len() - 1 {
        lemma_first_true(a.drop_last(), c);
    } else {
        lemma_first_true_none(a.drop_last());
    }
}

proof fn lemma_first_true_none(a: Seq<bool>)
    requires
        forall|i: int| 0 <= i < a.len() ==> !a[i],
    ensures
        first_true(a) == a.len(),
    decreases a.len(),
{
    if a.len() > 0 {
        lemma_first_true_none(a.drop_last());
    }
}

/// The active set with every neighbour in `row` among the first `k` entries woken.
pub open spec fn wake_upto(active: Seq<bool>, row: Seq<(usize, u64)>, k: int) -> Seq<bool> {
    Seq::new(active.len(), |i: int| active[i] || exists|q: int| 0 <= q < k && (#[trigger] row[q]).0 == i)
}

/// The state of local movement.
pub struct MoveState {
    pub labels: Seq<usize>,
    pub active: Seq<bool>,
    pub reconsidered: nat,
    pub moves: nat,
    pub evaluations: nat,
}

/// A counter that saturates at `u64::MAX`.
pub open spec fn saturating(v: int) -> nat {
    if v > u64::MAX { u64::MAX as nat } else if v < 0 { 0 } else { v as nat }
}

/// One visit of `node`, already taken off the active set: it moves to its
/// destination and, when that is another community, wakes its neighbours.
pub open spec fn visit(st: MoveState, node: int, rows: Seq<Seq<(usize, u64)>>, degrees: Seq<u64>, total: int) -> MoveState {
    let row = rows[node];
    let dest = destination(row, st.labels, degrees, total, node);
    let moved = dest != st.labels[node];
    MoveState {
        labels: if moved { st.labels.update(node, dest) } else { st.labels },
        active: if moved { wake_upto(st.active, row, row.len() as int) } else { st.active },
        reconsidered: st.reconsidered + 1,
        moves: st.moves + if moved { 1nat } else { 0nat },
        evaluations: saturating(st.evaluations + row.len() as int),
    }
}

/// What local movement ends with.
pub struct MoveResult {
    pub labels: Seq<usize>,
    pub reconsidered: nat,
    pub moves: nat,
    pub evaluations: nat,
    pub bound_reached: bool,
}

/// Local movement from `st`: visit the first active node until none is
/// active, or stop once `bound` visits were made, the node then taken off
/// the active set unvisited.
pub open spec fn run(st: MoveState, rows: Seq<Seq<(usize, u64)>>, degrees: Seq<u64>, total: int, bound: nat) -> MoveResult
    decreases bound - st.reconsidered,
{
    if count_true(st.active) == 0 {
        MoveResult { labels: st.labels, reconsidered: st.reconsidered, moves: st.moves, evaluations: st.evaluations, bound_reached: false }
    } else {
        let node = first_true(st.active);
        let off = MoveState { active: st.active.update(node, false), ..st };
        if st.reconsidered >= bound {
            MoveResult {
                labels: st.labels,
                reconsidered: st.reconsidered,
                moves: st.moves,
                evaluations: st.evaluations,
                bound_reached: count_true(off.active) > 0,
            }
        } else {
            run(visit(off, node, rows, degrees, total), rows, degrees, total, bound)
        }
    }
}

/// Every node in its own community, all active, nothing counted yet.
pub open spec fn initial_state(n: nat) -> MoveState {
    MoveState {
        labels: Seq::new(n, |i: int| i as usize),
        active: Seq::new(n, |i: int| true),
        reconsidered: 0,
        moves: 0,
        evaluations: 0,
    }
}

/// What local movement did: the final label of every node and its work counters.
pub struct MoveOutcome {
    pub labels: Vec<usize>,
    pub nodes_reconsidered: u64,
    pub successful_moves: u64,
    pub neighbour_label_evaluations: u64,
    pub safety_bound_reached: bool,
}

/// The work bound: nodes times the larger of edges and nodes (each at least one).
pub open spec fn safety_bound_of(n: int, m: int) -> int {
    let a = if n > 1 { n } else { 1 };
    let b = if m > n { m } else { n };
    let b1 = if b > 1 { b } else { 1 };
    a * b1
}

/// The rows of an adjacency.
pub open spec fn rows_of(adj: Seq<Vec<(usize, u64)>>) -> Seq<Seq<(usize, u64)>> {
    adj.map_values(|v: Vec<(usize, u64)>| v@)
}

/// The outcome of local movement from the initial state over `rows`.
pub open spec fn movement(rows: Seq<Seq<(usize, u64)>>, degrees: Seq<u64>, total: int, m: int) -> MoveResult {
    run(initial_state(rows.len()), rows, degrees, total, safety_bound_of(rows.len() as int, m) as nat)
}

/// The state a run of the loop is in.
pub open spec fn state_of(labels: Seq<usize>, active: Seq<bool>, reconsidered: u64, moves: u64, evaluations: u64) -> MoveState {
    MoveState { labels, active, reconsidered: reconsidered as nat, moves: moves as nat, evaluations: evaluations as nat }
}

proof fn lemma_label_weight_step(row: Seq<(usize, u64)>, labels: Seq<usize>, l: int, k: int)
    requires
        0 <= k < row.len(),
    ensures
        label_weight(row.take(k + 1), labels, l) == label_weight(row.take(k), labels, l) + if labels[row[k].0 as int] == l {
            row[k].1 as int
        } else {
            0
        },
        touched_labels(row.take(k + 1), labels) == if touched_labels(row.take(k), labels).contains(labels[row[k].0 as int]) {
            touched_labels(row.take(k), labels)
        } else {
            touched_labels(row.take(k), labels).push(labels[row[k].0 as int])
        },
{
    assert(row.take(k + 1).drop_last() =~= row.take(k));
    assert(row.take(k + 1).last() == row[k]);
}

/// Adds up, per label, the weight of the row's neighbours that carry it,
/// and lists the labels a visit weighs, exactly the [`candidate_labels`].
fn gather_weights(
    row: &Vec<(usize, u64)>,
    labels: &Vec<usize>,
    current: usize,
    label_weights: &mut Vec<u64>,
    touched: &mut Vec<usize>,
    Ghost(n): Ghost<usize>,
)
    requires
        row_ok(row@, n as int),
        row_sum(row@) < 0x8000_0000_0000_0000,
        labels@.len() == n,
        forall|a: int| 0 <= a < n ==> #[trigger] labels@[a] < n,
        current < n,
        old(label_weights)@.len() == n,
        forall|l: int| 0 <= l < n ==> #[trigger] old(label_weights)@[l] == 0,
        old(touched)@.len() == 0,
    ensures
        final(label_weights)@.len() == n,
        forall|l: int| 0 <= l < n ==> #[trigger] final(label_weights)@[l] == label_weight(row@, labels@, l),
        forall|l: int| 0 <= l < n ==> #[trigger] final(label_weights)@[l] <= row_sum(row@),
        final(touched)@ == candidate_labels(row@, labels@, current),
        forall|q: int| 0 <= q < final(touched)@.len() ==> #[trigger] final(touched)@[q] < n,
        forall|l: int| 0 <= l < n && #[trigger] final(label_weights)@[l] != 0 ==> final(touched)@.contains(l as usize),
{
    let mut k: usize = 0;
    assert(row@.take(0) =~= Seq::<(usize, u64)>::empty());
    while k < row.len()
        invariant
            row_ok(row@, n as int),
            row_sum(row@) < 0x8000_0000_0000_0000,
            labels@.len() == n,
            forall|a: int| 0 <= a < n ==> #[trigger] labels@[a] < n,
            k <= row@.len(),
            label_weights@.len() == n,
            forall|l: int| 0 <= l < n ==> #[trigger] label_weights@[l] <= row_sum(row@.take(k as int)),
            forall|l: int| 0 <= l < n ==> #[trigger] label_weights@[l] == label_weight(row@.take(k as int), labels@, l),
            forall|l: int| 0 <= l < n ==> (label_weights@[l] != 0 <==> #[trigger] touched@.contains(l as usize)),
            touched@ == touched_labels(row@.take(k as int), labels@),
            forall|t: int| 0 <= t < touched@.len() ==> #[trigger] touched@[t] < n,
        decreases row@.len() - k,
    {
        let (nbr, w) = row[k];
        proof {
            lemma_row_sum_nonneg_prefix(row@, k + 1);
            lemma_row_sum_nonneg_prefix(row@, k as int);
            assert(row@.take(k + 1).drop_last() =~= row@.take(k as int));
            assert forall|l: int| 0 <= l < n implies #[trigger] label_weight(row@.take(k + 1), labels@, l) == label_weight(
                row@.take(k as int),
                labels@,
                l,
            ) + if labels@[nbr as int] == l { w as int } else { 0 } by {
                lemma_label_weight_step(row@, labels@, l, k as int);
            }
            lemma_label_weight_step(row@, labels@, 0, k as int);
        }
        let label = labels[nbr];
        let ghost before = touched@;
        proof {
            let li = label as int;
            assert(0 <= li < n);
            assert(li as usize == label);
            assert(label_weights@[li] != 0 <==> before.contains(li as usize));
        }
        if label_weights[label] == 0 {
            touched.push(label);
        }
        label_weights.set(label, label_weights[label] + w);
        proof {
            assert forall|l: int| 0 <= l < n implies (label_weights@[l] != 0 <==> #[trigger] touched@.contains(l as usize)) by {
                if l == label {
                    assert(touched@.contains(label));
                } else {
                    if before.contains(l as usize) {
                        let q = choose|q: int| 0 <= q < before.len() && before[q] == l as usize;
                        assert(touched@[q] == before[q]);
                    }
                    if touched@.contains(l as usize) {
                        let q = choose|q: int| 0 <= q < touched@.len() && touched@[q] == l as usize;
                        if q < before.len() {
                            assert(before[q] == touched@[q]);
                        }
                    }
                }
            }
        }
        k = k + 1;
    }
    proof {
        assert(row@.take(row@.len() as int) =~= row@);
        let ci = current as int;
        assert(ci as usize == current);
        assert(label_weights@[ci] != 0 <==> touched@.contains(ci as usize));
    }
    let ghost before_push = touched@;
    if label_weights[current] == 0 {
        touched.push(current);
    }
    proof {
        assert forall|l: int| 0 <= l < n && #[trigger] label_weights@[l] != 0 implies touched@.contains(l as usize) by {
            assert(before_push.contains(l as usize));
            let q = choose|q: int| 0 <= q < before_push.len() && before_push[q] == l as usize;
            assert(touched@[q] == before_push[q]);
        }
    }
}

/// The best of the candidate labels as [`pick`] states it, with its score and
/// the score of staying put.
fn best_label(
    cands: &Vec<usize>,
    label_weights: &Vec<u64>,
    volumes: &Vec<u64>,
    total: u64,
    degree: u64,
    current: usize,
    Ghost(row): Ghost<Seq<(usize, u64)>>,
    Ghost(labels): Ghost<Seq<usize>>,
    Ghost(degrees): Ghost<Seq<u64>>,
    Ghost(node): Ghost<int>,
) -> (r: (usize, i128, i128))
    requires
        0 <= node < labels.len(),
        current == labels[node],
        degree == degrees[node],
        current < labels.len(),
        label_weights@.len() == labels.len(),
        volumes@.len() == labels.len(),
        forall|q: int| 0 <= q < cands@.len() ==> #[trigger] cands@[q] < labels.len(),
        forall|l: int| 0 <= l < labels.len() ==> #[trigger] label_weights@[l] == label_weight(row, labels, l),
        forall|l: int| 0 <= l < labels.len() ==> #[trigger] label_weights@[l] < 0x8000_0000_0000_0000,
        forall|l: int| 0 <= l < labels.len() ==> #[trigger] volumes@[l] == volume_without(labels, degrees, l, node),
        forall|l: int| 0 <= l < labels.len() ==> #[trigger] volumes@[l] < 0x8000_0000_0000_0000,
        degree < 0x8000_0000_0000_0000,
        total < 0x8000_0000_0000_0000,
    ensures
        r.2 == candidate_score(row, labels, degrees, total as int, node, current as int),
        (r.0, r.1 as int) == pick(cands@, row, labels, degrees, total as int, node),
        r.0 < labels.len(),
{
    let staying_score = score_of(label_weights[current], total, degree, volumes[current]);
    let mut next = current;
    let mut next_score = staying_score;
    let mut t: usize = 0;
    assert(cands@.take(0) =~= Seq::<usize>::empty());
    while t < cands.len()
        invariant
            0 <= node < labels.len(),
            current == labels[node],
            degree == degrees[node],
            label_weights@.len() == labels.len(),
            volumes@.len() == labels.len(),
            forall|q: int| 0 <= q < cands@.len() ==> #[trigger] cands@[q] < labels.len(),
            forall|l: int| 0 <= l < labels.len() ==> #[trigger] label_weights@[l] == label_weight(row, labels, l),
            forall|l: int| 0 <= l < labels.len() ==> #[trigger] label_weights@[l] < 0x8000_0000_0000_0000,
            forall|l: int| 0 <= l < labels.len() ==> #[trigger] volumes@[l] == volume_without(labels, degrees, l, node),
            forall|l: int| 0 <= l < labels.len() ==> #[trigger] volumes@[l] < 0x8000_0000_0000_0000,
            degree < 0x8000_0000_0000_0000,
            total < 0x8000_0000_0000_0000,
            staying_score == candidate_score(row, labels, degrees, total as int, node, current as int),
            (next, next_score as int) == pick(cands@.take(t as int), row, labels, degrees, total as int, node),
            next < labels.len(),
            t <= cands@.len(),
        decreases cands@.len() - t,
    {
        let label = cands[t];
        let candidate_score = score_of(label_weights[label], total, degree, volumes[label]);
        assert(cands@.take(t + 1).drop_last() =~= cands@.take(t as int));
        assert(cands@.take(t + 1).last() == label);
        if is_better_candidate(label, candidate_score, next, next_score, staying_score) {
            next = label;
            next_score = candidate_score;
        }
        t = t + 1;
    }
    assert(cands@.take(cands@.len() as int) =~= cands@);
    (next, next_score, staying_score)
}

/// Sets back to zero every weight that the touched labels hold.
fn clear_weights(touched: &Vec<usize>, label_weights: &mut Vec<u64>, Ghost(n): Ghost<usize>)
    requires
        old(label_weights)@.len() == n,
        forall|q: int| 0 <= q < touched@.len() ==> #[trigger] touched@[q] < n,
        forall|l: int| 0 <= l < n && #[trigger] old(label_weights)@[l] != 0 ==> touched@.contains(l as usize),
    ensures
        final(label_weights)@.len() == n,
        forall|l: int| 0 <= l < n ==> #[trigger] final(label_weights)@[l] == 0,
{
    let mut z: usize = 0;
    while z < touched.len()
        invariant
            label_weights@.len() == n,
            forall|q: int| 0 <= q < touched@.len() ==> #[trigger] touched@[q] < n,
            forall|l: int| 0 <= l < n && label_weights@[l] != 0 ==> exists|q: int| z <= q < touched@.len() && touched@[q] == l,
            z <= touched@.len(),
        decreases touched@.len() - z,
    {
        let ghost lw = label_weights@;
        label_weights.set(touched[z], 0);
        assert forall|l: int| 0 <= l < n && label_weights@[l] != 0 implies exists|q: int| z + 1 <= q < touched@.len() && touched@[q] == l by {
            assert(lw[l] != 0);
            let q = choose|q: int| z <= q < touched@.len() && touched@[q] == l;
            assert(q != z);
        }
        z = z + 1;
    }
}

/// Wakes every neighbour in `row`, keeping the count of active nodes and
/// the cursor below which none is active.
fn wake_neighbours(
    row: &Vec<(usize, u64)>,
    active: &mut Vec<bool>,
    active_count: &mut usize,
    cursor: &mut usize,
    Ghost(n): Ghost<usize>,
)
    requires
        row_ok(row@, n as int),
        old(active)@.len() == n,
        *old(active_count) == count_true(old(active)@),
        *old(cursor) <= n,
        forall|a: int| 0 <= a < *old(cursor) ==> !#[trigger] old(active)@[a],
    ensures
        final(active)@ == wake_upto(old(active)@, row@, row@.len() as int),
        *final(active_count) == count_true(final(active)@),
        *final(cursor) <= n,
        forall|a: int| 0 <= a < *final(cursor) ==> !#[trigger] final(active)@[a],
{
    let ghost start = active@;
    let mut k: usize = 0;
    assert(active@ =~= wake_upto(start, row@, 0));
    while k < row.len()
        invariant
            row_ok(row@, n as int),
            active@.len() == n,
            start.len() == n,
            *active_count == count_true(active@),
            *cursor <= n,
            forall|a: int| 0 <= a < *cursor ==> !#[trigger] active@[a],
            k <= row@.len(),
            active@ == wake_upto(start, row@, k as int),
        decreases row@.len() - k,
    {
        let nbr = row[k].0;
        if !active[nbr] {
            proof {
                lemma_count_set(active@, nbr as int, true);
                lemma_count_le(active@.update(nbr as int, true));
            }
            active.set(nbr, true);
            *active_count = *active_count + 1;
            if nbr < *cursor {
                *cursor = nbr;
            }
        }
        proof {
            assert(active@ =~= wake_upto(start, row@, k + 1)) by {
                assert forall|a: int| 0 <= a < n implies #[trigger] active@[a] == wake_upto(start, row@, k + 1)[a] by {
                    if exists|q: int| 0 <= q < k + 1 && (#[trigger] row@[q]).0 == a {
                        let q = choose|q: int| 0 <= q < k + 1 && (#[trigger] row@[q]).0 == a;
                        if q < k {
                            assert(wake_upto(start, row@, k as int)[a]);
                        }
                    }
                    if exists|q: int| 0 <= q < k && (#[trigger] row@[q]).0 == a {
                        let q = choose|q: int| 0 <= q < k && (#[trigger] row@[q]).0 == a;
                        assert(0 <= q < k + 1);
                    }
                }
            }
        }
        k = k + 1;
    }
}

/// Deterministic local movement over the adjacency of `n` nodes: exactly
/// the [`movement`] of its rows, which visits the active node with the
/// smallest index, moves it to its [`destination`], wakes its neighbours
/// when it moved, and stops when no node is active or after
/// `safety_bound_of(n, m)` visits.
pub fn local_moving(adj: &Vec<Vec<(usize, u64)>>, degrees: &Vec<u64>, total: u64, m: usize) -> (o: MoveOutcome)
    requires
        adjacency_ok(adj@, degrees@, total as int, adj@.len() as int),
        total < 0x8000_0000_0000_0000,
        adj@.len() < 0x1_0000_0000,
        m < 0x1_0000_0000,
    ensures
        o.labels@.len() == adj@.len(),
        forall|i: int| 0 <= i < o.labels@.len() ==> #[trigger] o.labels@[i] < adj@.len(),
        o.successful_moves <= o.nodes_reconsidered,
        o.nodes_reconsidered <= safety_bound_of(adj@.len() as int, m as int),
        ({
            let r = movement(rows_of(adj@), degrees@, total as int, m as int);
            &&& o.labels@ == r.labels
            &&& o.nodes_reconsidered == r.reconsidered
            &&& o.successful_moves == r.moves
            &&& o.neighbour_label_evaluations == r.evaluations
            &&& o.safety_bound_reached == r.bound_reached
        }),
{
    let n = adj.len();
    let ghost rows = rows_of(adj@);
    let mut labels: Vec<usize> = Vec::new();
    let mut volumes: Vec<u64> = Vec::new();
    let mut active: Vec<bool> = Vec::new();
    let mut label_weights: Vec<u64> = Vec::new();
    let mut i: usize = 0;
    while i < n
        invariant
            i <= n,
            n == adj@.len(),
            degrees@.len() == n,
            labels@.len() == i,
            volumes@.len() == i,
            active@.len() == i,
            label_weights@.len() == i,
            forall|a: int| 0 <= a < i ==> #[trigger] labels@[a] == a,
            forall|a: int| 0 <= a < i ==> #[trigger] volumes@[a] == degrees@[a],
            forall|a: int| 0 <= a < i ==> #[trigger] active@[a],
            forall|a: int| 0 <= a < i ==> #[trigger] label_weights@[a] == 0,
        decreases n - i,
    {
        labels.push(i);
        volumes.push(degrees[i]);
        active.push(true);
        label_weights.push(0);
        i = i + 1;
    }
    proof {
        lemma_count_all(active@);
        assert forall|l: int| 0 <= l < n implies #[trigger] volumes@[l] == vol_upto(labels@, degrees@, l, n as int) by {
            lemma_vol_identity(labels@, degrees@, l, n as int);
        }
        assert(labels@ =~= initial_state(n as nat).labels);
        assert(active@ =~= initial_state(n as nat).active);
    }
    let mut active_count: usize = n;
    let mut cursor: usize = 0;
    let mut touched: Vec<usize> = Vec::new();
    let mut nodes_reconsidered: u64 = 0;
    let mut successful_moves: u64 = 0;
    let mut neighbour_label_evaluations: u64 = 0;
    let n1: usize = if n > 1 { n } else { 1 };
    let b0: usize = if m > n { m } else { n };
    let b1: usize = if b0 > 1 { b0 } else { 1 };
    assert(n1 * b1 < 0x1_0000_0000_0000_0000) by (nonlinear_arith)
        requires
            n1 < 0x1_0000_0000,
            b1 < 0x1_0000_0000,
            n1 >= 1,
            b1 >= 1,
    ;
    let safety_bound: u64 = (n1 as u64) * (b1 as u64);
    assert(safety_bound == safety_bound_of(n as int, m as int));
    let ghost target = movement(rows, degrees@, total as int, m as int);
    assert(rows.len() == n);
    while active_count > 0
        invariant_except_break
            run(state_of(labels@, active@, nodes_reconsidered, successful_moves, neighbour_label_evaluations), rows, degrees@, total as int, safety_bound as nat) == target,
        invariant
            n == adj@.len(),
            rows == rows_of(adj@),
            adjacency_ok(adj@, degrees@, total as int, n as int),
            total < 0x8000_0000_0000_0000,
            labels@.len() == n,
            volumes@.len() == n,
            active@.len() == n,
            label_weights@.len() == n,
            forall|a: int| 0 <= a < n ==> #[trigger] labels@[a] < n,
            forall|l: int| 0 <= l < n ==> #[trigger] volumes@[l] == vol_upto(labels@, degrees@, l, n as int),
            forall|l: int| 0 <= l < n ==> #[trigger] label_weights@[l] == 0,
            touched@.len() == 0,
            active_count == count_true(active@),
            cursor <= n,
            forall|a: int| 0 <= a < cursor ==> !#[trigger] active@[a],
            successful_moves <= nodes_reconsidered,
            nodes_reconsidered <= safety_bound,
            safety_bound == safety_bound_of(n as int, m as int),
        ensures
            target == (MoveResult {
                labels: labels@,
                reconsidered: nodes_reconsidered as nat,
                moves: successful_moves as nat,
                evaluations: neighbour_label_evaluations as nat,
                bound_reached: active_count > 0,
            }),
            labels@.len() == n,
            forall|a: int| 0 <= a < n ==> #[trigger] labels@[a] < n,
            successful_moves <= nodes_reconsidered,
            nodes_reconsidered <= safety_bound,
        decreases safety_bound - nodes_reconsidered,
    {
        let ghost st = state_of(labels@, active@, nodes_reconsidered, successful_moves, neighbour_label_evaluations);
        proof {
            lemma_count_finds(active@, cursor as int);
        }
        while !active[cursor]
            invariant
                cursor < n,
                n == active@.len(),
                exists|j: int| cursor <= j < n && active@[j],
                forall|a: int| 0 <= a < cursor ==> !#[trigger] active@[a],
            decreases n - cursor,
        {
            cursor = cursor + 1;
        }
        let node = cursor;
        proof {
            lemma_first_true(active@, node as int);
            lemma_count_set(active@, node as int, false);
        }
        active.set(node, false);
        active_count = active_count - 1;
        let ghost off = MoveState { active: active@, ..st };
        if nodes_reconsidered >= safety_bound {
            break;
        }
        nodes_reconsidered = nodes_reconsidered + 1;
        let degree = degrees[node];
        let current = labels[node];
        proof {
            lemma_vol_has(labels@, degrees@, current as int, n as int, node as int);
            lemma_sum_bounds(degrees@, n as int, node as int);
        }
        volumes.set(current, volumes[current] - degree);
        let row = &adj[node];
        proof {
            assert(rows[node as int] == row@);
            assert(row_ok(row@, n as int));
            assert(row_sum(row@) == degree);
            assert forall|l: int| 0 <= l < n implies #[trigger] volumes@[l] <= total by {
                lemma_vol_le(labels@, degrees@, l, n as int);
            }
            assert forall|l: int| 0 <= l < n implies #[trigger] volumes@[l] == volume_without(labels@, degrees@, l, node as int) by {}
        }
        gather_weights(row, &labels, current, &mut label_weights, &mut touched, Ghost(n));
        neighbour_label_evaluations = neighbour_label_evaluations.saturating_add(row.len() as u64);
        let (next, next_score, staying_score) = best_label(
            &touched,
            &label_weights,
            &volumes,
            total,
            degree,
            current,
            Ghost(row@),
            Ghost(labels@),
            Ghost(degrees@),
            Ghost(node as int),
        );
        clear_weights(&touched, &mut label_weights, Ghost(n));
        touched.clear();
        let ghost before_labels = labels@;
        let ghost dest = destination(row@, before_labels, degrees@, total as int, node as int);
        assert(dest == (if next != current && next_score > staying_score { next } else { current }));
        if next != current && next_score > staying_score {
            labels.set(node, next);
            successful_moves = successful_moves + 1;
            wake_neighbours(row, &mut active, &mut active_count, &mut cursor, Ghost(n));
        }
        proof {
            let after = labels@;
            assert forall|l: int| 0 <= l < n implies vol_upto(after, degrees@, l, n as int) == vol_upto(before_labels, degrees@, l, n as int)
                - (if current == l { degree as int } else { 0 }) + (if after[node as int] == l { degree as int } else { 0 }) by {
                lemma_vol_update(before_labels, degrees@, l, n as int, node as int, after[node as int]);
                assert(after == before_labels.update(node as int, after[node as int]));
            }
            lemma_vol_le(after, degrees@, after[node as int] as int, n as int);
            let v = visit(off, node as int, rows, degrees@, total as int);
            assert(v.labels == labels@);
            assert(v.active == active@);
            assert(v.moves == successful_moves as nat);
            assert(v.evaluations == neighbour_label_evaluations as nat);
            assert(state_of(labels@, active@, nodes_reconsidered, successful_moves, neighbour_label_evaluations) == v);
        }
        let dest_label = labels[node];
        volumes.set(dest_label, volumes[dest_label] + degree);
    }
    let safety_bound_reached = active_count > 0;
    MoveOutcome { labels, nodes_reconsidered, successful_moves, neighbour_label_evaluations, safety_bound_reached }
}

/// The nodes below `k` labelled `l`, in increasing order.
pub open spec fn members_upto(labels: Seq<usize>, l: int, k: int) -> Seq<usize>
    decreases k,
{
    if k <= 0 {
        Seq::empty()
    } else if labels[k - 1] == l {
        members_upto(labels, l, k - 1).push((k - 1) as usize)
    } else {
        members_upto(labels, l, k - 1)
    }
}

/// The nodes labelled `l`, in increasing order.
pub open spec fn members_of(labels: Seq<usize>, l: int) -> Seq<usize> {
    members_upto(labels, l, labels.len() as int)
}

/// A community is kept when it has two or more members.
pub open spec fn retained(labels: Seq<usize>, l: int) -> bool {
    members_of(labels, l).len() >= 2
}

/// The edges with both ends labelled `l`.
pub open spec fn intra_count(edges: Seq<IndexedEdge>, labels: Seq<usize>, l: int) -> nat
    decreases edges.len(),
{
    if edges.len() == 0 {
        0
    } else {
        let e = edges.last();
        intra_count(edges.drop_last(), labels, l) + if labels[e.source as int] == l && labels[e.target as int] == l {
            1nat
        } else {
            0nat
        }
    }
}

/// How many ends of edges inside a community are at node `i`.
pub open spec fn internal_degree(edges: Seq<IndexedEdge>, labels: Seq<usize>, i: int) -> nat
    decreases edges.len(),
{
    if edges.len() == 0 {
        0
    } else {
        let e = edges.last();
        let inside = labels[e.source as int] == labels[e.target as int];
        internal_degree(edges.drop_last(), labels, i) + if inside {
            (if e.source == i { 1nat } else { 0nat }) + (if e.target == i { 1nat } else { 0nat })
        } else {
            0nat
        }
    }
}

/// The ids of the relations that cross the boundary of community `l`, in order.
pub open spec fn boundary_ids(edges: Seq<IndexedEdge>, rels: Seq<RelationView>, labels: Seq<usize>, l: int) -> Seq<Seq<char>>
    decreases edges.len(),
{
    if edges.len() == 0 {
        Seq::empty()
    } else {
        let e = edges.last();
        let prior = boundary_ids(edges.drop_last(), rels, labels, l);
        let ls = labels[e.source as int];
        let lt = labels[e.target as int];
        if ls != lt && (ls == l || lt == l) {
            prior.push(rels[e.relation as int].id)
        } else {
            prior
        }
    }
}

/// Node `i` is an end of some edge between two communities.
pub open spec fn is_bridge(edges: Seq<IndexedEdge>, labels: Seq<usize>, i: int) -> bool
    decreases edges.len(),
{
    if edges.len() == 0 {
        false
    } else {
        let e = edges.last();
        is_bridge(edges.drop_last(), labels, i) || (labels[e.source as int] != labels[e.target as int] && (e.source
            == i || e.target == i))
    }
}

/// The name of the last package node with id `id`, if any.
pub open spec fn package_name(nodes: Seq<GraphNode>, id: Seq<char>) -> Option<Seq<char>>
    decreases nodes.len(),
{
    if nodes.len() == 0 {
        None
    } else {
        match nodes.last() {
            GraphNode::Package(p) => if p.id@ == id {
                Some(p.name@)
            } else {
                package_name(nodes.drop_last(), id)
            },
            _ => package_name(nodes.drop_last(), id),
        }
    }
}

/// The package names of the member ids that name packages, in member order.
pub open spec fn member_packages(nodes: Seq<GraphNode>, members: Seq<Seq<char>>) -> Seq<Seq<char>>
    decreases members.len(),
{
    if members.len() == 0 {
        Seq::empty()
    } else {
        let prior = member_packages(nodes, members.drop_last());
        match package_name(nodes, members.last()) {
            Some(name) => prior.push(name),
            None => prior,
        }
    }
}

/// The value of a community summary.
pub struct CommunitySummaryView {
    pub id: Seq<char>,
    pub label: Seq<char>,
    pub members: Seq<Seq<char>>,
    pub intra_edges: nat,
    pub boundary_edges: Seq<Seq<char>>,
    pub representative_nodes: Seq<Seq<char>>,
    pub dominant_packages: Seq<Seq<char>>,
    pub bridge_nodes: Seq<Seq<char>>,
}

/// Member order for representatives: higher internal degree first.
pub open spec fn representative_order(edges: Seq<IndexedEdge>, labels: Seq<usize>) -> spec_fn(usize, usize) -> bool {
    |a: usize, b: usize| internal_degree(edges, labels, a as int) > internal_degree(edges, labels, b as int)
}

/// The ids of the given node indices.
pub open spec fn ids_at(ids: Seq<Seq<char>>, idx: Seq<usize>) -> Seq<Seq<char>> {
    idx.map_values(|i: usize| ids[i as int])
}

/// The members that are bridges, in order.
pub open spec fn bridges_among(edges: Seq<IndexedEdge>, labels: Seq<usize>, members: Seq<usize>) -> Seq<usize>
    decreases members.len(),
{
    if members.len() == 0 {
        Seq::empty()
    } else if is_bridge(edges, labels, members.last() as int) {
        bridges_among(edges, labels, members.drop_last()).push(members.last())
    } else {
        bridges_among(edges, labels, members.drop_last())
    }
}

/// The summary of community `l`.
pub open spec fn summary_of(
    ids: Seq<Seq<char>>,
    edges: Seq<IndexedEdge>,
    rels: Seq<RelationView>,
    nodes: Seq<GraphNode>,
    labels: Seq<usize>,
    l: int,
) -> CommunitySummaryView {
    let members = members_of(labels, l);
    let first = ids[members[0] as int];
    CommunitySummaryView {
        id: "leiden:"@ + first,
        label: "Community "@ + first,
        members: ids_at(ids, members),
        intra_edges: intra_count(edges, labels, l),
        boundary_edges: boundary_ids(edges, rels, labels, l),
        representative_nodes: ids_at(ids, sort_spec(members, representative_order(edges, labels)).take(
            if members.len() < 5 { members.len() as int } else { 5 },
        )),
        dominant_packages: member_packages(nodes, ids_at(ids, members)),
        bridge_nodes: ids_at(ids, bridges_among(edges, labels, members)),
    }
}

/// The summaries of the kept communities among labels below `k`, by label.
pub open spec fn summaries_upto(
    ids: Seq<Seq<char>>,
    edges: Seq<IndexedEdge>,
    rels: Seq<RelationView>,
    nodes: Seq<GraphNode>,
    labels: Seq<usize>,
    k: int,
) -> Seq<CommunitySummaryView>
    decreases k,
{
    if k <= 0 {
        Seq::empty()
    } else if retained(labels, k - 1) {
        summaries_upto(ids, edges, rels, nodes, labels, k - 1).push(summary_of(ids, edges, rels, nodes, labels, k - 1))
    } else {
        summaries_upto(ids, edges, rels, nodes, labels, k - 1)
    }
}

/// Report order: larger communities first, then by id.
pub open spec fn summary_lt(a: CommunitySummaryView, b: CommunitySummaryView) -> bool {
    a.members.len() > b.members.len() || (a.members.len() == b.members.len() && crate::text::seq_less(a.id, b.id))
}

/// [`summary_lt`] as a value.
pub open spec fn summary_order() -> spec_fn(CommunitySummaryView, CommunitySummaryView) -> bool {
    |a: CommunitySummaryView, b: CommunitySummaryView| summary_lt(a, b)
}

/// Every kept community of `labels`, summarized and in report order.
pub open spec fn community_report(
    ids: Seq<Seq<char>>,
    edges: Seq<IndexedEdge>,
    rels: Seq<RelationView>,
    nodes: Seq<GraphNode>,
    labels: Seq<usize>,
) -> Seq<CommunitySummaryView> {
    sort_spec(summaries_upto(ids, edges, rels, nodes, labels, labels.len() as int), summary_order())
}


/// One detected community: its members, how tightly its relations hold it
/// together, and where it touches the rest of the graph.
#[derive(Debug, PartialEq, Eq)]
pub struct CommunitySummary {
    /// Stable id derived from its first member.
    pub id: String,
    /// Human-readable stable label.
    pub label: String,
    /// Community members in increasing id order.
    pub members: Vec<GraphNodeId>,
    /// Admitted relations with both ends inside.
    pub intra_edges: usize,
    /// Ids of admitted relations crossing the community boundary.
    pub boundary_edges: Vec<String>,
    /// Up to five members with the highest internal degree.
    pub representative_nodes: Vec<GraphNodeId>,
    /// Package names represented by members.
    pub dominant_packages: Vec<String>,
    /// Members that are an end of a boundary relation.
    pub bridge_nodes: Vec<GraphNodeId>,
}

impl View for CommunitySummary {
    type V = CommunitySummaryView;

    open spec fn view(&self) -> CommunitySummaryView {
        CommunitySummaryView {
            id: self.id@,
            label: self.label@,
            members: self.members@.map_values(|g: GraphNodeId| g@),
            intra_edges: self.intra_edges as nat,
            boundary_edges: views(self.boundary_edges@),
            representative_nodes: self.representative_nodes@.map_values(|g: GraphNodeId| g@),
            dominant_packages: views(self.dominant_packages@),
            bridge_nodes: self.bridge_nodes@.map_values(|g: GraphNodeId| g@),
        }
    }
}

/// The views of a list of summaries.
pub open spec fn summary_views(v: Seq<CommunitySummary>) -> Seq<CommunitySummaryView> {
    v.map_values(|c: CommunitySummary| c@)
}

/// The indexed edges are well formed for `n` nodes over `rels`.
pub open spec fn edges_ok(edges: Seq<IndexedEdge>, n: int, rels: Seq<RelationView>) -> bool {
    forall|j: int| 0 <= j < edges.len() ==> {
        &&& (#[trigger] edges[j]).source < n
        &&& edges[j].target < n
        &&& edges[j].relation < rels.len()
    }
}

fn node_ids_at(ids: &Vec<String>, idx: &Vec<usize>) -> (r: Vec<GraphNodeId>)
    requires
        forall|q: int| 0 <= q < idx@.len() ==> #[trigger] idx@[q] < ids@.len(),
    ensures
        r@.map_values(|g: GraphNodeId| g@) == ids_at(views(ids@), idx@),
{
    let mut r: Vec<GraphNodeId> = Vec::new();
    let mut q: usize = 0;
    while q < idx.len()
        invariant
            q <= idx@.len(),
            forall|a: int| 0 <= a < idx@.len() ==> #[trigger] idx@[a] < ids@.len(),
            r@.len() == q,
            forall|a: int| 0 <= a < q ==> (#[trigger] r@[a])@ == ids@[idx@[a] as int]@,
        decreases idx@.len() - q,
    {
        r.push(GraphNodeId::new(ids[idx[q]].as_str()));
        q = q + 1;
    }
    assert(r@.map_values(|g: GraphNodeId| g@) =~= ids_at(views(ids@), idx@));
    r
}

fn package_of(nodes: &Vec<GraphNode>, id: &str) -> (r: Option<String>)
    ensures
        match r {
            Some(name) => package_name(nodes@, id@) == Some(name@),
            None => package_name(nodes@, id@).is_none(),
        },
{
    let mut i: usize = nodes.len();
    assert(nodes@.subrange(0, i as int) =~= nodes@);
    while i > 0
        invariant
            i <= nodes@.len(),
            package_name(nodes@, id@) == package_name(nodes@.subrange(0, i as int), id@),
        decreases i,
    {
        assert(nodes@.subrange(0, i as int).drop_last() =~= nodes@.subrange(0, i - 1));
        match &nodes[i - 1] {
            GraphNode::Package(p) => {
                if str_eq(p.id.as_str(), id) {
                    return Some(owned(p.name.as_str()));
                }
            },
            _ => {},
        }
        i = i - 1;
    }
    None
}

fn copy_indices(v: &Vec<usize>) -> (r: Vec<usize>)
    ensures
        r@ == v@,
{
    let mut r: Vec<usize> = Vec::new();
    let mut i: usize = 0;
    while i < v.len()
        invariant
            i <= v@.len(),
            r@ == v@.subrange(0, i as int),
        decreases v@.len() - i,
    {
        r.push(v[i]);
        assert(r@ =~= v@.subrange(0, i + 1));
        i = i + 1;
    }
    assert(r@ =~= v@);
    r
}

/// Groups node indices by label: entry `l` lists the nodes labelled `l`.
fn group_by_label(labels: &Vec<usize>) -> (groups: Vec<Vec<usize>>)
    requires
        forall|i: int| 0 <= i < labels@.len() ==> #[trigger] labels@[i] < labels@.len(),
    ensures
        groups@.len() == labels@.len(),
        forall|l: int| 0 <= l < labels@.len() ==> (#[trigger] groups@[l])@ == members_of(labels@, l),
{
    let n = labels.len();
    let mut groups: Vec<Vec<usize>> = Vec::new();
    let mut i: usize = 0;
    while i < n
        invariant
            i <= n,
            n == labels@.len(),
            groups@.len() == i,
            forall|l: int| 0 <= l < i ==> (#[trigger] groups@[l])@ == Seq::<usize>::empty(),
        decreases n - i,
    {
        groups.push(Vec::new());
        i = i + 1;
    }
    let mut k: usize = 0;
    while k < n
        invariant
            k <= n,
            n == labels@.len(),
            groups@.len() == n,
            forall|a: int| 0 <= a < n ==> #[trigger] labels@[a] < n,
            forall|l: int| 0 <= l < n ==> (#[trigger] groups@[l])@ == members_upto(labels@, l, k as int),
        decreases n - k,
    {
        let l = labels[k];
        let mut row = copy_indices(&groups[l]);
        row.push(k);
        groups.set(l, row);
        k = k + 1;
    }
    groups
}

/// The integer summary of every kept community of `labels`, in report order.
pub fn summarize(ids: &Vec<String>, edges: &Vec<IndexedEdge>, graph: &Graph, labels: &Vec<usize>) -> (r: Vec<CommunitySummary>)
    requires
        labels@.len() == ids@.len(),
        forall|i: int| 0 <= i < labels@.len() ==> #[trigger] labels@[i] < labels@.len(),
        edges_ok(edges@, ids@.len() as int, graph@.relations),
        edges@.len() < 0x4000_0000,
    ensures
        summary_views(r@) == community_report(views(ids@), edges@, graph@.relations, graph.nodes@, labels@),
{
    let n = labels.len();
    let ghost rv = graph@.relations;
    let ghost iv = views(ids@);
    let ghost ev = edges@;
    let ghost lv = labels@;
    let groups = group_by_label(labels);
    let mut intra: Vec<usize> = Vec::new();
    let mut internal: Vec<usize> = Vec::new();
    let mut boundaries: Vec<Vec<String>> = Vec::new();
    let mut bridge: Vec<bool> = Vec::new();
    let mut i: usize = 0;
    while i < n
        invariant
            i <= n,
            intra@.len() == i,
            internal@.len() == i,
            boundaries@.len() == i,
            bridge@.len() == i,
            forall|a: int| 0 <= a < i ==> #[trigger] intra@[a] == 0,
            forall|a: int| 0 <= a < i ==> #[trigger] internal@[a] == 0,
            forall|a: int| 0 <= a < i ==> (#[trigger] boundaries@[a])@.len() == 0,
            forall|a: int| 0 <= a < i ==> !#[trigger] bridge@[a],
        decreases n - i,
    {
        intra.push(0);
        internal.push(0);
        boundaries.push(Vec::new());
        bridge.push(false);
        i = i + 1;
    }
    assert(ev.take(0) =~= Seq::<IndexedEdge>::empty());
    assert forall|l: int| 0 <= l < n implies views((#[trigger] boundaries@[l])@) == boundary_ids(ev.take(0), rv, lv, l) by {
        assert(views(boundaries@[l]@) =~= Seq::<Seq<char>>::empty());
    }
    let mut j: usize = 0;
    while j < edges.len()
        invariant
            j <= ev.len(),
            ev == edges@,
            lv == labels@,
            rv == graph@.relations,
            n == labels@.len(),
            ev.len() < 0x4000_0000,
            edges_ok(ev, n as int, rv),
            forall|a: int| 0 <= a < n ==> #[trigger] lv[a] < n,
            intra@.len() == n,
            internal@.len() == n,
            boundaries@.len() == n,
            bridge@.len() == n,
            forall|l: int| 0 <= l < n ==> #[trigger] intra@[l] == intra_count(ev.take(j as int), lv, l),
            forall|l: int| 0 <= l < n ==> #[trigger] intra@[l] <= j,
            forall|a: int| 0 <= a < n ==> #[trigger] internal@[a] == internal_degree(ev.take(j as int), lv, a),
            forall|a: int| 0 <= a < n ==> #[trigger] internal@[a] <= 2 * j,
            forall|l: int| 0 <= l < n ==> views((#[trigger] boundaries@[l])@) == boundary_ids(ev.take(j as int), rv, lv, l),
            forall|a: int| 0 <= a < n ==> #[trigger] bridge@[a] == is_bridge(ev.take(j as int), lv, a),
        decreases ev.len() - j,
    {
        let e = &edges[j];
        let s = e.source;
        let t = e.target;
        let ls = labels[s];
        let lt = labels[t];
        assert(ev.take(j + 1).drop_last() =~= ev.take(j as int));
        assert(ev.take(j + 1).last() == *e);
        if ls == lt {
            intra.set(ls, intra[ls] + 1);
            internal.set(s, internal[s] + 1);
            internal.set(t, internal[t] + 1);
        } else {
            let id = &graph.relations[e.relation].id;
            let mut bs = clone_ids(&boundaries[ls]);
            bs.push(owned(id.as_str()));
            boundaries.set(ls, bs);
            let mut bt = clone_ids(&boundaries[lt]);
            bt.push(owned(id.as_str()));
            boundaries.set(lt, bt);
            bridge.set(s, true);
            bridge.set(t, true);
        }
        proof {
            assert(rv[e.relation as int].id == graph.relations@[e.relation as int].id@);
            assert forall|l: int| 0 <= l < n implies views((#[trigger] boundaries@[l])@) == boundary_ids(ev.take(j + 1), rv, lv, l) by {
                if ls != lt && (ls == l || lt == l) {
                    assert(views(boundaries@[l]@) =~= boundary_ids(ev.take(j as int), rv, lv, l).push(rv[e.relation as int].id));
                }
            }
        }
        j = j + 1;
    }
    assert(ev.take(j as int) =~= ev);
    let mut out: Vec<CommunitySummary> = Vec::new();
    let mut l: usize = 0;
    while l < n
        invariant
            l <= n,
            n == labels@.len(),
            n == ids@.len(),
            iv == views(ids@),
            ev == edges@,
            lv == labels@,
            rv == graph@.relations,
            groups@.len() == n,
            forall|q: int| 0 <= q < n ==> (#[trigger] groups@[q])@ == members_of(lv, q),
            intra@.len() == n,
            internal@.len() == n,
            boundaries@.len() == n,
            bridge@.len() == n,
            forall|q: int| 0 <= q < n ==> #[trigger] intra@[q] == intra_count(ev, lv, q),
            forall|a: int| 0 <= a < n ==> #[trigger] internal@[a] == internal_degree(ev, lv, a),
            forall|q: int| 0 <= q < n ==> views((#[trigger] boundaries@[q])@) == boundary_ids(ev, rv, lv, q),
            forall|a: int| 0 <= a < n ==> #[trigger] bridge@[a] == is_bridge(ev, lv, a),
            summary_views(out@) == summaries_upto(iv, ev, rv, graph.nodes@, lv, l as int),
        decreases n - l,
    {
        let ghost before = summary_views(out@);
        let members = &groups[l];
        if members.len() >= 2 {
            proof {
                lemma_members_bounded(lv, l as int, n as int);
            }
            let summary = summarize_one(ids, graph, members, &internal, &bridge, intra[l], &boundaries[l], Ghost(ev), Ghost(lv), Ghost(l as int));
            out.push(summary);
            assert(summary_views(out@) =~= before.push(summary@));
        }
        l = l + 1;
    }
    let ghost unsorted = out@;
    let sorted = sort_by(out, summary_less, Ghost(summary_value_order()));
    proof {
        assert forall|a: CommunitySummary, b: CommunitySummary| #[trigger] (summary_value_order())(a, b) == (summary_order())(
            (summary_view_fn())(a),
            (summary_view_fn())(b),
        ) by {}
        lemma_sort_map(unsorted, summary_view_fn(), summary_value_order(), summary_order());
        assert(summary_views(unsorted) =~= unsorted.map_values(summary_view_fn()));
        assert(summary_views(sorted@) =~= sorted@.map_values(summary_view_fn()));
    }
    sorted
}

proof fn lemma_members_bounded(labels: Seq<usize>, l: int, k: int)
    requires
        0 <= k <= labels.len(),
        labels.len() <= usize::MAX,
    ensures
        forall|q: int| 0 <= q < members_upto(labels, l, k).len() ==> #[trigger] members_upto(labels, l, k)[q] < k,
        forall|q: int| 0 <= q < members_upto(labels, l, k).len() ==> labels[#[trigger] members_upto(labels, l, k)[q] as int] == l,
        members_upto(labels, l, k).len() <= k,
    decreases k,
{
    if k > 0 {
        lemma_members_bounded(labels, l, k - 1);
    }
}

/// No id is a member of both communities.
pub open spec fn members_disjoint(a: CommunitySummaryView, b: CommunitySummaryView) -> bool {
    forall|x: Seq<char>| !(a.members.contains(x) && b.members.contains(x))
}

/// [`members_disjoint`] as a value.
pub open spec fn disjoint_members() -> spec_fn(CommunitySummaryView, CommunitySummaryView) -> bool {
    |a: CommunitySummaryView, b: CommunitySummaryView| members_disjoint(a, b)
}

proof fn lemma_summary_members(ids: Seq<Seq<char>>, labels: Seq<usize>, l: int, x: Seq<char>)
    requires
        labels.len() == ids.len(),
        labels.len() <= usize::MAX,
        ids_at(ids, members_of(labels, l)).contains(x),
    ensures
        exists|i: int| 0 <= i < labels.len() && labels[i] == l && ids[i] == x,
{
    lemma_members_bounded(labels, l, labels.len() as int);
    let m = members_of(labels, l);
    let q = choose|q: int| 0 <= q < ids_at(ids, m).len() && ids_at(ids, m)[q] == x;
    let i = m[q] as int;
    assert(ids[i] == x && labels[i] == l);
}

proof fn lemma_summaries_partition(
    ids: Seq<Seq<char>>,
    edges: Seq<IndexedEdge>,
    rels: Seq<RelationView>,
    nodes: Seq<GraphNode>,
    labels: Seq<usize>,
    k: int,
)
    requires
        0 <= k <= labels.len(),
        labels.len() == ids.len(),
        labels.len() <= usize::MAX,
        ids.no_duplicates(),
    ensures
        forall|p: int| 0 <= p < summaries_upto(ids, edges, rels, nodes, labels, k).len() ==> (#[trigger] summaries_upto(
            ids,
            edges,
            rels,
            nodes,
            labels,
            k,
        )[p]).members.len() >= 2,
        forall|p: int, x: Seq<char>|
            0 <= p < summaries_upto(ids, edges, rels, nodes, labels, k).len() && #[trigger] summaries_upto(ids, edges, rels, nodes, labels, k)[p].members.contains(x)
                ==> exists|i: int| 0 <= i < labels.len() && labels[i] < k && ids[i] == x,
        forall|p: int, q: int|
            0 <= p < summaries_upto(ids, edges, rels, nodes, labels, k).len() && 0 <= q < summaries_upto(ids, edges, rels, nodes, labels, k).len()
                && p != q ==> members_disjoint(
                #[trigger] summaries_upto(ids, edges, rels, nodes, labels, k)[p],
                #[trigger] summaries_upto(ids, edges, rels, nodes, labels, k)[q],
            ),
    decreases k,
{
    if k > 0 {
        lemma_summaries_partition(ids, edges, rels, nodes, labels, k - 1);
        let prior = summaries_upto(ids, edges, rels, nodes, labels, k - 1);
        let all = summaries_upto(ids, edges, rels, nodes, labels, k);
        if retained(labels, k - 1) {
            let fresh = summary_of(ids, edges, rels, nodes, labels, k - 1);
            assert(all == prior.push(fresh));
            assert forall|p: int| 0 <= p < all.len() implies (#[trigger] all[p]).members.len() >= 2 by {
                if p < prior.len() {
                    assert(all[p] == prior[p]);
                }
            }
            assert forall|p: int, x: Seq<char>| 0 <= p < all.len() && #[trigger] all[p].members.contains(x) implies exists|i: int|
                0 <= i < labels.len() && labels[i] < k && ids[i] == x by {
                if p < prior.len() {
                    assert(all[p] == prior[p]);
                } else {
                    lemma_summary_members(ids, labels, k - 1, x);
                }
            }
            assert forall|p: int, q: int| 0 <= p < all.len() && 0 <= q < all.len() && p != q implies members_disjoint(
                #[trigger] all[p],
                #[trigger] all[q],
            ) by {
                if p < prior.len() && q < prior.len() {
                    assert(all[p] == prior[p] && all[q] == prior[q]);
                } else {
                    let old_pos = if p < prior.len() { p } else { q };
                    assert forall|x: Seq<char>| !(all[p].members.contains(x) && all[q].members.contains(x)) by {
                        if all[p].members.contains(x) && all[q].members.contains(x) {
                            assert(all[old_pos] == prior[old_pos]);
                            assert(prior[old_pos].members.contains(x));
                            let i = choose|i: int| 0 <= i < labels.len() && labels[i] < k - 1 && ids[i] == x;
                            assert(fresh.members.contains(x));
                            lemma_summary_members(ids, labels, k - 1, x);
                            let j = choose|j: int| 0 <= j < labels.len() && labels[j] == k - 1 && ids[j] == x;
                            assert(i != j);
                        }
                    }
                }
            }
        } else {
            assert forall|p: int, x: Seq<char>| 0 <= p < all.len() && #[trigger] all[p].members.contains(x) implies exists|i: int|
                0 <= i < labels.len() && labels[i] < k && ids[i] == x by {
                let i = choose|i: int| 0 <= i < labels.len() && labels[i] < k - 1 && ids[i] == x;
                assert(labels[i] < k);
            }
        }
    }
}

/// Every community of a report has at least two members, and no
/// participant is a member of two of them.
pub proof fn lemma_report_partitions(
    ids: Seq<Seq<char>>,
    edges: Seq<IndexedEdge>,
    rels: Seq<RelationView>,
    nodes: Seq<GraphNode>,
    labels: Seq<usize>,
)
    requires
        labels.len() == ids.len(),
        labels.len() <= usize::MAX,
        ids.no_duplicates(),
    ensures
        forall|p: int| 0 <= p < community_report(ids, edges, rels, nodes, labels).len() ==> (#[trigger] community_report(
            ids,
            edges,
            rels,
            nodes,
            labels,
        )[p]).members.len() >= 2,
        forall|p: int, q: int|
            0 <= p < community_report(ids, edges, rels, nodes, labels).len() && 0 <= q < community_report(ids, edges, rels, nodes, labels).len()
                && p != q ==> members_disjoint(
                #[trigger] community_report(ids, edges, rels, nodes, labels)[p],
                #[trigger] community_report(ids, edges, rels, nodes, labels)[q],
            ),
{
    let all = summaries_upto(ids, edges, rels, nodes, labels, labels.len() as int);
    lemma_summaries_partition(ids, edges, rels, nodes, labels, labels.len() as int);
    let rel = disjoint_members();
    assert forall|p: int, q: int| 0 <= p < all.len() && 0 <= q < all.len() && p != q implies #[trigger] rel(all[p], all[q]) by {
        assert(members_disjoint(all[p], all[q]));
    }
    crate::sorting::lemma_sort_pairwise(all, summary_order(), rel);
    crate::sorting::lemma_sort_elements(all, summary_order());
    let report = community_report(ids, edges, rels, nodes, labels);
    assert forall|p: int| 0 <= p < report.len() implies (#[trigger] report[p]).members.len() >= 2 by {
        assert(all.contains(report[p]));
        let m = choose|m: int| 0 <= m < all.len() && all[m] == report[p];
        assert(all[m].members.len() >= 2);
    }
    assert forall|p: int, q: int| 0 <= p < report.len() && 0 <= q < report.len() && p != q implies members_disjoint(
        #[trigger] report[p],
        #[trigger] report[q],
    ) by {
        assert(rel(report[p], report[q]));
    }
}

/// Report order on summaries.
pub open spec fn summary_value_order() -> spec_fn(CommunitySummary, CommunitySummary) -> bool {
    |a: CommunitySummary, b: CommunitySummary| summary_lt(a@, b@)
}

/// A summary's view as a value.
pub open spec fn summary_view_fn() -> spec_fn(CommunitySummary) -> CommunitySummaryView {
    |c: CommunitySummary| c@
}

fn summary_less(a: &CommunitySummary, b: &CommunitySummary) -> (r: bool)
    ensures
        r == summary_lt(a@, b@),
{
    a.members.len() > b.members.len() || (a.members.len() == b.members.len() && str_less(a.id.as_str(), b.id.as_str()))
}

fn clone_ids(v: &Vec<String>) -> (r: Vec<String>)
    ensures
        views(r@) == views(v@),
{
    let mut r: Vec<String> = Vec::new();
    let mut i: usize = 0;
    while i < v.len()
        invariant
            i <= v@.len(),
            r@.len() == i,
            forall|a: int| 0 <= a < i ==> (#[trigger] r@[a])@ == v@[a]@,
        decreases v@.len() - i,
    {
        r.push(owned(v[i].as_str()));
        i = i + 1;
    }
    assert(views(r@) =~= views(v@));
    r
}


/// A member paired with its internal degree.
pub open spec fn with_degree(edges: Seq<IndexedEdge>, labels: Seq<usize>) -> spec_fn(usize) -> (nat, usize) {
    |i: usize| (internal_degree(edges, labels, i as int), i)
}

/// Pairs ordered by higher first component.
pub open spec fn degree_pair_order() -> spec_fn((nat, usize), (nat, usize)) -> bool {
    |a: (nat, usize), b: (nat, usize)| a.0 > b.0
}

/// Machine pairs ordered by higher first component.
pub open spec fn pair_order() -> spec_fn((usize, usize), (usize, usize)) -> bool {
    |a: (usize, usize), b: (usize, usize)| a.0 > b.0
}

/// A machine pair as a pair with a natural first component.
pub open spec fn widen() -> spec_fn((usize, usize)) -> (nat, usize) {
    |a: (usize, usize)| (a.0 as nat, a.1)
}

fn pair_less(a: &(usize, usize), b: &(usize, usize)) -> (r: bool)
    ensures
        r == (pair_order())(*a, *b),
{
    a.0 > b.0
}

fn representatives(members: &Vec<usize>, internal: &Vec<usize>, Ghost(ev): Ghost<Seq<IndexedEdge>>, Ghost(lv): Ghost<Seq<usize>>) -> (r: Vec<usize>)
    requires
        forall|q: int| 0 <= q < members@.len() ==> #[trigger] members@[q] < internal@.len(),
        forall|a: int| 0 <= a < internal@.len() ==> #[trigger] internal@[a] == internal_degree(ev, lv, a),
    ensures
        r@ == sort_spec(members@, representative_order(ev, lv)).take(
            if members@.len() < 5 { members@.len() as int } else { 5 },
        ),
{
    let mut pairs: Vec<(usize, usize)> = Vec::new();
    let mut q: usize = 0;
    while q < members.len()
        invariant
            q <= members@.len(),
            forall|a: int| 0 <= a < members@.len() ==> #[trigger] members@[a] < internal@.len(),
            forall|a: int| 0 <= a < internal@.len() ==> #[trigger] internal@[a] == internal_degree(ev, lv, a),
            pairs@.map_values(widen()) == members@.subrange(0, q as int).map_values(with_degree(ev, lv)),
            pairs@.len() == q,
        decreases members@.len() - q,
    {
        let ghost before = pairs@;
        pairs.push((internal[members[q]], members[q]));
        assert(pairs@.map_values(widen()) =~= before.map_values(widen()).push((widen())(pairs@[q as int])));
        assert(members@.subrange(0, q + 1).map_values(with_degree(ev, lv)) =~= members@.subrange(0, q as int).map_values(
            with_degree(ev, lv),
        ).push((with_degree(ev, lv))(members@[q as int])));
        q = q + 1;
    }
    assert(members@.subrange(0, q as int) =~= members@);
    let ghost unsorted = pairs@;
    let sorted = sort_by(pairs, pair_less, Ghost(pair_order()));
    let ghost target = sort_spec(members@, representative_order(ev, lv));
    proof {
        assert forall|a: usize, b: usize| #[trigger] (representative_order(ev, lv))(a, b) == (degree_pair_order())(
            (with_degree(ev, lv))(a),
            (with_degree(ev, lv))(b),
        ) by {}
        lemma_sort_map(members@, with_degree(ev, lv), representative_order(ev, lv), degree_pair_order());
        assert forall|a: (usize, usize), b: (usize, usize)| #[trigger] (pair_order())(a, b) == (degree_pair_order())(
            (widen())(a),
            (widen())(b),
        ) by {}
        lemma_sort_map(unsorted, widen(), pair_order(), degree_pair_order());
        crate::sorting::lemma_sort_permutes(members@, representative_order(ev, lv));
        crate::sorting::lemma_sort_permutes(unsorted, pair_order());
        assert(sorted@.map_values(widen()) == target.map_values(with_degree(ev, lv)));
    }
    let limit: usize = if members.len() < 5 { members.len() } else { 5 };
    let mut r: Vec<usize> = Vec::new();
    let mut k: usize = 0;
    while k < limit
        invariant
            k <= limit,
            limit <= sorted@.len(),
            sorted@.len() == members@.len(),
            target.len() == members@.len(),
            limit == if members@.len() < 5 { members@.len() as int } else { 5 },
            sorted@.map_values(widen()) == target.map_values(with_degree(ev, lv)),
            r@ == target.take(k as int),
        decreases limit - k,
    {
        assert(sorted@.map_values(widen())[k as int] == target.map_values(with_degree(ev, lv))[k as int]);
        r.push(sorted[k].1);
        assert(r@ =~= target.take(k + 1));
        k = k + 1;
    }
    r
}

fn summarize_one(
    ids: &Vec<String>,
    graph: &Graph,
    members: &Vec<usize>,
    internal: &Vec<usize>,
    bridge: &Vec<bool>,
    intra: usize,
    boundary: &Vec<String>,
    Ghost(ev): Ghost<Seq<IndexedEdge>>,
    Ghost(lv): Ghost<Seq<usize>>,
    Ghost(l): Ghost<int>,
) -> (c: CommunitySummary)
    requires
        members@ == members_of(lv, l),
        members@.len() >= 2,
        forall|q: int| 0 <= q < members@.len() ==> #[trigger] members@[q] < ids@.len(),
        internal@.len() == ids@.len(),
        bridge@.len() == ids@.len(),
        forall|a: int| 0 <= a < internal@.len() ==> #[trigger] internal@[a] == internal_degree(ev, lv, a),
        forall|a: int| 0 <= a < bridge@.len() ==> #[trigger] bridge@[a] == is_bridge(ev, lv, a),
        intra == intra_count(ev, lv, l),
        views(boundary@) == boundary_ids(ev, graph@.relations, lv, l),
    ensures
        c@ == summary_of(views(ids@), ev, graph@.relations, graph.nodes@, lv, l),
{
    let ghost iv = views(ids@);
    let first = members[0];
    let id = cat("leiden:", ids[first].as_str());
    let label = cat("Community ", ids[first].as_str());
    let member_ids = node_ids_at(ids, members);
    let reps = representatives(members, internal, Ghost(ev), Ghost(lv));
    proof {
        crate::sorting::lemma_sort_permutes(members@, representative_order(ev, lv));
        assert forall|q: int| 0 <= q < reps@.len() implies #[trigger] reps@[q] < ids@.len() by {
            let t = sort_spec(members@, representative_order(ev, lv));
            assert(reps@[q] == t[q]);
            assert(t.to_multiset().count(t[q]) > 0);
            assert(members@.contains(t[q]));
        }
    }
    let rep_ids = node_ids_at(ids, &reps);
    let mut packages: Vec<String> = Vec::new();
    let mut bridges: Vec<usize> = Vec::new();
    let mut q: usize = 0;
    while q < members.len()
        invariant
            q <= members@.len(),
            iv == views(ids@),
            forall|a: int| 0 <= a < members@.len() ==> #[trigger] members@[a] < ids@.len(),
            bridge@.len() == ids@.len(),
            forall|a: int| 0 <= a < bridge@.len() ==> #[trigger] bridge@[a] == is_bridge(ev, lv, a),
            views(packages@) == member_packages(graph.nodes@, ids_at(iv, members@.subrange(0, q as int))),
            bridges@ == bridges_among(ev, lv, members@.subrange(0, q as int)),
            forall|a: int| 0 <= a < bridges@.len() ==> #[trigger] bridges@[a] < ids@.len(),
        decreases members@.len() - q,
    {
        let m = members[q];
        let ghost sub = members@.subrange(0, q + 1);
        assert(sub.drop_last() =~= members@.subrange(0, q as int));
        assert(ids_at(iv, sub).drop_last() =~= ids_at(iv, members@.subrange(0, q as int)));
        assert(ids_at(iv, sub).last() == ids@[m as int]@);
        match package_of(&graph.nodes, ids[m].as_str()) {
            Some(name) => {
                let ghost before = packages@;
                packages.push(name);
                assert(views(packages@) =~= views(before).push(name@));
            },
            None => {},
        }
        if bridge[m] {
            bridges.push(m);
        }
        q = q + 1;
    }
    assert(members@.subrange(0, q as int) =~= members@);
    let bridge_ids = node_ids_at(ids, &bridges);
    let c = CommunitySummary {
        id,
        label,
        members: member_ids,
        intra_edges: intra,
        boundary_edges: clone_ids(boundary),
        representative_nodes: rep_ids,
        dominant_packages: packages,
        bridge_nodes: bridge_ids,
    };
    assert(iv[members@[0] as int] == ids@[first as int]@);
    c
}


/// Deterministic work counters of one community detection.
#[derive(Debug, Clone, Copy, Default, PartialEq, Eq)]
pub struct CommunityDiagnostics {
    /// Nodes incident to at least one selected relation.
    pub participating_nodes: u64,
    /// Relations admitted by the selected scope.
    pub selected_edges: u64,
    /// Movement work expressed as sweeps over the participating nodes.
    pub iterations: u64,
    /// Number of active nodes whose candidate labels were evaluated.
    pub nodes_reconsidered: u64,
    /// Number of strictly beneficial label changes.
    pub successful_moves: u64,
    /// Weighted neighbour-label observations made by movement.
    pub neighbour_label_evaluations: u64,
    /// Selected relations visited while constructing summaries.
    pub summary_edge_visits: u64,
    /// Whether the movement safety bound was reached.
    pub safety_bound_reached: bool,
}

/// Community result with diagnostics.
#[derive(Debug, PartialEq, Eq)]
pub struct CommunityAnalysis {
    /// Community summaries in report order.
    pub communities: Vec<CommunitySummary>,
    /// Work counters.
    pub diagnostics: CommunityDiagnostics,
    /// Whether summaries came from a cached entry.
    pub cache_hit: bool,
}

/// The positions of the admitted relations of the graph.
pub open spec fn admitted_positions(rels: Seq<RelationView>, nodes: Seq<GraphNode>, scope: CommunityScope) -> Seq<usize> {
    admitted_indices(rels, nodes, scope, rels.len() as int).map_values(|i: int| i as usize)
}

/// The participating node ids: every end of an admitted relation, once, increasing.
pub open spec fn participant_ids(rels: Seq<RelationView>, nodes: Seq<GraphNode>, scope: CommunityScope) -> Seq<Seq<char>> {
    sorted_listing(end_ids(rels, admitted_positions(rels, nodes, scope)))
}

/// Detects communities with the deterministic local-moving phase and
/// reports its work.
///
/// The participants are exactly the ends of the relations `scope` admits,
/// in increasing id order; each community reported is summarized exactly
/// (members, internal relations, boundary relations, representatives,
/// packages, bridges) from the labels local movement ends with, larger
/// communities first, then by id. Those labels and the movement counters are
/// exactly the [`movement`] over the weighted adjacency of the admitted
/// relations, which [`lemma_weighted_rows_unique`] shows is unique.
/// `a` is what local movement gives for `graph` in `scope`: the
/// participants and admitted relations counted, and the communities and
/// diagnostics that [`movement`] yields over the weighted adjacency.
pub open spec fn analysis_of(graph: Graph, scope: CommunityScope, a: CommunityAnalysis) -> bool {
        ({
            let rels = graph@.relations;
            let sel = admitted_positions(rels, graph.nodes@, scope);
            let ids = participant_ids(rels, graph.nodes@, scope);
            &&& a.diagnostics.participating_nodes == ids.len()
            &&& a.diagnostics.selected_edges == sel.len()
            &&& a.diagnostics.summary_edge_visits == sel.len()
            &&& a.diagnostics.successful_moves <= a.diagnostics.nodes_reconsidered
            &&& a.diagnostics.iterations == (a.diagnostics.nodes_reconsidered + (if ids.len() > 0 { ids.len() - 1 } else { 0 })) / (
            if ids.len() > 1 { ids.len() as int } else { 1 })
            &&& !a.cache_hit
            &&& exists|labels: Seq<usize>, edges: Seq<IndexedEdge>, rows: Seq<Seq<(usize, u64)>>, degrees: Seq<u64>, total: int|
                #![trigger row_degrees(rows, degrees, total), community_report(ids, edges, rels, graph.nodes@, labels)]
                {
                    &&& labels.len() == ids.len()
                    &&& (forall|i: int| 0 <= i < labels.len() ==> #[trigger] labels[i] < ids.len())
                    &&& indexes_edges(edges, rels, sel, ids)
                    &&& weighted_rows(rows, edges, rels, scope, ids.len() as int)
                    &&& row_degrees(rows, degrees, total)
                    &&& movement(rows, degrees, total, edges.len() as int) == (MoveResult {
                        labels,
                        reconsidered: a.diagnostics.nodes_reconsidered as nat,
                        moves: a.diagnostics.successful_moves as nat,
                        evaluations: a.diagnostics.neighbour_label_evaluations as nat,
                        bound_reached: a.diagnostics.safety_bound_reached,
                    })
                    &&& summary_views(a.communities@) == community_report(ids, edges, rels, graph.nodes@, labels)
                }
        })
}

/// Detects the communities of `graph` under `scope`, with the work counters
/// of the detection ([`analysis_of`]).
///
/// The graph holds fewer than 2^30 relations: with every edge weight a
/// `u32`, the doubled weight total then stays below 2^63, so the
/// modularity gains compare exactly in 128-bit products. Each relation owns
/// an id, two node ids, and evidence on the heap, so a graph past that
/// bound would need over a hundred gigabytes for its relations alone.
pub fn leiden_communities_with_diagnostics(graph: &Graph, scope: &CommunityScope) -> (a: CommunityAnalysis)
    requires
        graph.relations@.len() < 0x4000_0000,
    ensures
        analysis_of(*graph, *scope, a),
{
    let ghost rels = graph@.relations;
    let sel = select_relations(graph, scope);
    proof {
        lemma_admitted_indices_bounded(rels, graph.nodes@, *scope, rels.len() as int);
        assert(sel@ =~= admitted_positions(rels, graph.nodes@, *scope)) by {
            assert forall|j: int| 0 <= j < sel@.len() implies sel@[j] == admitted_positions(rels, graph.nodes@, *scope)[j] by {
                assert(sel@.map_values(|i: usize| i as int)[j] == sel@[j] as int);
            }
        }
    }
    let ids = participants(graph, &sel);
    proof {
        lemma_sorted_listing(views(ids@), end_ids(rels, sel@));
    }
    let edges = index_edges(graph, &sel, &ids);
    let n = ids.len();
    proof {
        assert forall|j: int| 0 <= j < edges@.len() implies {
            &&& (#[trigger] edges@[j]).source < n
            &&& edges@[j].target < n
            &&& edges@[j].relation < graph.relations@.len()
            &&& weight_of(graph.relations@[edges@[j].relation as int].kind, *scope) > 0
        } by {
            let k = sel@[j] as int;
            assert(admitted_indices(rels, graph.nodes@, *scope, rels.len() as int)[j] == k);
            lemma_admitted_member(rels, graph.nodes@, *scope, rels.len() as int, j);
            assert(rels[k] == graph.relations@[k]@);
        }
        lemma_end_ids_bounded(rels, sel@);
        assert(views(ids@).no_duplicates()) by {
            assert forall|i: int, j: int| 0 <= i < views(ids@).len() && 0 <= j < views(ids@).len() && i != j
                implies views(ids@)[i] != views(ids@)[j] by {
                if i < j {
                    assert(crate::text::seq_less(views(ids@)[i], views(ids@)[j]));
                    crate::text::lemma_less_irreflexive(views(ids@)[i]);
                } else {
                    assert(crate::text::seq_less(views(ids@)[j], views(ids@)[i]));
                    crate::text::lemma_less_irreflexive(views(ids@)[j]);
                }
            }
        }
        views(ids@).unique_seq_to_set();
    }
    let (adj, degrees, total) = build_adjacency(graph, &edges, n, scope);
    let outcome = local_moving(&adj, &degrees, total, edges.len());
    let communities = summarize(&ids, &edges, graph, &outcome.labels);
    let n1: u64 = if n > 1 { n as u64 } else { 1 };
    let extra: u64 = if n > 0 { (n - 1) as u64 } else { 0 };
    assert(outcome.nodes_reconsidered + extra < 0x1_0000_0000_0000_0000) by (nonlinear_arith)
        requires
            outcome.nodes_reconsidered <= safety_bound_of(n as int, edges@.len() as int),
            n < 0x8000_0000,
            edges@.len() < 0x4000_0000,
            extra < 0x8000_0000,
    ;
    let iterations = (outcome.nodes_reconsidered + extra) / n1;
    let diagnostics = CommunityDiagnostics {
        participating_nodes: n as u64,
        selected_edges: sel.len() as u64,
        iterations,
        nodes_reconsidered: outcome.nodes_reconsidered,
        successful_moves: outcome.successful_moves,
        neighbour_label_evaluations: outcome.neighbour_label_evaluations,
        summary_edge_visits: sel.len() as u64,
        safety_bound_reached: outcome.safety_bound_reached,
    };
    proof {
        let sel_v = admitted_positions(rels, graph.nodes@, *scope);
        let ids_v = participant_ids(rels, graph.nodes@, *scope);
        assert(ids_v == views(ids@));
        assert(indexes_edges(edges@, rels, sel_v, ids_v));
        assert(summary_views(communities@) == community_report(ids_v, edges@, rels, graph.nodes@, outcome.labels@));
        assert(forall|i: int| 0 <= i < outcome.labels@.len() ==> #[trigger] outcome.labels@[i] < ids_v.len());
        let rows = rows_of(adj@);
        assert forall|i: int| 0 <= i < rows.len() implies #[trigger] degrees@[i] == row_sum(rows[i]) by {
            assert(row_sum(adj@[i]@) == degrees@[i]);
        }
        assert(row_degrees(rows, degrees@, total as int));
        assert(community_report(ids_v, edges@, rels, graph.nodes@, outcome.labels@) == community_report(ids_v, edges@, rels, graph.nodes@, outcome.labels@));
    }
    CommunityAnalysis { communities, diagnostics, cache_hit: false }
}

proof fn lemma_admitted_member(rels: Seq<RelationView>, nodes: Seq<GraphNode>, scope: CommunityScope, k: int, j: int)
    requires
        0 <= k <= rels.len(),
        0 <= j < admitted_indices(rels, nodes, scope, k).len(),
    ensures
        admitted(rels[admitted_indices(rels, nodes, scope, k)[j]], nodes, scope),
    decreases k,
{
    if k > 0 {
        if j < admitted_indices(rels, nodes, scope, k - 1).len() {
            lemma_admitted_member(rels, nodes, scope, k - 1, j);
        }
    }
}

proof fn lemma_end_ids_bounded(rels: Seq<RelationView>, sel: Seq<usize>)
    requires
        sel.len() < 0x4000_0000,
    ensures
        end_ids(rels, sel).finite(),
        end_ids(rels, sel).len() <= 2 * sel.len(),
    decreases sel.len(),
{
    if sel.len() == 0 {
        assert(end_ids(rels, sel) =~= Set::<Seq<char>>::empty());
    } else {
        let prev = sel.drop_last();
        lemma_end_ids_bounded(rels, prev);
        let e = rels[sel.last() as int];
        assert(end_ids(rels, sel) =~= end_ids(rels, prev).insert(e.source).insert(e.target)) by {
            assert forall|x: Seq<char>| end_ids(rels, sel).contains(x) <==> end_ids(rels, prev).insert(e.source).insert(e.target).contains(x) by {
                if end_ids(rels, sel).contains(x) {
                    let q = choose|q: int| 0 <= q < sel.len() && (rels[#[trigger] sel[q] as int].source == x || rels[sel[q] as int].target == x);
                    if q < sel.len() - 1 {
                        assert(prev[q] == sel[q]);
                    }
                }
                if end_ids(rels, prev).contains(x) {
                    let q = choose|q: int| 0 <= q < prev.len() && (rels[#[trigger] prev[q] as int].source == x || rels[prev[q] as int].target == x);
                    assert(sel[q] == prev[q]);
                }
                if x == e.source || x == e.target {
                    assert(sel[sel.len() - 1] == sel.last());
                }
            }
        }
    }
}

/// The communities of `graph` under `scope`, as
/// [`leiden_communities_with_diagnostics`] reports them.
pub fn leiden_communities(graph: &Graph, scope: &CommunityScope) -> (r: Vec<CommunitySummary>)
    requires
        graph.relations@.len() < 0x4000_0000,
    ensures
        ({
            let rels = graph@.relations;
            let sel = admitted_positions(rels, graph.nodes@, *scope);
            let ids = participant_ids(rels, graph.nodes@, *scope);
            exists|labels: Seq<usize>, edges: Seq<IndexedEdge>, rows: Seq<Seq<(usize, u64)>>, degrees: Seq<u64>, total: int|
                #![trigger row_degrees(rows, degrees, total), community_report(ids, edges, rels, graph.nodes@, labels)]
                {
                    &&& indexes_edges(edges, rels, sel, ids)
                    &&& weighted_rows(rows, edges, rels, *scope, ids.len() as int)
                    &&& row_degrees(rows, degrees, total)
                    &&& movement(rows, degrees, total, edges.len() as int).labels == labels
                    &&& summary_views(r@) == community_report(ids, edges, rels, graph.nodes@, labels)
                }
        }),
{
    let a = leiden_communities_with_diagnostics(graph, scope);
    a.communities
}


/// Detects the communities of `graph` under the normal form of `scope`
/// (kinds sorted and listed once, zero weights dropped), so that scopes
/// that differ only in how they list their kinds give one analysis.
pub fn analyze_communities(graph: &Graph, scope: &CommunityScope) -> (a: CommunityAnalysis)
    requires
        graph.relations@.len() < 0x4000_0000,
    ensures
        exists|n: CommunityScope| normal_form(*scope, n) && #[trigger] analysis_of(*graph, n, a),
{
    let normalized = normalized_scope(scope);
    let a = leiden_communities_with_diagnostics(graph, &normalized);
    assert(normal_form(*scope, normalized) && analysis_of(*graph, normalized, a));
    a
}

} // verus!

//! Optional deterministic graph-enrichment overlays: test-to-source and
//! documentation-to-source relations derived from paths alone.

use vstd::prelude::*;
use crate::model::{
    kind_position, kind_rank, Confidence, EvidenceRef, Graph, GraphNode, GraphNodeId, Relation,
    RelationKind, RelationProvenance, RelationResolution, RelationView,
};
use crate::sorting::{lemma_sort_map, lemma_sort_permutes, sort_by, sort_spec};
use crate::text::{
    cat, file_name, file_name_of, owned, seq_contains, seq_less, seq_starts_with, str_contains,
    str_eq, str_less, str_starts_with, trim_end_all, trim_end_matching, trim_start_all,
    trim_start_matching,
};

verus! {

broadcast use {vstd::seq_lib::group_seq_properties, vstd::seq_lib::group_to_multiset_ensures};

/// Version for deterministic enrichment scoring semantics.
pub const ENRICHMENT_ALGORITHM_VERSION: u32 = 1;

/// Immutable optional enrichment output; applying it is caller-controlled.
#[derive(Debug, PartialEq, Eq)]
pub struct EnrichmentOverlay {
    /// Algorithm version used to derive the relations.
    pub algorithm_version: u32,
    /// Derived relations, sorted deterministically.
    pub relations: Vec<Relation>,
}

/// A path is a test path when it lies under a `tests` directory or its file
/// name starts with `test_`.
pub open spec fn is_test_path(path: Seq<char>) -> bool {
    ||| seq_contains(path, "/tests/"@)
    ||| seq_starts_with(path, "tests/"@)
    ||| seq_starts_with(file_name(path), "test_"@)
}

/// The stem a test file is matched by: its file name without `.rs` / `.py`
/// endings and without leading `test_`.
pub open spec fn test_stem(path: Seq<char>) -> Seq<char> {
    trim_start_all(trim_end_all(trim_end_all(file_name(path), ".rs"@), ".py"@), "test_"@)
}

/// What one derived relation says: its kind, endpoints, and evidence.
pub struct EnrichmentEdge {
    pub kind: RelationKind,
    pub source: Seq<char>,
    pub target: Seq<char>,
    pub evidence: EvidenceRef,
}

/// The `Tests` edges from the test artifact `t` to the artifacts among `nodes`
/// that are not tests and whose path contains the test's stem.
pub open spec fn tests_for(t: crate::model::ArtifactNode, nodes: Seq<GraphNode>) -> Seq<EnrichmentEdge>
    decreases nodes.len(),
{
    if nodes.len() == 0 {
        Seq::empty()
    } else {
        let prior = tests_for(t, nodes.drop_last());
        match nodes.last() {
            GraphNode::Artifact(a) => if !is_test_path(a.path@) && seq_contains(a.path@, test_stem(t.path@)) {
                prior.push(EnrichmentEdge { kind: RelationKind::Tests, source: t.id@, target: a.id@, evidence: t.evidence })
            } else {
                prior
            },
            _ => prior,
        }
    }
}

/// The `Tests` edges of every test artifact among `tests`, in order, against `all`.
pub open spec fn test_edges(tests: Seq<GraphNode>, all: Seq<GraphNode>) -> Seq<EnrichmentEdge>
    decreases tests.len(),
{
    if tests.len() == 0 {
        Seq::empty()
    } else {
        let prior = test_edges(tests.drop_last(), all);
        match tests.last() {
            GraphNode::Artifact(t) => if is_test_path(t.path@) {
                prior + tests_for(t, all)
            } else {
                prior
            },
            _ => prior,
        }
    }
}

/// The `DocumentsSource` edges from the documentation node `d` to the
/// artifacts among `nodes` whose path is the one its evidence names.
pub open spec fn docs_for(d: crate::model::DocumentationNode, nodes: Seq<GraphNode>) -> Seq<EnrichmentEdge>
    decreases nodes.len(),
{
    if nodes.len() == 0 {
        Seq::empty()
    } else {
        let prior = docs_for(d, nodes.drop_last());
        match nodes.last() {
            GraphNode::Artifact(a) => if a.path@ == d.evidence.path@ {
                prior.push(EnrichmentEdge { kind: RelationKind::DocumentsSource, source: d.id@, target: a.id@, evidence: d.evidence })
            } else {
                prior
            },
            _ => prior,
        }
    }
}

/// The `DocumentsSource` edges of every documentation node among `docs`.
pub open spec fn doc_edges(docs: Seq<GraphNode>, all: Seq<GraphNode>) -> Seq<EnrichmentEdge>
    decreases docs.len(),
{
    if docs.len() == 0 {
        Seq::empty()
    } else {
        let prior = doc_edges(docs.drop_last(), all);
        match docs.last() {
            GraphNode::Documentation(d) => prior + docs_for(d, all),
            _ => prior,
        }
    }
}

/// The edges enrichment derives from `nodes`, before sorting.
pub open spec fn planned_edges(nodes: Seq<GraphNode>) -> Seq<EnrichmentEdge> {
    test_edges(nodes, nodes) + doc_edges(nodes, nodes)
}

/// Order by `(source, kind, target)`.
pub open spec fn edge_lt(a: EnrichmentEdge, b: EnrichmentEdge) -> bool {
    if a.source != b.source {
        seq_less(a.source, b.source)
    } else if a.kind != b.kind {
        kind_rank(a.kind) < kind_rank(b.kind)
    } else {
        seq_less(a.target, b.target)
    }
}

/// [`edge_lt`] as a value.
pub open spec fn edge_order() -> spec_fn(EnrichmentEdge, EnrichmentEdge) -> bool {
    |a: EnrichmentEdge, b: EnrichmentEdge| edge_lt(a, b)
}

/// The derived edges, stably sorted by `(source, kind, target)`.
pub open spec fn enrichment_edges(nodes: Seq<GraphNode>) -> Seq<EnrichmentEdge> {
    sort_spec(planned_edges(nodes), edge_order())
}

/// The id prefix of a derived relation of `kind`.
pub open spec fn edge_prefix(kind: RelationKind) -> Seq<char> {
    if kind == RelationKind::Tests {
        "tests"@
    } else {
        "documents-source"@
    }
}

/// What a relation says as an edge.
pub open spec fn edge_of(r: Relation) -> EnrichmentEdge {
    EnrichmentEdge { kind: r.kind, source: r.source@, target: r.target@, evidence: r.evidence@[0] }
}

/// [`edge_of`] as a value.
pub open spec fn edge_of_fn() -> spec_fn(Relation) -> EnrichmentEdge {
    |r: Relation| edge_of(r)
}

/// The fixed shape of a derived relation: `prefix:source:target` id, low
/// confidence, its one evidence, and the enrichment resolver's provenance.
pub open spec fn enrichment_shaped(r: RelationView) -> bool {
    &&& r.id == edge_prefix(r.kind) + ":"@ + r.source + ":"@ + r.target
    &&& r.confidence == Confidence::Low
    &&& r.evidence.len() == 1
    &&& r.provenance matches Some(p) && {
        &&& p.language.is_none()
        &&& p.resolver_strategy@ == "deterministic-enrichment-v1"@
        &&& p.resolution == RelationResolution::HybridResolved
        &&& p.confidence == Confidence::Low
    }
}

pub fn is_test_file(path: &str) -> (b: bool)
    ensures
        b == is_test_path(path@),
{
    str_contains(path, "/tests/") || str_starts_with(path, "tests/") || str_starts_with(
        file_name_of(path).as_str(),
        "test_",
    )
}

fn stem_of(path: &str) -> (r: String)
    ensures
        r@ == test_stem(path@),
{
    let name = file_name_of(path);
    let a = trim_end_matching(name.as_str(), ".rs");
    let b = trim_end_matching(a.as_str(), ".py");
    trim_start_matching(b.as_str(), "test_")
}

fn derived_relation(kind: RelationKind, source: &GraphNodeId, target: &GraphNodeId, evidence: &EvidenceRef) -> (r: Relation)
    requires
        kind == RelationKind::Tests || kind == RelationKind::DocumentsSource,
    ensures
        enrichment_shaped(r@),
        edge_of(r) == (EnrichmentEdge { kind, source: source@, target: target@, evidence: *evidence }),
{
    let prefix = if kind == RelationKind::Tests {
        "tests"
    } else {
        "documents-source"
    };
    let head = cat(prefix, ":");
    let mid = cat(head.as_str(), source.as_str());
    let tail = cat(mid.as_str(), ":");
    let id = cat(tail.as_str(), target.as_str());
    let r = Relation {
        id,
        source: source.clone(),
        target: target.clone(),
        kind,
        confidence: Confidence::Low,
        evidence: vec![evidence.clone()],
        provenance: Some(
            RelationProvenance {
                language: None,
                resolver_strategy: owned("deterministic-enrichment-v1"),
                resolution: RelationResolution::HybridResolved,
                confidence: Confidence::Low,
            },
        ),
    };
    assert(r@.id =~= edge_prefix(kind) + ":"@ + source@ + ":"@ + target@);
    r
}

/// Appends to `out` the `Tests` edges of the test artifact `t`.
fn push_tests_for(nodes: &Vec<GraphNode>, t: &crate::model::ArtifactNode, out: &mut Vec<Relation>)
    ensures
        final(out)@.map_values(|r: Relation| edge_of(r)) == old(out)@.map_values(|r: Relation| edge_of(r)) + tests_for(*t, nodes@),
        forall|i: int| 0 <= i < old(out)@.len() ==> final(out)@[i] == old(out)@[i],
        forall|i: int| old(out)@.len() <= i < final(out)@.len() ==> enrichment_shaped(#[trigger] final(out)@[i]@),
        final(out)@.len() >= old(out)@.len(),
{
    let ghost start = out@;
    let stem = stem_of(t.path.as_str());
    let mut j: usize = 0;
    while j < nodes.len()
        invariant
            j <= nodes@.len(),
            stem@ == test_stem(t.path@),
            out@.len() >= start.len(),
            forall|i: int| 0 <= i < start.len() ==> out@[i] == start[i],
            forall|i: int| start.len() <= i < out@.len() ==> enrichment_shaped(#[trigger] out@[i]@),
            out@.map_values(|r: Relation| edge_of(r)) == start.map_values(|r: Relation| edge_of(r)) + tests_for(*t, nodes@.subrange(0, j as int)),
        decreases nodes@.len() - j,
    {
        let ghost before = out@;
        assert(nodes@.subrange(0, j + 1).drop_last() =~= nodes@.subrange(0, j as int));
        match &nodes[j] {
            GraphNode::Artifact(a) => {
                if !is_test_file(a.path.as_str()) && str_contains(a.path.as_str(), stem.as_str()) {
                    let r = derived_relation(RelationKind::Tests, &t.id, &a.id, &t.evidence);
                    out.push(r);
                    assert(out@.map_values(|r: Relation| edge_of(r)) =~= before.map_values(|r: Relation| edge_of(r)).push(edge_of(r)));
                }
            },
            _ => {},
        }
        j = j + 1;
    }
    assert(nodes@.subrange(0, j as int) =~= nodes@);
}

/// Appends to `out` the `DocumentsSource` edges of the documentation node `d`.
fn push_docs_for(nodes: &Vec<GraphNode>, d: &crate::model::DocumentationNode, out: &mut Vec<Relation>)
    ensures
        final(out)@.map_values(|r: Relation| edge_of(r)) == old(out)@.map_values(|r: Relation| edge_of(r)) + docs_for(*d, nodes@),
        forall|i: int| 0 <= i < old(out)@.len() ==> final(out)@[i] == old(out)@[i],
        forall|i: int| old(out)@.len() <= i < final(out)@.len() ==> enrichment_shaped(#[trigger] final(out)@[i]@),
        final(out)@.len() >= old(out)@.len(),
{
    let ghost start = out@;
    let mut j: usize = 0;
    while j < nodes.len()
        invariant
            j <= nodes@.len(),
            out@.len() >= start.len(),
            forall|i: int| 0 <= i < start.len() ==> out@[i] == start[i],
            forall|i: int| start.len() <= i < out@.len() ==> enrichment_shaped(#[trigger] out@[i]@),
            out@.map_values(|r: Relation| edge_of(r)) == start.map_values(|r: Relation| edge_of(r)) + docs_for(*d, nodes@.subrange(0, j as int)),
        decreases nodes@.len() - j,
    {
        let ghost before = out@;
        assert(nodes@.subrange(0, j + 1).drop_last() =~= nodes@.subrange(0, j as int));
        match &nodes[j] {
            GraphNode::Artifact(a) => {
                if str_eq(a.path.as_str(), d.evidence.path.as_str()) {
                    let r = derived_relation(RelationKind::DocumentsSource, &d.id, &a.id, &d.evidence);
                    out.push(r);
                    assert(out@.map_values(|r: Relation| edge_of(r)) =~= before.map_values(|r: Relation| edge_of(r)).push(edge_of(r)));
                }
            },
            _ => {},
        }
        j = j + 1;
    }
    assert(nodes@.subrange(0, j as int) =~= nodes@);
}

/// Relations ordered by `(source, kind, target)`.
pub open spec fn relation_edge_lt(a: Relation, b: Relation) -> bool {
    if a.source@ != b.source@ {
        seq_less(a.source@, b.source@)
    } else if a.kind != b.kind {
        kind_rank(a.kind) < kind_rank(b.kind)
    } else {
        seq_less(a.target@, b.target@)
    }
}

/// [`relation_edge_lt`] as a value.
pub open spec fn relation_edge_order() -> spec_fn(Relation, Relation) -> bool {
    |a: Relation, b: Relation| relation_edge_lt(a, b)
}

pub fn relation_edge_less(a: &Relation, b: &Relation) -> (r: bool)
    ensures
        r == relation_edge_lt(*a, *b),
{
    if !a.source.same(&b.source) {
        str_less(a.source.as_str(), b.source.as_str())
    } else if kind_position(a.kind) != kind_position(b.kind) {
        kind_position(a.kind) < kind_position(b.kind)
    } else {
        str_less(a.target.as_str(), b.target.as_str())
    }
}

/// Builds deterministic test and documentation/source relation overlays.
///
/// Disabled, the overlay is empty. Enabled, its relations say exactly the
/// [`enrichment_edges`] of the graph's nodes, in that order, each with the
/// fixed [`enrichment_shaped`] id, confidence, and provenance. The graph is
/// only read.
pub fn derive_enrichment(graph: &Graph, enabled: bool) -> (o: EnrichmentOverlay)
    ensures
        o.algorithm_version == ENRICHMENT_ALGORITHM_VERSION,
        !enabled ==> o.relations@.len() == 0,
        enabled ==> o.relations@.map_values(|r: Relation| edge_of(r)) == enrichment_edges(graph.nodes@),
        forall|i: int| 0 <= i < o.relations@.len() ==> enrichment_shaped(#[trigger] o.relations@[i]@),
{
    if !enabled {
        return EnrichmentOverlay { algorithm_version: ENRICHMENT_ALGORITHM_VERSION, relations: Vec::new() };
    }
    let nodes = &graph.nodes;
    let mut relations: Vec<Relation> = Vec::new();
    let mut i: usize = 0;
    while i < nodes.len()
        invariant
            i <= nodes@.len(),
            forall|k: int| 0 <= k < relations@.len() ==> enrichment_shaped(#[trigger] relations@[k]@),
            relations@.map_values(|r: Relation| edge_of(r)) == test_edges(nodes@.subrange(0, i as int), nodes@),
        decreases nodes@.len() - i,
    {
        assert(nodes@.subrange(0, i + 1).drop_last() =~= nodes@.subrange(0, i as int));
        match &nodes[i] {
            GraphNode::Artifact(t) => {
                if is_test_file(t.path.as_str()) {
                    push_tests_for(nodes, t, &mut relations);
                }
            },
            _ => {},
        }
        i = i + 1;
    }
    assert(nodes@.subrange(0, i as int) =~= nodes@);
    let mut d: usize = 0;
    while d < nodes.len()
        invariant
            d <= nodes@.len(),
            forall|k: int| 0 <= k < relations@.len() ==> enrichment_shaped(#[trigger] relations@[k]@),
            relations@.map_values(|r: Relation| edge_of(r)) == test_edges(nodes@, nodes@) + doc_edges(nodes@.subrange(0, d as int), nodes@),
        decreases nodes@.len() - d,
    {
        assert(nodes@.subrange(0, d + 1).drop_last() =~= nodes@.subrange(0, d as int));
        match &nodes[d] {
            GraphNode::Documentation(doc) => {
                push_docs_for(nodes, doc, &mut relations);
            },
            _ => {},
        }
        d = d + 1;
    }
    assert(nodes@.subrange(0, d as int) =~= nodes@);
    let ghost unsorted = relations@;
    let sorted = sort_by(relations, relation_edge_less, Ghost(relation_edge_order()));
    proof {
        assert forall|a: Relation, b: Relation| #[trigger] (relation_edge_order())(a, b) == (edge_order())(
            (edge_of_fn())(a),
            (edge_of_fn())(b),
        ) by {}
        lemma_sort_map(unsorted, edge_of_fn(), relation_edge_order(), edge_order());
        assert(unsorted.map_values(edge_of_fn()) =~= unsorted.map_values(|r: Relation| edge_of(r)));
        assert(sorted@.map_values(edge_of_fn()) =~= sorted@.map_values(|r: Relation| edge_of(r)));
        lemma_sort_permutes(unsorted, relation_edge_order());
        assert forall|k: int| 0 <= k < sorted@.len() implies enrichment_shaped(#[trigger] sorted@[k]@) by {
            assert(sorted@.to_multiset().count(sorted@[k]) > 0);
            assert(unsorted.contains(sorted@[k]));
        }
    }
    EnrichmentOverlay { algorithm_version: ENRICHMENT_ALGORITHM_VERSION, relations: sorted }
}

// ---- Laws of test matching

proof fn lemma_tests_for_has(t: crate::model::ArtifactNode, all: Seq<GraphNode>, j: int)
    requires
        0 <= j < all.len(),
        all[j] matches GraphNode::Artifact(a) && !is_test_path(a.path@) && seq_contains(a.path@, test_stem(t.path@)),
    ensures
        tests_for(t, all).contains(
            EnrichmentEdge { kind: RelationKind::Tests, source: t.id@, target: all[j]->Artifact_0.id@, evidence: t.evidence },
        ),
    decreases all.len(),
{
    let e = EnrichmentEdge { kind: RelationKind::Tests, source: t.id@, target: all[j]->Artifact_0.id@, evidence: t.evidence };
    let prior = tests_for(t, all.drop_last());
    if j == all.len() - 1 {
        assert(all.last() == all[j]);
        assert(tests_for(t, all) == prior.push(e));
        assert(tests_for(t, all)[prior.len() as int] == e);
    } else {
        assert(all.drop_last()[j] == all[j]);
        lemma_tests_for_has(t, all.drop_last(), j);
        let k = choose|k: int| 0 <= k < prior.len() && prior[k] == e;
        assert(tests_for(t, all)[k] == e);
    }
}

proof fn lemma_test_edges_has(tests: Seq<GraphNode>, all: Seq<GraphNode>, i: int, e: EnrichmentEdge)
    requires
        0 <= i < tests.len(),
        tests[i] matches GraphNode::Artifact(t) && is_test_path(t.path@) && tests_for(t, all).contains(e),
    ensures
        test_edges(tests, all).contains(e),
    decreases tests.len(),
{
    let prior = test_edges(tests.drop_last(), all);
    if i == tests.len() - 1 {
        let t = tests[i]->Artifact_0;
        assert(tests.last() == tests[i]);
        assert(test_edges(tests, all) == prior + tests_for(t, all));
        let k = choose|k: int| 0 <= k < tests_for(t, all).len() && tests_for(t, all)[k] == e;
        assert(test_edges(tests, all)[prior.len() + k] == e);
    } else {
        assert(tests.drop_last()[i] == tests[i]);
        lemma_test_edges_has(tests.drop_last(), all, i, e);
        let k = choose|k: int| 0 <= k < prior.len() && prior[k] == e;
        assert(test_edges(tests, all)[k] == e);
    }
}

proof fn lemma_docs_for_has(d: crate::model::DocumentationNode, all: Seq<GraphNode>, j: int)
    requires
        0 <= j < all.len(),
        all[j] matches GraphNode::Artifact(a) && a.path@ == d.evidence.path@,
    ensures
        docs_for(d, all).contains(
            EnrichmentEdge { kind: RelationKind::DocumentsSource, source: d.id@, target: all[j]->Artifact_0.id@, evidence: d.evidence },
        ),
    decreases all.len(),
{
    let e = EnrichmentEdge { kind: RelationKind::DocumentsSource, source: d.id@, target: all[j]->Artifact_0.id@, evidence: d.evidence };
    let prior = docs_for(d, all.drop_last());
    if j == all.len() - 1 {
        assert(all.last() == all[j]);
        assert(docs_for(d, all)[prior.len() as int] == e);
    } else {
        assert(all.drop_last()[j] == all[j]);
        lemma_docs_for_has(d, all.drop_last(), j);
        let k = choose|k: int| 0 <= k < prior.len() && prior[k] == e;
        assert(docs_for(d, all)[k] == e);
    }
}

proof fn lemma_doc_edges_has(docs: Seq<GraphNode>, all: Seq<GraphNode>, i: int, e: EnrichmentEdge)
    requires
        0 <= i < docs.len(),
        docs[i] matches GraphNode::Documentation(d) && docs_for(d, all).contains(e),
    ensures
        doc_edges(docs, all).contains(e),
    decreases docs.len(),
{
    let prior = doc_edges(docs.drop_last(), all);
    if i == docs.len() - 1 {
        let d = docs[i]->Documentation_0;
        assert(docs.last() == docs[i]);
        assert(doc_edges(docs, all) == prior + docs_for(d, all));
        let k = choose|k: int| 0 <= k < docs_for(d, all).len() && docs_for(d, all)[k] == e;
        assert(doc_edges(docs, all)[prior.len() + k] == e);
    } else {
        assert(docs.drop_last()[i] == docs[i]);
        lemma_doc_edges_has(docs.drop_last(), all, i, e);
        let k = choose|k: int| 0 <= k < prior.len() && prior[k] == e;
        assert(doc_edges(docs, all)[k] == e);
    }
}

/// An edge that some relation of the overlay says, when the overlay says
/// exactly the [`enrichment_edges`] of `nodes`.
proof fn lemma_planned_edge_is_said(nodes: Seq<GraphNode>, rels: Seq<Relation>, e: EnrichmentEdge)
    requires
        rels.map_values(|r: Relation| edge_of(r)) == enrichment_edges(nodes),
        planned_edges(nodes).contains(e),
    ensures
        exists|k: int| 0 <= k < rels.len() && edge_of(#[trigger] rels[k]) == e,
{
    let planned = planned_edges(nodes);
    lemma_sort_permutes(planned, edge_order());
    let sorted = enrichment_edges(nodes);
    assert(planned.to_multiset().count(e) > 0);
    assert(sorted.to_multiset().count(e) > 0);
    let k = choose|k: int| 0 <= k < sorted.len() && sorted[k] == e;
    assert(rels.map_values(|r: Relation| edge_of(r))[k] == e);
}

/// Test files are matched to the sources they name, wherever they lie: for
/// an artifact `nodes[i]` whose path lies under a `tests/` directory at any
/// depth (it contains `/tests/` or starts with `tests/`) or whose file name
/// starts with `test_`, and an artifact `nodes[j]` that is none of these and
/// whose path contains the test's stem, enabled enrichment derives a `Tests`
/// relation from the first to the second.
pub proof fn lemma_tests_relate_to_sources(nodes: Seq<GraphNode>, rels: Seq<Relation>, i: int, j: int)
    requires
        rels.map_values(|r: Relation| edge_of(r)) == enrichment_edges(nodes),
        0 <= i < nodes.len(),
        0 <= j < nodes.len(),
        nodes[i] matches GraphNode::Artifact(t) && {
            ||| seq_contains(t.path@, "/tests/"@)
            ||| seq_starts_with(t.path@, "tests/"@)
            ||| seq_starts_with(file_name(t.path@), "test_"@)
        },
        nodes[j] matches GraphNode::Artifact(a) && {
            &&& !seq_contains(a.path@, "/tests/"@)
            &&& !seq_starts_with(a.path@, "tests/"@)
            &&& !seq_starts_with(file_name(a.path@), "test_"@)
            &&& seq_contains(a.path@, test_stem(nodes[i]->Artifact_0.path@))
        },
    ensures
        exists|k: int|
            0 <= k < rels.len() && (#[trigger] rels[k]).kind == RelationKind::Tests && rels[k].source@ == nodes[i]->Artifact_0.id@
                && rels[k].target@ == nodes[j]->Artifact_0.id@,
{
    let t = nodes[i]->Artifact_0;
    let e = EnrichmentEdge { kind: RelationKind::Tests, source: t.id@, target: nodes[j]->Artifact_0.id@, evidence: t.evidence };
    lemma_tests_for_has(t, nodes, j);
    lemma_test_edges_has(nodes, nodes, i, e);
    let k0 = choose|k: int| 0 <= k < test_edges(nodes, nodes).len() && test_edges(nodes, nodes)[k] == e;
    assert(planned_edges(nodes)[k0] == e);
    lemma_planned_edge_is_said(nodes, rels, e);
    let k = choose|k: int| 0 <= k < rels.len() && edge_of(#[trigger] rels[k]) == e;
    assert(rels[k].kind == RelationKind::Tests);
}

/// Documentation is related to the source it was read from: for a
/// documentation node `nodes[i]` and an artifact `nodes[j]` whose path is
/// the path of the documentation's evidence, enabled enrichment derives a
/// `DocumentsSource` relation from the first to the second.
pub proof fn lemma_docs_relate_to_sources(nodes: Seq<GraphNode>, rels: Seq<Relation>, i: int, j: int)
    requires
        rels.map_values(|r: Relation| edge_of(r)) == enrichment_edges(nodes),
        0 <= i < nodes.len(),
        0 <= j < nodes.len(),
        nodes[i] matches GraphNode::Documentation(d) && nodes[j] matches GraphNode::Artifact(a) && a.path@ == d.evidence.path@,
    ensures
        exists|k: int|
            0 <= k < rels.len() && (#[trigger] rels[k]).kind == RelationKind::DocumentsSource && rels[k].source@
                == nodes[i]->Documentation_0.id@ && rels[k].target@ == nodes[j]->Artifact_0.id@,
{
    let d = nodes[i]->Documentation_0;
    let e = EnrichmentEdge { kind: RelationKind::DocumentsSource, source: d.id@, target: nodes[j]->Artifact_0.id@, evidence: d.evidence };
    lemma_docs_for_has(d, nodes, j);
    lemma_doc_edges_has(nodes, nodes, i, e);
    let t = test_edges(nodes, nodes);
    let k0 = choose|k: int| 0 <= k < doc_edges(nodes, nodes).len() && doc_edges(nodes, nodes)[k] == e;
    assert(planned_edges(nodes)[t.len() + k0] == e);
    lemma_planned_edge_is_said(nodes, rels, e);
    let k = choose|k: int| 0 <= k < rels.len() && edge_of(#[trigger] rels[k]) == e;
    assert(rels[k].kind == RelationKind::DocumentsSource);
}

proof fn lemma_tests_for_from(t: crate::model::ArtifactNode, all: Seq<GraphNode>, e: EnrichmentEdge)
    requires
        tests_for(t, all).contains(e),
    ensures
        exists|j: int|
            0 <= j < all.len() && (#[trigger] all[j] matches GraphNode::Artifact(a) && !is_test_path(a.path@) && seq_contains(
                a.path@,
                test_stem(t.path@),
            ) && e == EnrichmentEdge { kind: RelationKind::Tests, source: t.id@, target: a.id@, evidence: t.evidence }),
    decreases all.len(),
{
    let prior = tests_for(t, all.drop_last());
    if prior.contains(e) {
        lemma_tests_for_from(t, all.drop_last(), e);
        let j = choose|j: int|
            0 <= j < all.drop_last().len() && (#[trigger] all.drop_last()[j] matches GraphNode::Artifact(a) && !is_test_path(a.path@)
                && seq_contains(a.path@, test_stem(t.path@)) && e == EnrichmentEdge {
                kind: RelationKind::Tests,
                source: t.id@,
                target: a.id@,
                evidence: t.evidence,
            });
        assert(all[j] == all.drop_last()[j]);
    } else {
        assert(all[all.len() - 1] == all.last());
    }
}

proof fn lemma_test_edges_from(tests: Seq<GraphNode>, all: Seq<GraphNode>, e: EnrichmentEdge)
    requires
        test_edges(tests, all).contains(e),
    ensures
        exists|i: int|
            0 <= i < tests.len() && (#[trigger] tests[i] matches GraphNode::Artifact(t) && is_test_path(t.path@) && tests_for(
                t,
                all,
            ).contains(e)),
    decreases tests.len(),
{
    let prior = test_edges(tests.drop_last(), all);
    if prior.contains(e) {
        lemma_test_edges_from(tests.drop_last(), all, e);
        let i = choose|i: int|
            0 <= i < tests.drop_last().len() && (#[trigger] tests.drop_last()[i] matches GraphNode::Artifact(t) && is_test_path(t.path@)
                && tests_for(t, all).contains(e));
        assert(tests[i] == tests.drop_last()[i]);
    } else {
        let i = tests.len() - 1;
        assert(tests[i] == tests.last());
        let t = tests[i]->Artifact_0;
        let k = choose|k: int| 0 <= k < test_edges(tests, all).len() && test_edges(tests, all)[k] == e;
        assert(test_edges(tests, all) == prior + tests_for(t, all));
        assert(tests_for(t, all)[k - prior.len()] == e);
    }
}

proof fn lemma_docs_for_from(d: crate::model::DocumentationNode, all: Seq<GraphNode>, e: EnrichmentEdge)
    requires
        docs_for(d, all).contains(e),
    ensures
        exists|j: int|
            0 <= j < all.len() && (#[trigger] all[j] matches GraphNode::Artifact(a) && a.path@ == d.evidence.path@ && e
                == EnrichmentEdge { kind: RelationKind::DocumentsSource, source: d.id@, target: a.id@, evidence: d.evidence }),
    decreases all.len(),
{
    let prior = docs_for(d, all.drop_last());
    if prior.contains(e) {
        lemma_docs_for_from(d, all.drop_last(), e);
        let j = choose|j: int|
            0 <= j < all.drop_last().len() && (#[trigger] all.drop_last()[j] matches GraphNode::Artifact(a) && a.path@ == d.evidence.path@
                && e == EnrichmentEdge {
                kind: RelationKind::DocumentsSource,
                source: d.id@,
                target: a.id@,
                evidence: d.evidence,
            });
        assert(all[j] == all.drop_last()[j]);
    } else {
        assert(all[all.len() - 1] == all.last());
    }
}

proof fn lemma_doc_edges_from(docs: Seq<GraphNode>, all: Seq<GraphNode>, e: EnrichmentEdge)
    requires
        doc_edges(docs, all).contains(e),
    ensures
        exists|i: int|
            0 <= i < docs.len() && (#[trigger] docs[i] matches GraphNode::Documentation(d) && docs_for(d, all).contains(e)),
    decreases docs.len(),
{
    let prior = doc_edges(docs.drop_last(), all);
    if prior.contains(e) {
        lemma_doc_edges_from(docs.drop_last(), all, e);
        let i = choose|i: int|
            0 <= i < docs.drop_last().len() && (#[trigger] docs.drop_last()[i] matches GraphNode::Documentation(d) && docs_for(
                d,
                all,
            ).contains(e));
        assert(docs[i] == docs.drop_last()[i]);
    } else {
        let i = docs.len() - 1;
        assert(docs[i] == docs.last());
        let d = docs[i]->Documentation_0;
        let k = choose|k: int| 0 <= k < doc_edges(docs, all).len() && doc_edges(docs, all)[k] == e;
        assert(doc_edges(docs, all) == prior + docs_for(d, all));
        assert(docs_for(d, all)[k - prior.len()] == e);
    }
}

/// Enrichment derives nothing it has no reason for: each relation of an
/// enabled overlay is either a `Tests` relation from a test artifact (under
/// a `tests/` directory at any depth, or with a `test_` file name) to an
/// artifact that is none of these and whose path contains the test's stem,
/// or a `DocumentsSource` relation from a documentation node to the
/// artifact at the path of the documentation's evidence.
pub proof fn lemma_enrichment_relations_justified(nodes: Seq<GraphNode>, rels: Seq<Relation>, k: int)
    requires
        rels.map_values(|r: Relation| edge_of(r)) == enrichment_edges(nodes),
        0 <= k < rels.len(),
    ensures
        ({
            &&& rels[k].kind == RelationKind::Tests
            &&& exists|i: int, j: int|
                0 <= i < nodes.len() && 0 <= j < nodes.len() && (#[trigger] nodes[i] matches GraphNode::Artifact(t) && (
                #[trigger] nodes[j] matches GraphNode::Artifact(a) && {
                    &&& seq_contains(t.path@, "/tests/"@) || seq_starts_with(t.path@, "tests/"@) || seq_starts_with(
                        file_name(t.path@),
                        "test_"@,
                    )
                    &&& !seq_contains(a.path@, "/tests/"@)
                    &&& !seq_starts_with(a.path@, "tests/"@)
                    &&& !seq_starts_with(file_name(a.path@), "test_"@)
                    &&& seq_contains(a.path@, test_stem(t.path@))
                    &&& rels[k].source@ == t.id@
                    &&& rels[k].target@ == a.id@
                }))
        }) || ({
            &&& rels[k].kind == RelationKind::DocumentsSource
            &&& exists|i: int, j: int|
                0 <= i < nodes.len() && 0 <= j < nodes.len() && (#[trigger] nodes[i] matches GraphNode::Documentation(d) && (
                #[trigger] nodes[j] matches GraphNode::Artifact(a) && a.path@ == d.evidence.path@ && rels[k].source@ == d.id@
                    && rels[k].target@ == a.id@))
        }),
{
    let e = edge_of(rels[k]);
    let planned = planned_edges(nodes);
    let sorted = enrichment_edges(nodes);
    assert(rels.map_values(|r: Relation| edge_of(r))[k] == e);
    assert(sorted[k] == e);
    lemma_sort_permutes(planned, edge_order());
    assert(sorted.to_multiset().count(e) > 0);
    assert(planned.to_multiset().count(e) > 0);
    let p = choose|p: int| 0 <= p < planned.len() && planned[p] == e;
    let te = test_edges(nodes, nodes);
    if p < te.len() {
        assert(te[p] == e);
        lemma_test_edges_from(nodes, nodes, e);
        let i = choose|i: int|
            0 <= i < nodes.len() && (#[trigger] nodes[i] matches GraphNode::Artifact(t) && is_test_path(t.path@) && tests_for(t, nodes).contains(
                e,
            ));
        let t = nodes[i]->Artifact_0;
        lemma_tests_for_from(t, nodes, e);
        let j = choose|j: int|
            0 <= j < nodes.len() && (#[trigger] nodes[j] matches GraphNode::Artifact(a) && !is_test_path(a.path@) && seq_contains(
                a.path@,
                test_stem(t.path@),
            ) && e == EnrichmentEdge { kind: RelationKind::Tests, source: t.id@, target: a.id@, evidence: t.evidence });
        assert(rels[k].source@ == t.id@);
    } else {
        assert(doc_edges(nodes, nodes)[p - te.len()] == e);
        lemma_doc_edges_from(nodes, nodes, e);
        let i = choose|i: int|
            0 <= i < nodes.len() && (#[trigger] nodes[i] matches GraphNode::Documentation(d) && docs_for(d, nodes).contains(e));
        let d = nodes[i]->Documentation_0;
        lemma_docs_for_from(d, nodes, e);
        let j = choose|j: int|
            0 <= j < nodes.len() && (#[trigger] nodes[j] matches GraphNode::Artifact(a) && a.path@ == d.evidence.path@ && e
                == EnrichmentEdge { kind: RelationKind::DocumentsSource, source: d.id@, target: a.id@, evidence: d.evidence });
        assert(rels[k].source@ == d.id@);
    }
}

} // verus!

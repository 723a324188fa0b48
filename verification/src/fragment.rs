//! Per-artifact graph fragments with incremental reconciliation.
//!
//! A source artifact owns a [`GraphFragment`]: the nodes whose evidence names
//! it, the relations whose source it owns, and a [`Fingerprint`] over that
//! content, so an unchanged artifact's fragment can be reused. Nodes shared
//! across the repository (environment variables, packages, container images,
//! unresolved identities) go to one shared bucket, owned by every artifact
//! that relates to them; a shared node survives until its last owner leaves.
//! [`reassemble`] gives back exactly the node and relation multisets that were
//! partitioned.

use vstd::prelude::*;
use vstd::multiset::Multiset;
use vstd::seq_lib::{lemma_multiset_commutative, to_multiset_build};
use crate::encoding::{content_text, render_content};
use crate::model::{node_id, kind_position, kind_rank, clone_nodes, clone_relations, Graph, GraphNode, GraphNodeId, Relation, RelationView};
use crate::sorting::{irreflexive, lemma_sort_spec, sort_by, sort_spec, transitive};
use crate::strmap::{insert_unique, locate_str, strictly_sorted, views};
use crate::text::{
    cat, lemma_less_asymmetric, lemma_less_irreflexive, lemma_less_total, lemma_less_transitive,
    owned, seq_less, str_eq, str_less,
};

verus! {

broadcast use {vstd::seq_lib::group_seq_properties, vstd::seq_lib::group_to_multiset_ensures};

/// Logic version of the fragment extraction pass.
pub const FRAGMENT_LOGIC_VERSION: u32 = 1;

/// Version of the fingerprint input schema.
pub const FRAGMENT_INPUT_SCHEMA: u32 = 1;

/// Artifact key of the shared bucket's fingerprint.
pub const SHARED_BUCKET_KEY: &'static str = "\u{0}shared";

/// What `blake3::hash` returns for the UTF-8 bytes of a text with these characters.
pub uninterp spec fn blake3_digest(text: Seq<char>) -> Seq<u8>;

/// `blake3::hash` over the UTF-8 bytes of `text`, as its 32 raw bytes. The
/// digest is stated only through the name [`blake3_digest`]: a function of the
/// text's characters alone.
#[verifier::external_body]
pub(crate) fn blake3_of_text(text: &str) -> (r: Vec<u8>)
    ensures
        r@ == blake3_digest(text@),
        r@.len() == 32,
{
    blake3::hash(text.as_bytes()).as_bytes().to_vec()
}

/// Content fingerprint of one fragment.
#[derive(Debug, PartialEq, Eq)]
pub struct Fingerprint {
    pub key: String,
    pub logic_version: u32,
    pub schema_version: u32,
    pub content_hash: Vec<u8>,
}

/// The fingerprint of the content `nodes`/`relations` owned under `artifact`.
pub open spec fn fingerprint_matches(
    f: Fingerprint,
    artifact: Seq<char>,
    nodes: Seq<GraphNode>,
    relations: Seq<RelationView>,
) -> bool {
    &&& f.key@ == "graph.fragment:"@ + artifact
    &&& f.logic_version == FRAGMENT_LOGIC_VERSION
    &&& f.schema_version == FRAGMENT_INPUT_SCHEMA
    &&& f.content_hash@ == blake3_digest(content_text(nodes, relations))
    &&& f.content_hash@.len() == 32
}

/// Two fingerprints identify the same content.
pub open spec fn compatible(a: Fingerprint, b: Fingerprint) -> bool {
    &&& a.key@ == b.key@
    &&& a.logic_version == b.logic_version
    &&& a.schema_version == b.schema_version
    &&& a.content_hash@ == b.content_hash@
}

impl Fingerprint {
    /// Whether both fingerprints identify the same content.
    pub fn is_compatible_with(&self, other: &Fingerprint) -> (r: bool)
        ensures
            r == compatible(*self, *other),
    {
        if !str_eq(self.key.as_str(), other.key.as_str()) || self.logic_version != other.logic_version
            || self.schema_version != other.schema_version || self.content_hash.len()
            != other.content_hash.len() {
            return false;
        }
        let mut i: usize = 0;
        while i < self.content_hash.len()
            invariant
                self.content_hash@.len() == other.content_hash@.len(),
                i <= self.content_hash@.len(),
                forall|j: int| 0 <= j < i ==> self.content_hash@[j] == other.content_hash@[j],
            decreases self.content_hash@.len() - i,
        {
            if self.content_hash[i] != other.content_hash[i] {
                return false;
            }
            i = i + 1;
        }
        assert(self.content_hash@ =~= other.content_hash@);
        true
    }
}

fn fragment_fingerprint(artifact: &str, nodes: &Vec<GraphNode>, relations: &Vec<Relation>) -> (f: Fingerprint)
    ensures
        fingerprint_matches(f, artifact@, nodes@, rviews(relations@)),
{
    let content = render_content(nodes, relations);
    Fingerprint {
        key: cat("graph.fragment:", artifact),
        logic_version: FRAGMENT_LOGIC_VERSION,
        schema_version: FRAGMENT_INPUT_SCHEMA,
        content_hash: blake3_of_text(content.as_str()),
    }
}

/// The views of a list of relations.
pub open spec fn rviews(s: Seq<Relation>) -> Seq<RelationView> {
    s.map_values(|r: Relation| r@)
}

/// The repository path of the artifact that directly owns `node`, or `None`
/// for nodes shared across the repository.
pub open spec fn node_artifact_path(node: GraphNode) -> Option<Seq<char>> {
    match node {
        GraphNode::Artifact(n) => Some(n.evidence.path@),
        GraphNode::Symbol(n) => Some(n.evidence.path@),
        GraphNode::Config(n) => Some(n.evidence.path@),
        GraphNode::Documentation(n) => Some(n.evidence.path@),
        GraphNode::Command(n) => Some(n.evidence.path@),
        GraphNode::Module(n) => Some(n.evidence.path@),
        GraphNode::Rationale(n) => Some(n.evidence.path@),
        GraphNode::EnvVar(_) => None,
        GraphNode::Package(_) => None,
        GraphNode::Container(_) => None,
        GraphNode::Unresolved(_) => None,
    }
}

fn node_path(node: &GraphNode) -> (r: Option<String>)
    ensures
        match r {
            Some(p) => node_artifact_path(*node) == Some(p@),
            None => node_artifact_path(*node) is None,
        },
{
    match node {
        GraphNode::Artifact(n) => Some(n.evidence.path.clone()),
        GraphNode::Symbol(n) => Some(n.evidence.path.clone()),
        GraphNode::Config(n) => Some(n.evidence.path.clone()),
        GraphNode::Documentation(n) => Some(n.evidence.path.clone()),
        GraphNode::Command(n) => Some(n.evidence.path.clone()),
        GraphNode::Module(n) => Some(n.evidence.path.clone()),
        GraphNode::Rationale(n) => Some(n.evidence.path.clone()),
        _ => None,
    }
}

/// For the last node with id `id`: `Some(its owner path)`; `None` when no
/// node has that id.
pub open spec fn owner_of(nodes: Seq<GraphNode>, id: Seq<char>) -> Option<Option<Seq<char>>>
    decreases nodes.len(),
{
    if nodes.len() == 0 {
        None
    } else if node_id(nodes.last()) == id {
        Some(node_artifact_path(nodes.last()))
    } else {
        owner_of(nodes.drop_last(), id)
    }
}

/// The artifact that owns a relation: the owner of its source node.
pub open spec fn relation_owner(nodes: Seq<GraphNode>, r: RelationView) -> Option<Seq<char>> {
    match owner_of(nodes, r.source) {
        Some(Some(p)) => Some(p),
        _ => None,
    }
}

fn lookup_owner(nodes: &Vec<GraphNode>, id: &GraphNodeId) -> (r: (bool, Option<String>))
    ensures
        r.0 ==> owner_of(nodes@, id@) == Some(match r.1 {
            Some(p) => Some(p@),
            None => None::<Seq<char>>,
        }),
        !r.0 ==> owner_of(nodes@, id@) is None,
{
    let mut i = nodes.len();
    assert(nodes@.subrange(0, nodes@.len() as int) =~= nodes@);
    while i > 0
        invariant
            i <= nodes@.len(),
            owner_of(nodes@, id@) == owner_of(nodes@.subrange(0, i as int), id@),
        decreases i,
    {
        let n = &nodes[i - 1];
        let ghost prefix = nodes@.subrange(0, i as int);
        assert(prefix.drop_last() =~= nodes@.subrange(0, i - 1));
        assert(prefix.last() == *n);
        if n.id().same(id) {
            return (true, node_path(n));
        }
        i = i - 1;
    }
    (false, None)
}

/// The nodes of `nodes` owned by `key` (`None` is the shared bucket).
pub open spec fn node_bucket(nodes: Seq<GraphNode>, key: Option<Seq<char>>) -> Seq<GraphNode> {
    bucket(nodes, node_key(), key)
}

/// The relations of `rels` owned by `key`, ownership judged against `nodes`.
pub open spec fn relation_bucket(nodes: Seq<GraphNode>, rels: Seq<RelationView>, key: Option<Seq<char>>) -> Seq<RelationView> {
    bucket(rels, relation_key(nodes), key)
}

/// Orders nodes by id.
pub open spec fn node_lt(a: GraphNode, b: GraphNode) -> bool {
    seq_less(node_id(a), node_id(b))
}

/// The canonical total relation order `(source, kind, target, id)`.
pub open spec fn relation_total_lt(a: RelationView, b: RelationView) -> bool {
    if a.source != b.source {
        seq_less(a.source, b.source)
    } else if a.kind != b.kind {
        kind_rank(a.kind) < kind_rank(b.kind)
    } else if a.target != b.target {
        seq_less(a.target, b.target)
    } else {
        seq_less(a.id, b.id)
    }
}

/// [`node_lt`] as a value.
pub open spec fn node_order() -> spec_fn(GraphNode, GraphNode) -> bool {
    |a: GraphNode, b: GraphNode| node_lt(a, b)
}

/// [`relation_total_lt`] as a value.
pub open spec fn relation_order() -> spec_fn(RelationView, RelationView) -> bool {
    |a: RelationView, b: RelationView| relation_total_lt(a, b)
}

/// [`relation_value_lt`] as a value.
pub open spec fn relation_value_order() -> spec_fn(Relation, Relation) -> bool {
    |a: Relation, b: Relation| relation_value_lt(a, b)
}

/// [`node_artifact_path`] as a value.
pub open spec fn node_key() -> spec_fn(GraphNode) -> Option<Seq<char>> {
    |n: GraphNode| node_artifact_path(n)
}

/// [`relation_owner`] against `nodes` as a value.
pub open spec fn relation_key(nodes: Seq<GraphNode>) -> spec_fn(RelationView) -> Option<Seq<char>> {
    |r: RelationView| relation_owner(nodes, r)
}

/// [`relation_total_lt`] on relation values.
pub open spec fn relation_value_lt(a: Relation, b: Relation) -> bool {
    relation_total_lt(a@, b@)
}

pub proof fn lemma_node_order()
    ensures
        transitive(node_order()),
        irreflexive(node_order()),
{
    assert forall|a: GraphNode, b: GraphNode, c: GraphNode| #[trigger] node_lt(a, b) && #[trigger] node_lt(b, c) implies node_lt(a, c) by {
        lemma_less_transitive(node_id(a), node_id(b), node_id(c));
    }
    assert forall|a: GraphNode| !#[trigger] node_lt(a, a) by {
        lemma_less_irreflexive(node_id(a));
    }
}

pub proof fn lemma_relation_order()
    ensures
        transitive(relation_order()),
        irreflexive(relation_order()),
{
    assert forall|a: RelationView, b: RelationView, c: RelationView|
        #[trigger] relation_total_lt(a, b) && #[trigger] relation_total_lt(b, c) implies relation_total_lt(a, c) by {
        if a.source != b.source && b.source != c.source {
            lemma_less_transitive(a.source, b.source, c.source);
            if a.source == c.source {
                lemma_less_irreflexive(a.source);
            }
        } else if a.source != b.source {
        } else if b.source != c.source {
        } else if a.kind != b.kind || b.kind != c.kind {
        } else if a.target != b.target && b.target != c.target {
            lemma_less_transitive(a.target, b.target, c.target);
            if a.target == c.target {
                lemma_less_irreflexive(a.target);
            }
        } else if a.target != b.target || b.target != c.target {
        } else {
            lemma_less_transitive(a.id, b.id, c.id);
        }
    }
    assert forall|a: RelationView| !#[trigger] relation_total_lt(a, a) by {
        lemma_less_irreflexive(a.id);
    }
}

/// Sorting relation values by their views sorts their views.
pub proof fn lemma_sort_relation_views(s: Seq<Relation>)
    ensures
        rviews(sort_spec(s, relation_value_order()))
            == sort_spec(rviews(s), relation_order()),
    decreases s.len(),
{
    let lv = relation_value_order();
    let lr = relation_order();
    if s.len() > 0 {
        lemma_sort_relation_views(s.drop_last());
        let p = sort_spec(s.drop_last(), lv);
        assert(rviews(s.drop_last()) =~= rviews(s).drop_last());
        lemma_insert_index_views(p, s.last());
        crate::sorting::lemma_insert_index(p, s.last(), relation_value_order());
        let i = crate::sorting::insert_index(p, s.last(), lv);
        assert(rviews(p.insert(i, s.last())) =~= rviews(p).insert(i, s.last()@));
    }
}

proof fn lemma_insert_index_views(p: Seq<Relation>, x: Relation)
    ensures
        crate::sorting::insert_index(p, x, relation_value_order())
            == crate::sorting::insert_index(rviews(p), x@, relation_order()),
    decreases p.len(),
{
    if p.len() > 0 {
        lemma_insert_index_views(p.drop_first(), x);
        assert(rviews(p.drop_first()) =~= rviews(p).drop_first());
    }
}

/// The per-artifact share of one artifact, or of the shared bucket.
#[derive(Debug, PartialEq, Eq)]
pub struct GraphFragment {
    /// Owning artifact path (empty for the shared bucket).
    pub artifact: String,
    /// Nodes owned by this artifact, sorted by id.
    pub nodes: Vec<GraphNode>,
    /// Relations whose source this artifact owns, sorted canonically.
    pub relations: Vec<Relation>,
    /// Fingerprint over exactly this content.
    pub fingerprint: Fingerprint,
}

/// The artifacts that reference one shared node.
#[derive(Debug, PartialEq, Eq)]
pub struct SharedOwnership {
    pub node: String,
    pub owners: Vec<String>,
}

/// A graph decomposed into per-artifact fragments plus one shared bucket.
#[derive(Debug, PartialEq, Eq)]
pub struct GraphPartition {
    /// Per-artifact fragments in strictly increasing artifact order.
    pub fragments: Vec<GraphFragment>,
    /// Shared nodes and the relations whose source is shared or unknown.
    pub shared: GraphFragment,
    /// For each referenced shared node, in id order, its owning artifacts.
    pub shared_owners: Vec<SharedOwnership>,
}

/// The artifact views of a list of fragments.
pub open spec fn artifacts_of(f: Seq<GraphFragment>) -> Seq<Seq<char>> {
    f.map_values(|x: GraphFragment| x.artifact@)
}

/// Every path some node is owned by.
pub open spec fn owner_paths(nodes: Seq<GraphNode>) -> Set<Seq<char>> {
    Set::new(|p: Seq<char>| exists|i: int| 0 <= i < nodes.len() && node_artifact_path(#[trigger] nodes[i]) == Some(p))
}

/// `frag` holds exactly the sorted share of `key` in `g`, fingerprinted under `fkey`.
pub open spec fn fragment_of(g: crate::model::GraphView, frag: GraphFragment, key: Option<Seq<char>>, fkey: Seq<char>) -> bool {
    &&& frag.nodes@ == sort_spec(node_bucket(g.nodes, key), node_order())
    &&& rviews(frag.relations@) == sort_spec(
        relation_bucket(g.nodes, g.relations, key),
        relation_order(),
    )
    &&& fingerprint_matches(frag.fingerprint, fkey, frag.nodes@, rviews(frag.relations@))
}

/// A relation that makes artifact `owner` an owner of shared node `target`.
pub open spec fn owns_shared(nodes: Seq<GraphNode>, r: RelationView, target: Seq<char>, owner: Seq<char>) -> bool {
    &&& r.target == target
    &&& relation_owner(nodes, r) == Some(owner)
    &&& owner_of(nodes, r.target) == Some(None::<Seq<char>>)
}

/// Artifact `owner` relates to shared node `target` in `g`.
pub open spec fn shared_owner_pair(g: crate::model::GraphView, target: Seq<char>, owner: Seq<char>) -> bool {
    exists|i: int| 0 <= i < g.relations.len() && owns_shared(g.nodes, #[trigger] g.relations[i], target, owner)
}

/// The shared-ownership table of `g`: strictly sorted by node, each owner
/// list strictly sorted, listing exactly the ownership pairs of `g`.
pub open spec fn ownership_of(g: crate::model::GraphView, table: Seq<SharedOwnership>) -> bool {
    &&& strictly_sorted(table.map_values(|e: SharedOwnership| e.node@))
    &&& forall|k: int| 0 <= k < table.len() ==> strictly_sorted(views(#[trigger] table[k].owners@))
    &&& forall|k: int, o: Seq<char>| 0 <= k < table.len() ==> (#[trigger] views(table[k].owners@).contains(o)
        <==> shared_owner_pair(g, table[k].node@, o))
    &&& forall|t: Seq<char>, o: Seq<char>| #[trigger] shared_owner_pair(g, t, o) ==> exists|k: int|
        0 <= k < table.len() && (#[trigger] table[k]).node@ == t
}

/// `p` is the partition of `g`.
pub open spec fn partition_of(g: crate::model::GraphView, p: GraphPartition) -> bool {
    &&& strictly_sorted(artifacts_of(p.fragments@))
    &&& artifacts_of(p.fragments@).to_set() == owner_paths(g.nodes)
    &&& forall|k: int| 0 <= k < p.fragments@.len() ==> fragment_of(
        g,
        #[trigger] p.fragments@[k],
        Some(p.fragments@[k].artifact@),
        p.fragments@[k].artifact@,
    )
    &&& p.shared.artifact@ == Seq::<char>::empty()
    &&& fragment_of(g, p.shared, None, SHARED_BUCKET_KEY@)
    &&& ownership_of(g, p.shared_owners@)
}

fn path_list(nodes: &Vec<GraphNode>) -> (r: Vec<String>)
    ensures
        strictly_sorted(views(r@)),
        views(r@).to_set() == owner_paths(nodes@),
{
    let mut out: Vec<String> = Vec::new();
    let mut i: usize = 0;
    while i < nodes.len()
        invariant
            i <= nodes@.len(),
            strictly_sorted(views(out@)),
            views(out@).to_set() == owner_paths(nodes@.subrange(0, i as int)),
        decreases nodes@.len() - i,
    {
        let ghost before = views(out@).to_set();
        match node_path(&nodes[i]) {
            Some(p) => {
                insert_unique(&mut out, p.as_str());
            },
            None => {},
        }
        assert(views(out@).to_set() =~= owner_paths(nodes@.subrange(0, i + 1))) by {
            assert forall|q: Seq<char>| owner_paths(nodes@.subrange(0, i + 1)).contains(q) <==> views(out@).to_set().contains(q) by {
                let s1 = nodes@.subrange(0, i + 1);
                let s0 = nodes@.subrange(0, i as int);
                if owner_paths(s1).contains(q) {
                    let j = choose|j: int| 0 <= j < s1.len() && node_artifact_path(#[trigger] s1[j]) == Some(q);
                    if j < i {
                        assert(s0[j] == s1[j]);
                    }
                }
                if before.contains(q) {
                    let j = choose|j: int| 0 <= j < s0.len() && node_artifact_path(#[trigger] s0[j]) == Some(q);
                    assert(s1[j] == s0[j]);
                }
                if views(out@).to_set().contains(q) && !before.contains(q) {
                    assert(s1[i as int] == nodes@[i as int]);
                }
            }
        }
        i = i + 1;
    }
    assert(nodes@.subrange(0, nodes@.len() as int) =~= nodes@);
    out
}

fn collect_node_bucket(nodes: &Vec<GraphNode>, key: &Option<String>) -> (r: Vec<GraphNode>)
    ensures
        r@ == node_bucket(nodes@, match key {
            Some(k) => Some(k@),
            None => None::<Seq<char>>,
        }),
{
    let ghost kv = match key {
        Some(k) => Some(k@),
        None => None::<Seq<char>>,
    };
    let mut out: Vec<GraphNode> = Vec::new();
    let mut i: usize = 0;
    while i < nodes.len()
        invariant
            i <= nodes@.len(),
            kv == match key {
                Some(k) => Some(k@),
                None => None::<Seq<char>>,
            },
            out@ == node_bucket(nodes@.subrange(0, i as int), kv),
        decreases nodes@.len() - i,
    {
        let p = node_path(&nodes[i]);
        let keep = match (&p, key) {
            (Some(a), Some(b)) => str_eq(a.as_str(), b.as_str()),
            (None, None) => true,
            _ => false,
        };
        assert(nodes@.subrange(0, i + 1) =~= nodes@.subrange(0, i as int).push(nodes@[i as int]));
        proof {
            lemma_bucket_push(nodes@.subrange(0, i as int), node_key(), kv, nodes@[i as int]);
        }
        if keep {
            out.push(nodes[i].clone());
        }
        i = i + 1;
    }
    assert(nodes@.subrange(0, nodes@.len() as int) =~= nodes@);
    out
}

fn collect_relation_bucket(g: &Graph, key: &Option<String>) -> (r: Vec<Relation>)
    ensures
        rviews(r@) == relation_bucket(g.nodes@, g@.relations, match key {
            Some(k) => Some(k@),
            None => None::<Seq<char>>,
        }),
{
    let ghost kv = match key {
        Some(k) => Some(k@),
        None => None::<Seq<char>>,
    };
    let ghost rv = g@.relations;
    let mut out: Vec<Relation> = Vec::new();
    let mut i: usize = 0;
    while i < g.relations.len()
        invariant
            i <= g.relations@.len(),
            rv == g@.relations,
            kv == match key {
                Some(k) => Some(k@),
                None => None::<Seq<char>>,
            },
            rviews(out@) == relation_bucket(g.nodes@, rv.subrange(0, i as int), kv),
        decreases g.relations@.len() - i,
    {
        let r = &g.relations[i];
        let (found, owner) = lookup_owner(&g.nodes, &r.source);
        let owner_path: Option<String> = if found {
            owner
        } else {
            None
        };
        let keep = match (&owner_path, key) {
            (Some(a), Some(b)) => str_eq(a.as_str(), b.as_str()),
            (None, None) => true,
            _ => false,
        };
        assert(rv.subrange(0, i + 1) =~= rv.subrange(0, i as int).push(rv[i as int]));
        assert(rv[i as int] == r@);
        proof {
            lemma_bucket_push(rv.subrange(0, i as int), relation_key(g.nodes@), kv, rv[i as int]);
        }
        if keep {
            let ghost before = out@;
            out.push(r.duplicate());
            assert(rviews(out@) =~= rviews(before).push(r@));
        }
        i = i + 1;
    }
    assert(rv.subrange(0, rv.len() as int) =~= rv);
    out
}

fn node_less(a: &GraphNode, b: &GraphNode) -> (r: bool)
    ensures
        r == node_lt(*a, *b),
{
    str_less(a.id().as_str(), b.id().as_str())
}

fn sort_nodes(v: Vec<GraphNode>) -> (r: Vec<GraphNode>)
    ensures
        r@ == sort_spec(v@, node_order()),
{
    sort_by(v, node_less, Ghost(node_order()))
}

fn relation_less(a: &Relation, b: &Relation) -> (r: bool)
    ensures
        r == relation_value_lt(*a, *b),
{
    if !a.source.same(&b.source) {
        str_less(a.source.as_str(), b.source.as_str())
    } else if kind_position(a.kind) != kind_position(b.kind) {
        kind_position(a.kind) < kind_position(b.kind)
    } else if !a.target.same(&b.target) {
        str_less(a.target.as_str(), b.target.as_str())
    } else {
        str_less(a.id.as_str(), b.id.as_str())
    }
}

fn sort_relations(v: Vec<Relation>) -> (r: Vec<Relation>)
    ensures
        rviews(r@) == sort_spec(rviews(v@), relation_order()),
{
    let r = sort_by(v, relation_less, Ghost(relation_value_order()));
    proof {
        lemma_sort_relation_views(v@);
    }
    r
}

fn build_fragment(g: &Graph, key: &Option<String>, artifact: &str, fkey: &str) -> (f: GraphFragment)
    ensures
        fragment_of(g@, f, match key {
            Some(k) => Some(k@),
            None => None::<Seq<char>>,
        }, fkey@),
        f.artifact@ == artifact@,
{
    let nodes = sort_nodes(collect_node_bucket(&g.nodes, key));
    let relations = sort_relations(collect_relation_bucket(g, key));
    let fingerprint = fragment_fingerprint(fkey, &nodes, &relations);
    GraphFragment { artifact: owned(artifact), nodes, relations, fingerprint }
}

fn shared_ownership(g: &Graph) -> (t: Vec<SharedOwnership>)
    ensures
        ownership_of(g@, t@),
{
    let ghost rv = g@.relations;
    let mut table: Vec<SharedOwnership> = Vec::new();
    let mut i: usize = 0;
    while i < g.relations.len()
        invariant
            i <= g.relations@.len(),
            rv == g@.relations,
            ownership_of(crate::model::GraphView { nodes: g.nodes@, relations: rv.subrange(0, i as int) }, table@),
        decreases g.relations@.len() - i,
    {
        let r = &g.relations[i];
        let ghost g0 = crate::model::GraphView { nodes: g.nodes@, relations: rv.subrange(0, i as int) };
        let ghost g1 = crate::model::GraphView { nodes: g.nodes@, relations: rv.subrange(0, i + 1) };
        assert(rv[i as int] == r@);
        proof {
            assert(rv.subrange(0, i + 1) =~= rv.subrange(0, i as int).push(r@));
            lemma_pairs_step(g0, g1, r@);
        }
        let (sfound, sowner) = lookup_owner(&g.nodes, &r.source);
        let (tfound, towner) = lookup_owner(&g.nodes, &r.target);
        if sfound && sowner.is_some() && tfound && towner.is_none() {
            let owner = match sowner {
                Some(o) => o,
                None => owned(""),
            };
            let ghost tgt = r.target@;
            assert(owns_shared(g.nodes@, r@, tgt, owner@));
            assert forall|t: Seq<char>, o: Seq<char>| owns_shared(g.nodes@, r@, t, o) implies t == tgt && o == owner@ by {}
            let ghost keys = table@.map_values(|e: SharedOwnership| e.node@);
            let ghost old_table = table@;
            let (found, at) = locate_entry(&table, r.target.as_str());
            if found {
                assert(old_table[at as int].node@ == tgt);
                let mut entry = table.remove(at);
                let ghost old_owners = views(entry.owners@);
                assert(strictly_sorted(old_owners)) by {
                    assert(entry == old_table[at as int]);
                }
                insert_unique(&mut entry.owners, owner.as_str());
                let ghost new_owners = views(entry.owners@);
                table.insert(at, entry);
                assert(table@.map_values(|e: SharedOwnership| e.node@) =~= keys);
                assert(table@[at as int].node@ == tgt);
                assert forall|o: Seq<char>| new_owners.contains(o) <==> shared_owner_pair(g1, tgt, o) by {
                    assert(new_owners.contains(o) == new_owners.to_set().contains(o));
                    assert(old_owners.contains(o) == old_owners.to_set().contains(o));
                    assert(views(old_table[at as int].owners@).contains(o) <==> shared_owner_pair(g0, tgt, o));
                }
                assert forall|k: int, o: Seq<char>| 0 <= k < table@.len() implies (#[trigger] views(table@[k].owners@).contains(o)
                    <==> shared_owner_pair(g1, table@[k].node@, o)) by {
                    if k != at {
                        assert(table@[k] == old_table[k]);
                        assert(views(old_table[k].owners@).contains(o) <==> shared_owner_pair(g0, old_table[k].node@, o));
                        if table@[k].node@ == tgt {
                            assert(keys[k] == keys[at as int]);
                            if k < at {
                                assert(seq_less(keys[k], keys[at as int]));
                            } else {
                                assert(seq_less(keys[at as int], keys[k]));
                            }
                            lemma_less_irreflexive(tgt);
                        }
                    }
                }
                assert forall|k: int| 0 <= k < table@.len() implies strictly_sorted(views(#[trigger] table@[k].owners@)) by {
                    if k != at {
                        assert(table@[k] == old_table[k]);
                    }
                }
                assert forall|t: Seq<char>, o: Seq<char>| #[trigger] shared_owner_pair(g1, t, o) implies exists|k: int|
                    0 <= k < table@.len() && (#[trigger] table@[k]).node@ == t by {
                    if shared_owner_pair(g0, t, o) {
                        let k = choose|k: int| 0 <= k < old_table.len() && (#[trigger] old_table[k]).node@ == t;
                        assert(table@[k].node@ == t);
                    } else {
                        assert(table@[at as int].node@ == t);
                    }
                }
            } else {
                let mut owners: Vec<String> = Vec::new();
                owners.push(owned(owner.as_str()));
                let ghost new_owners = views(owners@);
                assert(new_owners =~= seq![owner@]);
                table.insert(at, SharedOwnership { node: owned(r.target.as_str()), owners });
                proof {
                    crate::strmap::lemma_insert_keeps_sorted(keys, r.target@, at as int);
                    assert(table@.map_values(|e: SharedOwnership| e.node@) =~= keys.insert(at as int, r.target@));
                }
                assert forall|o: Seq<char>| new_owners.contains(o) <==> shared_owner_pair(g1, tgt, o) by {
                    if shared_owner_pair(g0, tgt, o) {
                        let kk = choose|kk: int| 0 <= kk < old_table.len() && (#[trigger] old_table[kk]).node@ == tgt;
                        assert(keys[kk] == tgt);
                    }
                    if new_owners.contains(o) {
                        assert(new_owners[0] == owner@);
                    }
                }
                assert forall|k: int| 0 <= k < table@.len() implies strictly_sorted(views(#[trigger] table@[k].owners@)) by {
                    if k < at {
                        assert(table@[k] == old_table[k]);
                    } else if k > at {
                        assert(table@[k] == old_table[k - 1]);
                    }
                }
                assert forall|k: int, o: Seq<char>| 0 <= k < table@.len() implies (#[trigger] views(table@[k].owners@).contains(o)
                    <==> shared_owner_pair(g1, table@[k].node@, o)) by {
                    if k < at {
                        assert(table@[k] == old_table[k]);
                        assert(views(old_table[k].owners@).contains(o) <==> shared_owner_pair(g0, old_table[k].node@, o));
                        if table@[k].node@ == tgt {
                            assert(keys[k] == tgt);
                        }
                    } else if k > at {
                        assert(table@[k] == old_table[k - 1]);
                        assert(views(old_table[k - 1].owners@).contains(o) <==> shared_owner_pair(g0, old_table[k - 1].node@, o));
                        if table@[k].node@ == tgt {
                            assert(keys[k - 1] == tgt);
                        }
                    }
                }
                assert forall|t: Seq<char>, o: Seq<char>| #[trigger] shared_owner_pair(g1, t, o) implies exists|k: int|
                    0 <= k < table@.len() && (#[trigger] table@[k]).node@ == t by {
                    if shared_owner_pair(g0, t, o) {
                        let k = choose|k: int| 0 <= k < old_table.len() && (#[trigger] old_table[k]).node@ == t;
                        if k < at {
                            assert(table@[k].node@ == t);
                        } else {
                            assert(table@[k + 1].node@ == t);
                        }
                    } else {
                        assert(table@[at as int].node@ == t);
                    }
                }
            }
        } else {
            assert forall|t: Seq<char>, o: Seq<char>| !owns_shared(g.nodes@, r@, t, o) by {}
            assert forall|k: int, o: Seq<char>| 0 <= k < table@.len() implies (#[trigger] views(table@[k].owners@).contains(o)
                <==> shared_owner_pair(g1, table@[k].node@, o)) by {
                assert(views(table@[k].owners@).contains(o) <==> shared_owner_pair(g0, table@[k].node@, o));
            }
        }
        i = i + 1;
    }
    assert(rv.subrange(0, rv.len() as int) =~= rv);
    table
}

proof fn lemma_pairs_step(g0: crate::model::GraphView, g1: crate::model::GraphView, r: RelationView)
    requires
        g1.nodes == g0.nodes,
        g1.relations == g0.relations.push(r),
    ensures
        forall|t: Seq<char>, o: Seq<char>| #[trigger] shared_owner_pair(g1, t, o) <==> (shared_owner_pair(g0, t, o)
            || owns_shared(g0.nodes, r, t, o)),
{
    assert forall|t: Seq<char>, o: Seq<char>| #[trigger] shared_owner_pair(g1, t, o) <==> (shared_owner_pair(g0, t, o)
        || owns_shared(g0.nodes, r, t, o)) by {
        if shared_owner_pair(g0, t, o) {
            let j = choose|j: int| 0 <= j < g0.relations.len() && owns_shared(g0.nodes, #[trigger] g0.relations[j], t, o);
            assert(g1.relations[j] == g0.relations[j]);
        }
        if owns_shared(g0.nodes, r, t, o) {
            assert(g1.relations[g0.relations.len() as int] == r);
        }
        if shared_owner_pair(g1, t, o) {
            let j = choose|j: int| 0 <= j < g1.relations.len() && owns_shared(g1.nodes, #[trigger] g1.relations[j], t, o);
            if j < g0.relations.len() {
                assert(g0.relations[j] == g1.relations[j]);
            }
        }
    }
}

fn locate_entry(table: &Vec<SharedOwnership>, key: &str) -> (r: (bool, usize))
    requires
        strictly_sorted(table@.map_values(|e: SharedOwnership| e.node@)),
    ensures
        crate::strmap::located(table@.map_values(|e: SharedOwnership| e.node@), key@, r.0, r.1 as int),
{
    let ghost k = table@.map_values(|e: SharedOwnership| e.node@);
    let mut i: usize = 0;
    while i < table.len()
        invariant
            k == table@.map_values(|e: SharedOwnership| e.node@),
            strictly_sorted(k),
            i <= table@.len(),
            forall|j: int| 0 <= j < i ==> seq_less(#[trigger] k[j], key@),
        decreases table@.len() - i,
    {
        let here = table[i].node.as_str();
        assert(here@ == k[i as int]);
        if str_eq(here, key) {
            return (true, i);
        }
        if str_less(key, here) {
            assert forall|j: int| i <= j < k.len() implies seq_less(key@, #[trigger] k[j]) by {
                if j > i {
                    lemma_less_transitive(key@, k[i as int], k[j]);
                }
            }
            assert forall|j: int| 0 <= j < k.len() implies k[j] != key@ by {
                lemma_less_irreflexive(key@);
            }
            return (false, i);
        }
        proof {
            lemma_less_total(key@, k[i as int]);
        }
        i = i + 1;
    }
    assert forall|j: int| 0 <= j < k.len() implies k[j] != key@ by {
        lemma_less_irreflexive(key@);
    }
    (false, i)
}

/// Decomposes `graph` into per-artifact fragments and a shared bucket, every
/// node and relation landing in exactly one bucket.
pub fn partition(graph: &Graph) -> (p: GraphPartition)
    ensures
        partition_of(graph@, p),
{
    let paths = path_list(&graph.nodes);
    let mut fragments: Vec<GraphFragment> = Vec::new();
    let mut i: usize = 0;
    while i < paths.len()
        invariant
            i <= paths@.len(),
            strictly_sorted(views(paths@)),
            fragments@.len() == i,
            artifacts_of(fragments@) == views(paths@).subrange(0, i as int),
            forall|k: int| 0 <= k < i ==> fragment_of(
                graph@,
                #[trigger] fragments@[k],
                Some(fragments@[k].artifact@),
                fragments@[k].artifact@,
            ),
        decreases paths@.len() - i,
    {
        let key = Some(owned(paths[i].as_str()));
        let f = build_fragment(graph, &key, paths[i].as_str(), paths[i].as_str());
        fragments.push(f);
        assert(artifacts_of(fragments@) =~= views(paths@).subrange(0, i + 1));
        i = i + 1;
    }
    assert(artifacts_of(fragments@) =~= views(paths@));
    let shared = build_fragment(graph, &None, "", SHARED_BUCKET_KEY);
    proof {
        reveal_strlit("");
        assert(shared.artifact@ =~= Seq::<char>::empty());
    }
    GraphPartition { fragments, shared, shared_owners: shared_ownership(graph) }
}

/// All fragment nodes, fragment by fragment.
pub open spec fn fragments_nodes(f: Seq<GraphFragment>) -> Seq<GraphNode>
    decreases f.len(),
{
    if f.len() == 0 {
        Seq::empty()
    } else {
        fragments_nodes(f.drop_last()) + f.last().nodes@
    }
}

/// All fragment relation views, fragment by fragment.
pub open spec fn fragments_relations(f: Seq<GraphFragment>) -> Seq<RelationView>
    decreases f.len(),
{
    if f.len() == 0 {
        Seq::empty()
    } else {
        fragments_relations(f.drop_last()) + rviews(f.last().relations@)
    }
}

/// `g` is the reassembly of `p`: all nodes sorted by id, all relations in
/// the canonical total order.
pub open spec fn reassembly_of(p: GraphPartition, g: crate::model::GraphView) -> bool {
    &&& g.nodes == sort_spec(
        fragments_nodes(p.fragments@) + p.shared.nodes@,
        node_order(),
    )
    &&& g.relations == sort_spec(
        fragments_relations(p.fragments@) + rviews(p.shared.relations@),
        relation_order(),
    )
}

/// Reassembles a graph from a partition in canonical order.
pub fn reassemble(partition: &GraphPartition) -> (g: Graph)
    ensures
        reassembly_of(*partition, g@),
{
    let mut nodes: Vec<GraphNode> = Vec::new();
    let mut relations: Vec<Relation> = Vec::new();
    let mut i: usize = 0;
    while i < partition.fragments.len()
        invariant
            i <= partition.fragments@.len(),
            nodes@ == fragments_nodes(partition.fragments@.subrange(0, i as int)),
            rviews(relations@) == fragments_relations(partition.fragments@.subrange(0, i as int)),
        decreases partition.fragments@.len() - i,
    {
        let f = &partition.fragments[i];
        let ghost sub = partition.fragments@.subrange(0, i + 1);
        assert(sub.drop_last() =~= partition.fragments@.subrange(0, i as int));
        let more = clone_nodes(&f.nodes);
        let mut more = more;
        nodes.append(&mut more);
        let mut rmore = clone_relations(&f.relations);
        let ghost before = relations@;
        let ghost added = rmore@;
        relations.append(&mut rmore);
        assert(rviews(relations@) =~= rviews(before) + rviews(added));
        assert(rviews(added) =~= rviews(f.relations@));
        i = i + 1;
    }
    assert(partition.fragments@.subrange(0, partition.fragments@.len() as int) =~= partition.fragments@);
    let mut shared_nodes = clone_nodes(&partition.shared.nodes);
    nodes.append(&mut shared_nodes);
    let ghost before = relations@;
    let mut shared_relations = clone_relations(&partition.shared.relations);
    let ghost added = shared_relations@;
    relations.append(&mut shared_relations);
    assert(rviews(relations@) =~= rviews(before) + rviews(added));
    assert(rviews(added) =~= rviews(partition.shared.relations@));
    let nodes = sort_nodes(nodes);
    let relations = sort_relations(relations);
    let g = Graph { nodes, relations };
    assert(g@.relations =~= rviews(g.relations@));
    g
}


/// Metrics for a reconcile between two partitions.
#[derive(Debug, Clone, Copy, PartialEq, Eq)]
pub struct FragmentMetrics {
    /// Fragments whose fingerprint was unchanged (reused).
    pub reused: usize,
    /// Fragments whose fingerprint changed or that are new (rebuilt).
    pub rebuilt: usize,
    /// Fragments whose artifact disappeared (deleted).
    pub deleted: usize,
}

/// The first fragment of `prev` for `artifact`, the one a keyed lookup finds.
pub open spec fn fragment_for(prev: Seq<GraphFragment>, artifact: Seq<char>) -> Option<GraphFragment>
    decreases prev.len(),
{
    if prev.len() == 0 {
        None
    } else if prev[0].artifact@ == artifact {
        Some(prev[0])
    } else {
        fragment_for(prev.drop_first(), artifact)
    }
}

/// `f` can be reused from `prev`: its artifact had a fragment there with a
/// compatible fingerprint.
pub open spec fn reusable(prev: Seq<GraphFragment>, f: GraphFragment) -> bool {
    match fragment_for(prev, f.artifact@) {
        Some(old) => compatible(old.fingerprint, f.fingerprint),
        None => false,
    }
}

/// How many fragments of `cur` are reusable from `prev`.
pub open spec fn reused_count(prev: Seq<GraphFragment>, cur: Seq<GraphFragment>) -> nat
    decreases cur.len(),
{
    if cur.len() == 0 {
        0
    } else {
        reused_count(prev, cur.drop_last()) + if reusable(prev, cur.last()) {
            1nat
        } else {
            0nat
        }
    }
}

/// How many fragments of `prev` name an artifact `cur` has no fragment for.
pub open spec fn deleted_count(prev: Seq<GraphFragment>, cur: Seq<GraphFragment>) -> nat
    decreases prev.len(),
{
    if prev.len() == 0 {
        0
    } else {
        deleted_count(prev.drop_last(), cur) + if fragment_for(cur, prev.last().artifact@) is None {
            1nat
        } else {
            0nat
        }
    }
}

fn find_fragment<'a>(list: &'a Vec<GraphFragment>, artifact: &str) -> (r: Option<&'a GraphFragment>)
    ensures
        match r {
            Some(f) => fragment_for(list@, artifact@) == Some(*f),
            None => fragment_for(list@, artifact@) is None,
        },
{
    let mut i: usize = 0;
    while i < list.len()
        invariant
            i <= list@.len(),
            fragment_for(list@, artifact@) == fragment_for(list@.skip(i as int), artifact@),
        decreases list@.len() - i,
    {
        assert(list@.skip(i as int)[0] == list@[i as int]);
        if str_eq(list[i].artifact.as_str(), artifact) {
            return Some(&list[i]);
        }
        assert(list@.skip(i as int).drop_first() =~= list@.skip(i + 1));
        i = i + 1;
    }
    None
}

/// Reports which fragments of `current` were reused from `previous`
/// (unchanged fingerprint), rebuilt (changed or new), or deleted (artifact gone).
pub fn reconcile_fragments(previous: &GraphPartition, current: &GraphPartition) -> (m: FragmentMetrics)
    ensures
        m.reused as nat == reused_count(previous.fragments@, current.fragments@),
        m.rebuilt as nat == current.fragments@.len() - reused_count(previous.fragments@, current.fragments@),
        m.deleted as nat == deleted_count(previous.fragments@, current.fragments@),
{
    let mut reused: usize = 0;
    let mut i: usize = 0;
    while i < current.fragments.len()
        invariant
            i <= current.fragments@.len(),
            reused as nat == reused_count(previous.fragments@, current.fragments@.subrange(0, i as int)),
            reused <= i,
        decreases current.fragments@.len() - i,
    {
        let f = &current.fragments[i];
        assert(current.fragments@.subrange(0, i + 1).drop_last() =~= current.fragments@.subrange(0, i as int));
        match find_fragment(&previous.fragments, f.artifact.as_str()) {
            Some(old) => {
                if old.fingerprint.is_compatible_with(&f.fingerprint) {
                    reused = reused + 1;
                }
            },
            None => {},
        }
        i = i + 1;
    }
    assert(current.fragments@.subrange(0, i as int) =~= current.fragments@);
    let mut deleted: usize = 0;
    let mut j: usize = 0;
    while j < previous.fragments.len()
        invariant
            j <= previous.fragments@.len(),
            deleted as nat == deleted_count(previous.fragments@.subrange(0, j as int), current.fragments@),
            deleted <= j,
        decreases previous.fragments@.len() - j,
    {
        assert(previous.fragments@.subrange(0, j + 1).drop_last() =~= previous.fragments@.subrange(0, j as int));
        if find_fragment(&current.fragments, previous.fragments[j].artifact.as_str()).is_none() {
            deleted = deleted + 1;
        }
        j = j + 1;
    }
    assert(previous.fragments@.subrange(0, j as int) =~= previous.fragments@);
    FragmentMetrics { reused, rebuilt: current.fragments.len() - reused, deleted }
}

/// Some owner in `owners` is not in `removed`.
pub open spec fn keeps_an_owner(owners: Seq<Seq<char>>, removed: Seq<Seq<char>>) -> bool {
    exists|i: int| 0 <= i < owners.len() && !removed.contains(#[trigger] owners[i])
}

/// The shared nodes of `table`, in order, that keep an owner outside `removed`.
pub open spec fn survivors(table: Seq<SharedOwnership>, removed: Seq<Seq<char>>) -> Seq<Seq<char>>
    decreases table.len(),
{
    if table.len() == 0 {
        Seq::empty()
    } else {
        let rest = survivors(table.drop_last(), removed);
        if keeps_an_owner(views(table.last().owners@), removed) {
            rest.push(table.last().node@)
        } else {
            rest
        }
    }
}

fn contains_str(list: &Vec<String>, key: &str) -> (r: bool)
    ensures
        r == views(list@).contains(key@),
{
    let mut i: usize = 0;
    while i < list.len()
        invariant
            i <= list@.len(),
            forall|j: int| 0 <= j < i ==> views(list@)[j] != key@,
        decreases list@.len() - i,
    {
        if str_eq(list[i].as_str(), key) {
            assert(views(list@)[i as int] == key@);
            return true;
        }
        i = i + 1;
    }
    false
}

/// The shared nodes that survive when `removed_artifacts` disappear: those
/// still referenced by some artifact outside `removed_artifacts`, in id order.
pub fn surviving_shared_nodes(partition: &GraphPartition, removed_artifacts: &Vec<String>) -> (r: Vec<String>)
    ensures
        views(r@) == survivors(partition.shared_owners@, views(removed_artifacts@)),
{
    let ghost removed = views(removed_artifacts@);
    let mut out: Vec<String> = Vec::new();
    let mut i: usize = 0;
    while i < partition.shared_owners.len()
        invariant
            i <= partition.shared_owners@.len(),
            removed == views(removed_artifacts@),
            views(out@) == survivors(partition.shared_owners@.subrange(0, i as int), removed),
        decreases partition.shared_owners@.len() - i,
    {
        let entry = &partition.shared_owners[i];
        let ghost sub = partition.shared_owners@.subrange(0, i + 1);
        assert(sub.drop_last() =~= partition.shared_owners@.subrange(0, i as int));
        assert(sub.last() == *entry);
        let mut keep = false;
        let mut k: usize = 0;
        while k < entry.owners.len()
            invariant
                k <= entry.owners@.len(),
                removed == views(removed_artifacts@),
                keep == exists|j: int| 0 <= j < k && !removed.contains(#[trigger] views(entry.owners@)[j]),
            decreases entry.owners@.len() - k,
        {
            if !contains_str(removed_artifacts, entry.owners[k].as_str()) {
                assert(views(entry.owners@)[k as int] == entry.owners@[k as int]@);
                keep = true;
            }
            k = k + 1;
        }
        if keep {
            let ghost before = views(out@);
            out.push(owned(entry.node.as_str()));
            assert(views(out@) =~= before.push(entry.node@));
        }
        i = i + 1;
    }
    assert(partition.shared_owners@.subrange(0, i as int) =~= partition.shared_owners@);
    out
}

/// Every survivor comes from the ownership table, kept by an owner that was
/// not removed.
proof fn lemma_survivors_members(table: Seq<SharedOwnership>, removed: Seq<Seq<char>>, t: Seq<char>)
    ensures
        survivors(table, removed).contains(t) <==> exists|k: int| 0 <= k < table.len() && (#[trigger] table[k]).node@ == t
            && keeps_an_owner(views(table[k].owners@), removed),
    decreases table.len(),
{
    if table.len() > 0 {
        let rest = table.drop_last();
        lemma_survivors_members(rest, removed, t);
        if survivors(table, removed).contains(t) {
            if survivors(rest, removed).contains(t) {
                let k = choose|k: int| 0 <= k < rest.len() && (#[trigger] rest[k]).node@ == t
                    && keeps_an_owner(views(rest[k].owners@), removed);
                assert(table[k] == rest[k]);
            } else {
                assert(table[table.len() - 1] == table.last());
            }
        }
        if exists|k: int| 0 <= k < table.len() && (#[trigger] table[k]).node@ == t && keeps_an_owner(views(table[k].owners@), removed) {
            let k = choose|k: int| 0 <= k < table.len() && (#[trigger] table[k]).node@ == t && keeps_an_owner(views(table[k].owners@), removed);
            if k < rest.len() {
                assert(rest[k] == table[k]);
                assert(survivors(rest, removed).contains(t));
            } else {
                assert(table.last() == table[k]);
                let s = survivors(table, removed);
                assert(s[s.len() - 1] == t);
            }
        }
    }
}

/// A shared node survives the removal of some artifacts exactly when an
/// artifact that was not removed still relates to it: it is deleted only
/// when its last owner is gone.
pub proof fn lemma_shared_node_survival(g: crate::model::GraphView, p: GraphPartition, removed: Seq<Seq<char>>, t: Seq<char>)
    requires
        partition_of(g, p),
    ensures
        survivors(p.shared_owners@, removed).contains(t) <==> exists|o: Seq<char>| #[trigger] shared_owner_pair(g, t, o)
            && !removed.contains(o),
{
    let table = p.shared_owners@;
    lemma_survivors_members(table, removed, t);
    if survivors(table, removed).contains(t) {
        let k = choose|k: int| 0 <= k < table.len() && (#[trigger] table[k]).node@ == t && keeps_an_owner(views(table[k].owners@), removed);
        let i = choose|i: int| 0 <= i < views(table[k].owners@).len() && !removed.contains(#[trigger] views(table[k].owners@)[i]);
        let o = views(table[k].owners@)[i];
        assert(views(table[k].owners@).contains(o));
        assert(shared_owner_pair(g, t, o));
    }
    if exists|o: Seq<char>| #[trigger] shared_owner_pair(g, t, o) && !removed.contains(o) {
        let o = choose|o: Seq<char>| #[trigger] shared_owner_pair(g, t, o) && !removed.contains(o);
        let k = choose|k: int| 0 <= k < table.len() && (#[trigger] table[k]).node@ == t;
        assert(views(table[k].owners@).contains(o));
        let i = choose|i: int| 0 <= i < views(table[k].owners@).len() && views(table[k].owners@)[i] == o;
        assert(keeps_an_owner(views(table[k].owners@), removed));
    }
}


proof fn lemma_fragment_for(list: Seq<GraphFragment>, a: Seq<char>)
    ensures
        fragment_for(list, a) matches Some(f) ==> f.artifact@ == a && list.contains(f),
        artifacts_of(list).contains(a) ==> fragment_for(list, a) is Some,
    decreases list.len(),
{
    if list.len() > 0 {
        lemma_fragment_for(list.drop_first(), a);
        if artifacts_of(list).contains(a) && list[0].artifact@ != a {
            let i = choose|i: int| 0 <= i < artifacts_of(list).len() && artifacts_of(list)[i] == a;
            assert(artifacts_of(list.drop_first())[i - 1] == a);
        }
        match fragment_for(list, a) {
            Some(f) => {
                if list[0].artifact@ != a {
                    let j = choose|j: int| 0 <= j < list.drop_first().len() && list.drop_first()[j] == f;
                    assert(list[j + 1] == f);
                } else {
                    assert(list[0] == f);
                }
            },
            None => {},
        }
    }
}

proof fn lemma_all_reused(prev: Seq<GraphFragment>, cur: Seq<GraphFragment>)
    requires
        forall|k: int| 0 <= k < cur.len() ==> reusable(prev, #[trigger] cur[k]),
    ensures
        reused_count(prev, cur) == cur.len(),
    decreases cur.len(),
{
    if cur.len() > 0 {
        assert forall|k: int| 0 <= k < cur.drop_last().len() implies reusable(prev, #[trigger] cur.drop_last()[k]) by {
            assert(cur.drop_last()[k] == cur[k]);
        }
        lemma_all_reused(prev, cur.drop_last());
        assert(cur.last() == cur[cur.len() - 1]);
    }
}

proof fn lemma_none_deleted(prev: Seq<GraphFragment>, cur: Seq<GraphFragment>)
    requires
        forall|k: int| 0 <= k < prev.len() ==> fragment_for(cur, (#[trigger] prev[k]).artifact@) is Some,
    ensures
        deleted_count(prev, cur) == 0,
    decreases prev.len(),
{
    if prev.len() > 0 {
        assert forall|k: int| 0 <= k < prev.drop_last().len() implies fragment_for(cur, (#[trigger] prev.drop_last()[k]).artifact@) is Some by {
            assert(prev.drop_last()[k] == prev[k]);
        }
        lemma_none_deleted(prev.drop_last(), cur);
        assert(prev.last() == prev[prev.len() - 1]);
    }
}

/// Partitioning the same graph twice and reconciling the two partitions
/// reuses every fragment: nothing is rebuilt and nothing is deleted.
pub proof fn lemma_no_op_reconcile(g: crate::model::GraphView, p1: GraphPartition, p2: GraphPartition)
    requires
        partition_of(g, p1),
        partition_of(g, p2),
    ensures
        reused_count(p1.fragments@, p2.fragments@) == p2.fragments@.len(),
        deleted_count(p1.fragments@, p2.fragments@) == 0,
{
    let a1 = artifacts_of(p1.fragments@);
    let a2 = artifacts_of(p2.fragments@);
    assert forall|k: int| 0 <= k < p2.fragments@.len() implies reusable(p1.fragments@, #[trigger] p2.fragments@[k]) by {
        let f = p2.fragments@[k];
        assert(a2[k] == f.artifact@);
        assert(a2.to_set().contains(f.artifact@));
        assert(a1.to_set().contains(f.artifact@));
        lemma_fragment_for(p1.fragments@, f.artifact@);
        let old = fragment_for(p1.fragments@, f.artifact@)->0;
        let j = choose|j: int| 0 <= j < p1.fragments@.len() && p1.fragments@[j] == old;
        assert(fragment_of(g, p1.fragments@[j], Some(p1.fragments@[j].artifact@), p1.fragments@[j].artifact@));
        assert(fragment_of(g, f, Some(f.artifact@), f.artifact@));
    }
    lemma_all_reused(p1.fragments@, p2.fragments@);
    assert forall|k: int| 0 <= k < p1.fragments@.len() implies fragment_for(p2.fragments@, (#[trigger] p1.fragments@[k]).artifact@) is Some by {
        let a = p1.fragments@[k].artifact@;
        assert(a1[k] == a);
        assert(a1.to_set().contains(a));
        assert(a2.to_set().contains(a));
        lemma_fragment_for(p2.fragments@, a);
    }
    lemma_none_deleted(p1.fragments@, p2.fragments@);
}

// ---------------------------------------------------------------------------
// Bucket arithmetic: splitting a sequence by key and adding the buckets back.
// ---------------------------------------------------------------------------

/// The elements of `s` whose key is `k`.
pub open spec fn bucket<T>(s: Seq<T>, key: spec_fn(T) -> Option<Seq<char>>, k: Option<Seq<char>>) -> Seq<T>
    decreases s.len(),
{
    if s.len() == 0 {
        s
    } else if key(s.last()) == k {
        bucket(s.drop_last(), key, k).push(s.last())
    } else {
        bucket(s.drop_last(), key, k)
    }
}

/// The multiset sum of the buckets of `keys`.
pub open spec fn buckets_total<T>(s: Seq<T>, key: spec_fn(T) -> Option<Seq<char>>, keys: Seq<Seq<char>>) -> Multiset<T>
    decreases keys.len(),
{
    if keys.len() == 0 {
        Multiset::empty()
    } else {
        buckets_total(s, key, keys.drop_last()).add(bucket(s, key, Some(keys.last())).to_multiset())
    }
}

proof fn lemma_bucket_push<T>(s: Seq<T>, key: spec_fn(T) -> Option<Seq<char>>, k: Option<Seq<char>>, x: T)
    ensures
        bucket(s.push(x), key, k) == if key(x) == k {
            bucket(s, key, k).push(x)
        } else {
            bucket(s, key, k)
        },
{
    assert(s.push(x).drop_last() =~= s);
}

proof fn lemma_buckets_total_push<T>(s: Seq<T>, key: spec_fn(T) -> Option<Seq<char>>, keys: Seq<Seq<char>>, x: T)
    requires
        keys.no_duplicates(),
    ensures
        buckets_total(s.push(x), key, keys) == if key(x) is Some && keys.contains(key(x)->0) {
            buckets_total(s, key, keys).insert(x)
        } else {
            buckets_total(s, key, keys)
        },
    decreases keys.len(),
{
    if keys.len() > 0 {
        let rest = keys.drop_last();
        assert(rest.no_duplicates());
        lemma_buckets_total_push(s, key, rest, x);
        lemma_bucket_push(s, key, Some(keys.last()), x);
        if key(x) is Some && key(x)->0 == keys.last() {
            assert(!rest.contains(keys.last()));
            to_multiset_build(bucket(s, key, Some(keys.last())), x);
            assert(buckets_total(s.push(x), key, keys) =~= buckets_total(s, key, keys).insert(x));
        } else {
            if key(x) is Some && keys.contains(key(x)->0) {
                let j = choose|j: int| 0 <= j < keys.len() && keys[j] == key(x)->0;
                assert(rest[j] == key(x)->0);
                assert(buckets_total(s.push(x), key, keys) =~= buckets_total(s, key, keys).insert(x));
            } else {
                if key(x) is Some && rest.contains(key(x)->0) {
                    let j = choose|j: int| 0 <= j < rest.len() && rest[j] == key(x)->0;
                    assert(keys[j] == key(x)->0);
                }
            }
        }
    }
}

/// Splitting `s` into the buckets of distinct `keys` that cover every keyed
/// element, plus the unkeyed bucket, and adding them gives back `s`.
pub proof fn lemma_buckets_cover<T>(s: Seq<T>, key: spec_fn(T) -> Option<Seq<char>>, keys: Seq<Seq<char>>)
    requires
        keys.no_duplicates(),
        forall|i: int| 0 <= i < s.len() && (#[trigger] key(s[i])) is Some ==> keys.contains(key(s[i])->0),
    ensures
        buckets_total(s, key, keys).add(bucket(s, key, None).to_multiset()) == s.to_multiset(),
    decreases s.len(),
{
    if s.len() == 0 {
        lemma_buckets_total_empty(s, key, keys);
        assert(bucket(s, key, None) =~= Seq::<T>::empty());
        assert(buckets_total(s, key, keys).add(bucket(s, key, None).to_multiset()) =~= s.to_multiset());
    } else {
        let p = s.drop_last();
        let x = s.last();
        assert(s =~= p.push(x));
        assert forall|i: int| 0 <= i < p.len() && (#[trigger] key(p[i])) is Some implies keys.contains(key(p[i])->0) by {
            assert(p[i] == s[i]);
        }
        lemma_buckets_cover(p, key, keys);
        lemma_buckets_total_push(p, key, keys, x);
        lemma_bucket_push(p, key, None, x);
        to_multiset_build(p, x);
        if key(x) is None {
            to_multiset_build(bucket(p, key, None), x);
        } else {
            assert(key(s[s.len() - 1]) is Some);
        }
        assert(buckets_total(s, key, keys).add(bucket(s, key, None).to_multiset()) =~= s.to_multiset());
    }
}

proof fn lemma_buckets_total_empty<T>(s: Seq<T>, key: spec_fn(T) -> Option<Seq<char>>, keys: Seq<Seq<char>>)
    requires
        s.len() == 0,
    ensures
        buckets_total(s, key, keys) == Multiset::<T>::empty(),
    decreases keys.len(),
{
    if keys.len() > 0 {
        lemma_buckets_total_empty(s, key, keys.drop_last());
        assert(bucket(s, key, Some(keys.last())) =~= Seq::<T>::empty());
        assert(buckets_total(s, key, keys) =~= Multiset::<T>::empty());
    }
}

proof fn lemma_strictly_sorted_distinct(k: Seq<Seq<char>>)
    requires
        strictly_sorted(k),
    ensures
        k.no_duplicates(),
{
    assert forall|i: int, j: int| 0 <= i < k.len() && 0 <= j < k.len() && i != j implies k[i] != k[j] by {
        if i < j {
            assert(seq_less(k[i], k[j]));
            lemma_less_irreflexive(k[i]);
        } else {
            assert(seq_less(k[j], k[i]));
            lemma_less_irreflexive(k[j]);
        }
    }
}

proof fn lemma_fragment_nodes_total(g: crate::model::GraphView, f: Seq<GraphFragment>)
    requires
        forall|k: int| 0 <= k < f.len() ==> (#[trigger] f[k]).nodes@ == sort_spec(
            node_bucket(g.nodes, Some(f[k].artifact@)),
            node_order(),
        ),
    ensures
        fragments_nodes(f).to_multiset() == buckets_total(
            g.nodes,
            node_key(),
            artifacts_of(f),
        ),
    decreases f.len(),
{
    if f.len() > 0 {
        let rest = f.drop_last();
        assert forall|k: int| 0 <= k < rest.len() implies (#[trigger] rest[k]).nodes@ == sort_spec(
            node_bucket(g.nodes, Some(rest[k].artifact@)),
            node_order(),
        ) by {
            assert(rest[k] == f[k]);
        }
        lemma_fragment_nodes_total(g, rest);
        assert(artifacts_of(f).drop_last() =~= artifacts_of(rest));
        lemma_node_order();
        let b = node_bucket(g.nodes, Some(f.last().artifact@));
        lemma_sort_spec(b, node_order());
        assert(f.last() == f[f.len() - 1]);
        lemma_multiset_commutative(fragments_nodes(rest), f.last().nodes@);
        assert(b =~= bucket(g.nodes, node_key(), Some(artifacts_of(f).last())));
    }
}

proof fn lemma_fragment_relations_total(g: crate::model::GraphView, f: Seq<GraphFragment>)
    requires
        forall|k: int| 0 <= k < f.len() ==> rviews((#[trigger] f[k]).relations@) == sort_spec(
            relation_bucket(g.nodes, g.relations, Some(f[k].artifact@)),
            relation_order(),
        ),
    ensures
        fragments_relations(f).to_multiset() == buckets_total(
            g.relations,
            relation_key(g.nodes),
            artifacts_of(f),
        ),
    decreases f.len(),
{
    if f.len() > 0 {
        let rest = f.drop_last();
        assert forall|k: int| 0 <= k < rest.len() implies rviews((#[trigger] rest[k]).relations@) == sort_spec(
            relation_bucket(g.nodes, g.relations, Some(rest[k].artifact@)),
            relation_order(),
        ) by {
            assert(rest[k] == f[k]);
        }
        lemma_fragment_relations_total(g, rest);
        assert(artifacts_of(f).drop_last() =~= artifacts_of(rest));
        lemma_relation_order();
        let b = relation_bucket(g.nodes, g.relations, Some(f.last().artifact@));
        lemma_sort_spec(b, relation_order());
        assert(f.last() == f[f.len() - 1]);
        lemma_multiset_commutative(fragments_relations(rest), rviews(f.last().relations@));
        assert(b =~= bucket(g.relations, relation_key(g.nodes), Some(artifacts_of(f).last())));
    }
}

/// Reassembling the partition of a graph gives back exactly its nodes and
/// its relations: the partition loses, duplicates, and fabricates nothing.
pub proof fn lemma_reassemble_partition(g: crate::model::GraphView, p: GraphPartition, r: crate::model::GraphView)
    requires
        partition_of(g, p),
        reassembly_of(p, r),
    ensures
        r.nodes.to_multiset() == g.nodes.to_multiset(),
        r.relations.to_multiset() == g.relations.to_multiset(),
{
    let keys = artifacts_of(p.fragments@);
    lemma_strictly_sorted_distinct(keys);
    let nkey = node_key();
    let rkey = relation_key(g.nodes);
    assert forall|i: int| 0 <= i < g.nodes.len() && (#[trigger] nkey(g.nodes[i])) is Some implies keys.contains(nkey(g.nodes[i])->0) by {
        let q = nkey(g.nodes[i])->0;
        assert(owner_paths(g.nodes).contains(q));
        assert(keys.to_set().contains(q));
    }
    assert forall|i: int| 0 <= i < g.relations.len() && (#[trigger] rkey(g.relations[i])) is Some implies keys.contains(rkey(g.relations[i])->0) by {
        let q = rkey(g.relations[i])->0;
        lemma_owner_of_path(g.nodes, g.relations[i].source);
        assert(owner_paths(g.nodes).contains(q));
        assert(keys.to_set().contains(q));
    }
    lemma_buckets_cover(g.nodes, nkey, keys);
    lemma_buckets_cover(g.relations, rkey, keys);
    assert forall|k: int| 0 <= k < p.fragments@.len() implies (#[trigger] p.fragments@[k]).nodes@ == sort_spec(
        node_bucket(g.nodes, Some(p.fragments@[k].artifact@)),
        node_order(),
    ) by {
        assert(fragment_of(g, p.fragments@[k], Some(p.fragments@[k].artifact@), p.fragments@[k].artifact@));
    }
    assert forall|k: int| 0 <= k < p.fragments@.len() implies rviews((#[trigger] p.fragments@[k]).relations@) == sort_spec(
        relation_bucket(g.nodes, g.relations, Some(p.fragments@[k].artifact@)),
        relation_order(),
    ) by {
        assert(fragment_of(g, p.fragments@[k], Some(p.fragments@[k].artifact@), p.fragments@[k].artifact@));
    }
    lemma_fragment_nodes_total(g, p.fragments@);
    lemma_fragment_relations_total(g, p.fragments@);
    lemma_node_order();
    lemma_relation_order();
    let all_nodes = fragments_nodes(p.fragments@) + p.shared.nodes@;
    let all_relations = fragments_relations(p.fragments@) + rviews(p.shared.relations@);
    lemma_sort_spec(all_nodes, node_order());
    lemma_sort_spec(all_relations, relation_order());
    lemma_multiset_commutative(fragments_nodes(p.fragments@), p.shared.nodes@);
    lemma_multiset_commutative(fragments_relations(p.fragments@), rviews(p.shared.relations@));
    lemma_sort_spec(node_bucket(g.nodes, None), node_order());
    lemma_sort_spec(relation_bucket(g.nodes, g.relations, None), relation_order());
    assert(node_bucket(g.nodes, None) =~= bucket(g.nodes, nkey, None));
    assert(relation_bucket(g.nodes, g.relations, None) =~= bucket(g.relations, rkey, None));
}

proof fn lemma_owner_of_path(nodes: Seq<GraphNode>, id: Seq<char>)
    ensures
        owner_of(nodes, id) matches Some(Some(q)) ==> owner_paths(nodes).contains(q),
    decreases nodes.len(),
{
    if nodes.len() > 0 {
        lemma_owner_of_path(nodes.drop_last(), id);
        match owner_of(nodes, id) {
            Some(Some(q)) => {
                if node_id(nodes.last()) != id {
                    let j = choose|j: int| 0 <= j < nodes.drop_last().len() && node_artifact_path(#[trigger] nodes.drop_last()[j]) == Some(q);
                    assert(nodes[j] == nodes.drop_last()[j]);
                } else {
                    assert(node_artifact_path(nodes[nodes.len() - 1]) == Some(q));
                }
            },
            _ => {},
        }
    }
}


/// Two sequences sorted by `lt` that hold the same elements, as often, are
/// equal when `lt` orders every two distinct elements.
proof fn lemma_sorted_same<T>(s1: Seq<T>, s2: Seq<T>, lt: spec_fn(T, T) -> bool)
    requires
        crate::sorting::sorted_by(s1, lt),
        crate::sorting::sorted_by(s2, lt),
        s1.to_multiset() == s2.to_multiset(),
        forall|a: T, b: T| s1.contains(a) && s1.contains(b) && a != b ==> lt(a, b) || lt(b, a),
    ensures
        s1 == s2,
    decreases s1.len(),
{
    broadcast use {vstd::seq_lib::to_multiset_remove, vstd::seq_lib::to_multiset_len, vstd::seq_lib::to_multiset_contains};
    if s1.len() == 0 {
        vstd::seq_lib::to_multiset_len(s1);
        vstd::seq_lib::to_multiset_len(s2);
        assert(s1 =~= s2);
    } else {
        assert(s2.len() == s1.len()) by {
            vstd::seq_lib::to_multiset_len(s1);
            vstd::seq_lib::to_multiset_len(s2);
        }
        let a = s1[0];
        let b = s2[0];
        if a != b {
            assert(s2.contains(a)) by {
                assert(s1.to_multiset().count(a) > 0);
            }
            assert(s1.contains(b)) by {
                assert(s2.to_multiset().count(b) > 0);
            }
            let j = choose|j: int| 0 <= j < s2.len() && s2[j] == a;
            let i = choose|i: int| 0 <= i < s1.len() && s1[i] == b;
            assert(s1.contains(a));
            if lt(a, b) {
                assert(!lt(s2[j], s2[0]));
            } else {
                assert(!lt(s1[i], s1[0]));
            }
        }
        let t1 = s1.remove(0);
        let t2 = s2.remove(0);
        assert(t1.to_multiset() == t2.to_multiset());
        assert forall|x: int, y: int| 0 <= x < y < t1.len() implies !lt(#[trigger] t1[y], #[trigger] t1[x]) by {
            assert(t1[x] == s1[x + 1] && t1[y] == s1[y + 1]);
        }
        assert forall|x: int, y: int| 0 <= x < y < t2.len() implies !lt(#[trigger] t2[y], #[trigger] t2[x]) by {
            assert(t2[x] == s2[x + 1] && t2[y] == s2[y + 1]);
        }
        assert forall|p: T, q: T| t1.contains(p) && t1.contains(q) && p != q implies lt(p, q) || lt(q, p) by {
            let x = choose|x: int| 0 <= x < t1.len() && t1[x] == p;
            let y = choose|y: int| 0 <= y < t1.len() && t1[y] == q;
            assert(s1[x + 1] == p && s1[y + 1] == q);
            assert(s1.contains(p) && s1.contains(q));
        }
        lemma_sorted_same(t1, t2, lt);
        assert(s1 =~= s2) by {
            assert forall|k: int| 0 <= k < s1.len() implies s1[k] == s2[k] by {
                if k > 0 {
                    assert(s1[k] == t1[k - 1] && s2[k] == t2[k - 1]);
                }
            }
        }
    }
}

/// Reassembling the partition of a graph that is already in canonical order
/// (nodes by id, each id once; relations by source, kind, target, and id,
/// each id once) gives the graph back unchanged.
pub proof fn lemma_canonical_reassembly(g: crate::model::GraphView, p: GraphPartition, r: crate::model::GraphView)
    requires
        partition_of(g, p),
        reassembly_of(p, r),
        crate::sorting::sorted_by(g.nodes, node_order()),
        crate::sorting::sorted_by(g.relations, relation_order()),
        forall|i: int, j: int| 0 <= i < j < g.nodes.len() ==> node_id(#[trigger] g.nodes[i]) != node_id(#[trigger] g.nodes[j]),
        forall|i: int, j: int| 0 <= i < j < g.relations.len() ==> (#[trigger] g.relations[i]).id != (#[trigger] g.relations[j]).id,
    ensures
        r == g,
{
    lemma_reassemble_partition(g, p, r);
    lemma_node_order();
    lemma_relation_order();
    lemma_sort_spec(fragments_nodes(p.fragments@) + p.shared.nodes@, node_order());
    lemma_sort_spec(fragments_relations(p.fragments@) + rviews(p.shared.relations@), relation_order());
    assert forall|a: GraphNode, b: GraphNode| g.nodes.contains(a) && g.nodes.contains(b) && a != b implies (node_order())(a, b) || (
    node_order())(b, a) by {
        let i = choose|i: int| 0 <= i < g.nodes.len() && g.nodes[i] == a;
        let j = choose|j: int| 0 <= j < g.nodes.len() && g.nodes[j] == b;
        if i < j {
            assert(node_id(g.nodes[i]) != node_id(g.nodes[j]));
        } else {
            assert(node_id(g.nodes[j]) != node_id(g.nodes[i]));
        }
        crate::text::lemma_less_total(node_id(a), node_id(b));
    }
    assert forall|a: RelationView, b: RelationView| g.relations.contains(a) && g.relations.contains(b) && a != b implies (relation_order())(
        a,
        b,
    ) || (relation_order())(b, a) by {
        let i = choose|i: int| 0 <= i < g.relations.len() && g.relations[i] == a;
        let j = choose|j: int| 0 <= j < g.relations.len() && g.relations[j] == b;
        if i < j {
            assert(g.relations[i].id != g.relations[j].id);
        } else {
            assert(g.relations[j].id != g.relations[i].id);
        }
        crate::text::lemma_less_total(a.source, b.source);
        crate::text::lemma_less_total(a.target, b.target);
        crate::text::lemma_less_total(a.id, b.id);
        if a.source == b.source && a.kind != b.kind {
            crate::model::lemma_kind_rank_distinct(a.kind, b.kind);
        }
    }
    lemma_sorted_same(g.nodes, r.nodes, node_order());
    lemma_sorted_same(g.relations, r.relations, relation_order());
}

} // verus!

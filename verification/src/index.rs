//! Queryable knowledge index over one graph snapshot: schema counts, search,
//! bounded traces, architecture summaries, and package-dependency lookup.

use vstd::prelude::*;
use vstd::multiset::Multiset;
use crate::model::{node_id, Graph, GraphNode, GraphNodeId, GraphView, RelationKind, RelationView};
use crate::sorting::{sort_by, sort_spec, dedup_by, dedup_spec, lemma_sort_map, lemma_sort_permutes};
use crate::strmap::{keys_of, tallies, tally_add};
use crate::text::{cat, cat3, decimal, decimal_string, owned, seq_contains, seq_less, str_contains, str_eq, str_less, to_lower, unicode_lower};

verus! {

broadcast use {vstd::seq_lib::group_seq_properties, vstd::seq_lib::group_to_multiset_ensures};

/// Count for one node label.
#[derive(Debug, PartialEq, Eq)]
pub struct LabelCount {
    /// Node label.
    pub label: String,
    /// Number of nodes with this label.
    pub count: usize,
}

/// Count for one edge type.
#[derive(Debug, PartialEq, Eq)]
pub struct TypeCount {
    /// Relation type.
    pub edge_type: String,
    /// Number of relations with this type.
    pub count: usize,
}

/// Deterministic graph schema summary.
#[derive(Debug, PartialEq, Eq)]
pub struct GraphSchema {
    /// Counts by graph node label.
    pub node_labels: Vec<LabelCount>,
    /// Counts by relation type.
    pub edge_types: Vec<TypeCount>,
    /// Observed `(source)-[edge]->(target) [Nx]` patterns.
    pub relationship_patterns: Vec<String>,
}

/// The display name of a relation kind, as `Debug` prints it.
pub open spec fn kind_name(kind: RelationKind) -> Seq<char> {
    match kind {
        RelationKind::Contains => "Contains"@,
        RelationKind::Imports => "Imports"@,
        RelationKind::Calls => "Calls"@,
        RelationKind::References => "References"@,
        RelationKind::ReadsEnv => "ReadsEnv"@,
        RelationKind::DefinesEnv => "DefinesEnv"@,
        RelationKind::RunsCommand => "RunsCommand"@,
        RelationKind::UsesImage => "UsesImage"@,
        RelationKind::BuildsImage => "BuildsImage"@,
        RelationKind::PublishesImage => "PublishesImage"@,
        RelationKind::DependsOnPackage => "DependsOnPackage"@,
        RelationKind::BelongsToPackage => "BelongsToPackage"@,
        RelationKind::BelongsToModule => "BelongsToModule"@,
        RelationKind::Implements => "Implements"@,
        RelationKind::Inherits => "Inherits"@,
        RelationKind::UsesType => "UsesType"@,
        RelationKind::TypeRefs => "TypeRefs"@,
        RelationKind::Usages => "Usages"@,
        RelationKind::HandlesRoute => "HandlesRoute"@,
        RelationKind::DataFlows => "DataFlows"@,
        RelationKind::ListensOn => "ListensOn"@,
        RelationKind::Emits => "Emits"@,
        RelationKind::Decorates => "Decorates"@,
        RelationKind::Ffi => "Ffi"@,
        RelationKind::SimilarTo => "SimilarTo"@,
        RelationKind::BindsConfig => "BindsConfig"@,
        RelationKind::ReferencesConfig => "ReferencesConfig"@,
        RelationKind::MemberOf => "MemberOf"@,
        RelationKind::HasMethod => "HasMethod"@,
        RelationKind::FileChangesWith => "FileChangesWith"@,
        RelationKind::CrossesServiceBoundary => "CrossesServiceBoundary"@,
        RelationKind::Tests => "Tests"@,
        RelationKind::DocumentsSource => "DocumentsSource"@,
        RelationKind::RationaleFor => "RationaleFor"@,
    }
}

/// The display name of `kind`.
pub fn kind_label(kind: RelationKind) -> (r: String)
    ensures
        r@ == kind_name(kind),
{
    owned(
        match kind {
            RelationKind::Contains => "Contains",
            RelationKind::Imports => "Imports",
            RelationKind::Calls => "Calls",
            RelationKind::References => "References",
            RelationKind::ReadsEnv => "ReadsEnv",
            RelationKind::DefinesEnv => "DefinesEnv",
            RelationKind::RunsCommand => "RunsCommand",
            RelationKind::UsesImage => "UsesImage",
            RelationKind::BuildsImage => "BuildsImage",
            RelationKind::PublishesImage => "PublishesImage",
            RelationKind::DependsOnPackage => "DependsOnPackage",
            RelationKind::BelongsToPackage => "BelongsToPackage",
            RelationKind::BelongsToModule => "BelongsToModule",
            RelationKind::Implements => "Implements",
            RelationKind::Inherits => "Inherits",
            RelationKind::UsesType => "UsesType",
            RelationKind::TypeRefs => "TypeRefs",
            RelationKind::Usages => "Usages",
            RelationKind::HandlesRoute => "HandlesRoute",
            RelationKind::DataFlows => "DataFlows",
            RelationKind::ListensOn => "ListensOn",
            RelationKind::Emits => "Emits",
            RelationKind::Decorates => "Decorates",
            RelationKind::Ffi => "Ffi",
            RelationKind::SimilarTo => "SimilarTo",
            RelationKind::BindsConfig => "BindsConfig",
            RelationKind::ReferencesConfig => "ReferencesConfig",
            RelationKind::MemberOf => "MemberOf",
            RelationKind::HasMethod => "HasMethod",
            RelationKind::FileChangesWith => "FileChangesWith",
            RelationKind::CrossesServiceBoundary => "CrossesServiceBoundary",
            RelationKind::Tests => "Tests",
            RelationKind::DocumentsSource => "DocumentsSource",
            RelationKind::RationaleFor => "RationaleFor",
        },
    )
}

/// The label of a node kind.
pub open spec fn label_text(node: GraphNode) -> Seq<char> {
    match node {
        GraphNode::Artifact(_) => "Artifact"@,
        GraphNode::Symbol(_) => "Symbol"@,
        GraphNode::Config(_) => "Config"@,
        GraphNode::Documentation(_) => "Documentation"@,
        GraphNode::Container(_) => "Container"@,
        GraphNode::Command(_) => "Command"@,
        GraphNode::EnvVar(_) => "EnvVar"@,
        GraphNode::Module(_) => "Module"@,
        GraphNode::Package(_) => "Package"@,
        GraphNode::Unresolved(_) => "Unresolved"@,
        GraphNode::Rationale(_) => "Rationale"@,
    }
}

/// The label of `node`.
pub fn node_label(node: &GraphNode) -> (r: String)
    ensures
        r@ == label_text(*node),
{
    owned(
        match node {
            GraphNode::Artifact(_) => "Artifact",
            GraphNode::Symbol(_) => "Symbol",
            GraphNode::Config(_) => "Config",
            GraphNode::Documentation(_) => "Documentation",
            GraphNode::Container(_) => "Container",
            GraphNode::Command(_) => "Command",
            GraphNode::EnvVar(_) => "EnvVar",
            GraphNode::Module(_) => "Module",
            GraphNode::Package(_) => "Package",
            GraphNode::Unresolved(_) => "Unresolved",
            GraphNode::Rationale(_) => "Rationale",
        },
    )
}

/// The human-readable name of a node.
pub open spec fn name_text(node: GraphNode) -> Seq<char> {
    match node {
        GraphNode::Artifact(n) => n.path@,
        GraphNode::Symbol(n) => n.qualified_name@,
        GraphNode::Config(n) => n.name@,
        GraphNode::Documentation(n) => n.title@,
        GraphNode::Container(n) => n.reference@,
        GraphNode::Command(n) => n.text@,
        GraphNode::EnvVar(n) => n.name@,
        GraphNode::Module(n) => n.path@,
        GraphNode::Package(n) => n.name@,
        GraphNode::Unresolved(n) => n.value@,
        GraphNode::Rationale(n) => n.text@,
    }
}

/// The human-readable name of `node`.
pub fn node_name(node: &GraphNode) -> (r: String)
    ensures
        r@ == name_text(*node),
{
    match node {
        GraphNode::Artifact(n) => n.path.clone(),
        GraphNode::Symbol(n) => n.qualified_name.clone(),
        GraphNode::Config(n) => n.name.clone(),
        GraphNode::Documentation(n) => n.title.clone(),
        GraphNode::Container(n) => n.reference.clone(),
        GraphNode::Command(n) => n.text.clone(),
        GraphNode::EnvVar(n) => n.name.clone(),
        GraphNode::Module(n) => n.path.clone(),
        GraphNode::Package(n) => n.name.clone(),
        GraphNode::Unresolved(n) => n.value.clone(),
        GraphNode::Rationale(n) => n.text.clone(),
    }
}

/// The repository file a node belongs to, when it has one.
pub open spec fn path_text(node: GraphNode) -> Option<Seq<char>> {
    match node {
        GraphNode::Artifact(n) => Some(n.path@),
        GraphNode::Symbol(n) => Some(n.evidence.path@),
        GraphNode::Config(n) => Some(n.evidence.path@),
        GraphNode::Documentation(n) => Some(n.evidence.path@),
        GraphNode::Command(n) => Some(n.evidence.path@),
        GraphNode::Module(n) => Some(n.evidence.path@),
        GraphNode::Rationale(n) => Some(n.evidence.path@),
        _ => None,
    }
}

/// The repository file `node` belongs to, when it has one.
pub fn node_file_path(node: &GraphNode) -> (r: Option<String>)
    ensures
        match r {
            Some(p) => path_text(*node) == Some(p@),
            None => path_text(*node) is None,
        },
{
    match node {
        GraphNode::Artifact(n) => Some(n.path.clone()),
        GraphNode::Symbol(n) => Some(n.evidence.path.clone()),
        GraphNode::Config(n) => Some(n.evidence.path.clone()),
        GraphNode::Documentation(n) => Some(n.evidence.path.clone()),
        GraphNode::Command(n) => Some(n.evidence.path.clone()),
        GraphNode::Module(n) => Some(n.evidence.path.clone()),
        GraphNode::Rationale(n) => Some(n.evidence.path.clone()),
        _ => None,
    }
}

/// The lower-cased text a search query is matched against: id, label, name,
/// and file path separated by spaces.
pub open spec fn search_text(node: GraphNode) -> Seq<char> {
    let base = node_id(node) + " "@ + label_text(node) + " "@ + name_text(node);
    unicode_lower(
        match path_text(node) {
            Some(p) => base + " "@ + p,
            None => base,
        },
    )
}

/// The lower-cased search text of `node`.
pub fn node_search_text(node: &GraphNode) -> (r: String)
    ensures
        r@ == search_text(*node),
{
    let label = node_label(node);
    let name = node_name(node);
    let mut text = cat3(node.id().as_str(), " ", label.as_str());
    text = cat3(text.as_str(), " ", name.as_str());
    match node_file_path(node) {
        Some(p) => {
            text = cat3(text.as_str(), " ", p.as_str());
        },
        None => {},
    }
    proof {
        let base = node_id(*node) + " "@ + label_text(*node) + " "@ + name_text(*node);
        assert(base =~= (node_id(*node) + " "@ + label_text(*node)) + " "@ + name_text(*node));
    }
    to_lower(text.as_str())
}

/// `q` occurs in the lower-cased id, name, or file path of `node`.
pub open spec fn query_hit(node: GraphNode, q: Seq<char>) -> bool {
    ||| seq_contains(unicode_lower(node_id(node)), q)
    ||| seq_contains(unicode_lower(name_text(node)), q)
    ||| match path_text(node) {
        Some(p) => seq_contains(unicode_lower(p), q),
        None => false,
    }
}

/// Whether the lower-cased query `wanted` occurs in the lower-cased id,
/// name, or file path of `node`.
pub fn node_query_hit(node: &GraphNode, wanted: &str) -> (r: bool)
    ensures
        r == query_hit(*node, wanted@),
{
    let id = to_lower(node.id().as_str());
    if str_contains(id.as_str(), wanted) {
        return true;
    }
    let name = to_lower(node_name(node).as_str());
    if str_contains(name.as_str(), wanted) {
        return true;
    }
    match node_file_path(node) {
        Some(p) => {
            let lowered = to_lower(p.as_str());
            str_contains(lowered.as_str(), wanted)
        },
        None => false,
    }
}

/// How many relations end at `id`.
pub open spec fn in_count(rels: Seq<RelationView>, id: Seq<char>) -> nat
    decreases rels.len(),
{
    if rels.len() == 0 {
        0
    } else {
        in_count(rels.drop_last(), id) + if rels.last().target == id {
            1nat
        } else {
            0nat
        }
    }
}

/// How many relations start at `id`.
pub open spec fn out_count(rels: Seq<RelationView>, id: Seq<char>) -> nat
    decreases rels.len(),
{
    if rels.len() == 0 {
        0
    } else {
        out_count(rels.drop_last(), id) + if rels.last().source == id {
            1nat
        } else {
            0nat
        }
    }
}

/// Inbound and outbound relation counts of `id`.
pub fn degrees(graph: &Graph, id: &GraphNodeId) -> (r: (usize, usize))
    ensures
        r.0 as nat == in_count(graph@.relations, id@),
        r.1 as nat == out_count(graph@.relations, id@),
{
    let ghost rv = graph@.relations;
    let mut inbound: usize = 0;
    let mut outbound: usize = 0;
    let mut i: usize = 0;
    while i < graph.relations.len()
        invariant
            i <= graph.relations@.len(),
            rv == graph@.relations,
            inbound as nat == in_count(rv.subrange(0, i as int), id@),
            outbound as nat == out_count(rv.subrange(0, i as int), id@),
            inbound <= i,
            outbound <= i,
        decreases graph.relations@.len() - i,
    {
        let r = &graph.relations[i];
        assert(rv.subrange(0, i + 1).drop_last() =~= rv.subrange(0, i as int));
        assert(rv[i as int] == r@);
        if r.target.same(id) {
            inbound = inbound + 1;
        }
        if r.source.same(id) {
            outbound = outbound + 1;
        }
        i = i + 1;
    }
    assert(rv.subrange(0, i as int) =~= rv);
    (inbound, outbound)
}

/// One graph search result.
#[derive(Debug, PartialEq, Eq)]
pub struct SearchResult {
    /// Graph node id.
    pub id: GraphNodeId,
    /// Node label.
    pub label: String,
    /// Human-readable name.
    pub name: String,
    /// Repository-relative file path when the node has one.
    pub file_path: Option<String>,
    /// Inbound relation count.
    pub in_degree: usize,
    /// Outbound relation count.
    pub out_degree: usize,
}

/// The value of a search result.
pub struct SearchResultView {
    pub id: Seq<char>,
    pub label: Seq<char>,
    pub name: Seq<char>,
    pub file_path: Option<Seq<char>>,
    pub in_degree: nat,
    pub out_degree: nat,
}

impl View for SearchResult {
    type V = SearchResultView;

    open spec fn view(&self) -> SearchResultView {
        SearchResultView {
            id: self.id@,
            label: self.label@,
            name: self.name@,
            file_path: match self.file_path {
                Some(p) => Some(p@),
                None => None,
            },
            in_degree: self.in_degree as nat,
            out_degree: self.out_degree as nat,
        }
    }
}

impl Clone for SearchResult {
    fn clone(&self) -> (r: Self)
        ensures
            r@ == self@,
    {
        SearchResult {
            id: self.id.clone(),
            label: self.label.clone(),
            name: self.name.clone(),
            file_path: match &self.file_path {
                Some(p) => Some(p.clone()),
                None => None,
            },
            in_degree: self.in_degree,
            out_degree: self.out_degree,
        }
    }
}

/// The search result describing `node` in `g`.
pub open spec fn result_of(g: GraphView, node: GraphNode) -> SearchResultView {
    SearchResultView {
        id: node_id(node),
        label: label_text(node),
        name: name_text(node),
        file_path: path_text(node),
        in_degree: in_count(g.relations, node_id(node)),
        out_degree: out_count(g.relations, node_id(node)),
    }
}

/// The views of a list of search results.
pub open spec fn result_views(s: Seq<SearchResult>) -> Seq<SearchResultView> {
    s.map_values(|r: SearchResult| r@)
}

fn search_result(graph: &Graph, node: &GraphNode) -> (r: SearchResult)
    ensures
        r@ == result_of(graph@, *node),
{
    let (in_degree, out_degree) = degrees(graph, node.id());
    SearchResult {
        id: node.id().clone(),
        label: node_label(node),
        name: node_name(node),
        file_path: node_file_path(node),
        in_degree,
        out_degree,
    }
}

/// Structured graph search parameters.
#[derive(Debug, PartialEq, Eq)]
pub struct SearchParams {
    /// Optional node label filter, e.g. `Symbol`, `Artifact`, or `Package`.
    pub label: Option<String>,
    /// Optional case-insensitive substring matched against node names, ids, and paths.
    pub query: Option<String>,
    /// Maximum result count. Defaults to 10 when zero and is capped at 100.
    pub limit: usize,
}

/// Trace traversal direction.
#[derive(Debug, Clone, Copy, PartialEq, Eq, Structural)]
pub enum TraceDirection {
    /// Follow inbound relations.
    Inbound,
    /// Follow outbound relations.
    Outbound,
    /// Follow both inbound and outbound relations.
    Both,
}

/// Trace traversal parameters.
#[derive(Debug, PartialEq, Eq)]
pub struct TraceParams {
    /// Node id, exact name, or query substring used to choose the root node.
    pub query: String,
    /// Traversal depth. Defaults to 2 when zero.
    pub depth: usize,
    /// Traversal direction.
    pub direction: TraceDirection,
}

/// One visited node and its hop distance from the root.
#[derive(Debug, PartialEq, Eq)]
pub struct NodeHop {
    /// Node information.
    pub node: SearchResult,
    /// Hop distance from the root.
    pub hop: usize,
}

/// One relation included in a trace result.
#[derive(Debug, PartialEq, Eq)]
pub struct TraceRelation {
    /// Source node id.
    pub source: GraphNodeId,
    /// Target node id.
    pub target: GraphNodeId,
    /// Relation kind.
    pub kind: RelationKind,
}

/// Graph trace output.
#[derive(Debug, PartialEq, Eq)]
pub struct TraceResult {
    /// Root search result.
    pub root: SearchResult,
    /// Visited nodes with hop distance, by hop then id.
    pub visited: Vec<NodeHop>,
    /// Relations connecting visited nodes, in graph order.
    pub relations: Vec<TraceRelation>,
}

/// Package summary.
#[derive(Debug, PartialEq, Eq)]
pub struct PackageSummary {
    /// Package name.
    pub name: String,
    /// True when external to the repository.
    pub is_external: bool,
    /// Inbound relation count.
    pub in_degree: usize,
    /// Outbound relation count.
    pub out_degree: usize,
}

/// Architecture-oriented graph summary.
#[derive(Debug, PartialEq, Eq)]
pub struct ArchitectureSummary {
    /// Graph schema counts.
    pub schema: GraphSchema,
    /// Local and external package nodes.
    pub packages: Vec<PackageSummary>,
    /// Entry points: commands, containers, and the source symbols among the hotspots.
    pub entry_points: Vec<SearchResult>,
    /// High-degree graph nodes.
    pub hotspots: Vec<SearchResult>,
    /// External packages, env vars, and unresolved references.
    pub boundaries: Vec<SearchResult>,
    /// Existing architecture or decision documentation nodes.
    pub architecture_docs: Vec<SearchResult>,
}


/// `node` passes the optional label filter, compared case-insensitively.
pub open spec fn label_wanted(node: GraphNode, label: Option<Seq<char>>) -> bool {
    match label {
        Some(l) => unicode_lower(label_text(node)) == unicode_lower(l),
        None => true,
    }
}

/// `node` passes the optional query filter: the lower-cased query occurs in
/// its lower-cased id, name, or file path.
pub open spec fn query_wanted(node: GraphNode, query: Option<Seq<char>>) -> bool {
    match query {
        Some(q) => query_hit(node, unicode_lower(q)),
        None => true,
    }
}

/// The results for every node passing both filters, in graph order.
pub open spec fn search_hits(g: GraphView, nodes: Seq<GraphNode>, label: Option<Seq<char>>, query: Option<Seq<char>>) -> Seq<SearchResultView>
    decreases nodes.len(),
{
    if nodes.len() == 0 {
        Seq::empty()
    } else {
        let rest = search_hits(g, nodes.drop_last(), label, query);
        if label_wanted(nodes.last(), label) && query_wanted(nodes.last(), query) {
            rest.push(result_of(g, nodes.last()))
        } else {
            rest
        }
    }
}

/// Search ranking: more relations first, then label, name, and id.
pub open spec fn search_lt(a: SearchResultView, b: SearchResultView) -> bool {
    let ta = a.in_degree + a.out_degree;
    let tb = b.in_degree + b.out_degree;
    if ta != tb {
        ta > tb
    } else if a.label != b.label {
        seq_less(a.label, b.label)
    } else if a.name != b.name {
        seq_less(a.name, b.name)
    } else {
        seq_less(a.id, b.id)
    }
}

/// [`search_lt`] as a value.
pub open spec fn search_order() -> spec_fn(SearchResultView, SearchResultView) -> bool {
    |a: SearchResultView, b: SearchResultView| search_lt(a, b)
}

/// [`search_lt`] on result values.
pub open spec fn search_value_order() -> spec_fn(SearchResult, SearchResult) -> bool {
    |a: SearchResult, b: SearchResult| search_lt(a@, b@)
}

/// The effective result limit: 10 for zero, at most 100.
pub open spec fn effective_limit(limit: usize) -> nat {
    if limit == 0 {
        10
    } else if limit > 100 {
        100
    } else {
        limit as nat
    }
}

/// The first `n` elements of `s`, or all of them.
pub open spec fn first_n<T>(s: Seq<T>, n: nat) -> Seq<T> {
    if s.len() <= n {
        s
    } else {
        s.take(n as int)
    }
}

fn default_limit(limit: usize) -> (r: usize)
    ensures
        r as nat == effective_limit(limit),
{
    if limit == 0 {
        10
    } else if limit > 100 {
        100
    } else {
        limit
    }
}

fn search_less(a: &SearchResult, b: &SearchResult) -> (r: bool)
    ensures
        r == search_lt(a@, b@),
{
    let ta: u128 = (a.in_degree as u128) + (a.out_degree as u128);
    let tb: u128 = (b.in_degree as u128) + (b.out_degree as u128);
    if ta != tb {
        ta > tb
    } else if !str_eq(a.label.as_str(), b.label.as_str()) {
        str_less(a.label.as_str(), b.label.as_str())
    } else if !str_eq(a.name.as_str(), b.name.as_str()) {
        str_less(a.name.as_str(), b.name.as_str())
    } else {
        str_less(a.id.as_str(), b.id.as_str())
    }
}

fn sort_results(v: Vec<SearchResult>) -> (r: Vec<SearchResult>)
    ensures
        result_views(r@) == sort_spec(result_views(v@), search_order()),
{
    let r = sort_by(v, search_less, Ghost(search_value_order()));
    proof {
        lemma_sort_map(v@, |x: SearchResult| x@, search_value_order(), search_order());
    }
    r
}

fn truncate_results(v: &mut Vec<SearchResult>, n: usize)
    ensures
        result_views(final(v)@) == first_n(result_views(old(v)@), n as nat),
{
    if v.len() > n {
        v.truncate(n);
        assert(result_views(v@) =~= result_views(old(v)@).take(n as int));
    }
}

fn lowered(s: &Option<String>) -> (r: Option<String>)
    ensures
        match r {
            Some(x) => s.is_some() && x@ == unicode_lower(s->0@),
            None => s.is_none(),
        },
{
    match s {
        Some(v) => Some(to_lower(v.as_str())),
        None => None,
    }
}

fn option_view(s: &Option<String>) -> (r: Ghost<Option<Seq<char>>>)
    ensures
        r@ == match s {
            Some(v) => Some(v@),
            None => None::<Seq<char>>,
        },
{
    Ghost(match s {
        Some(v) => Some(v@),
        None => None,
    })
}


/// One hop in direction `d`: some relation leads from `x` to `y`.
pub open spec fn step(rels: Seq<RelationView>, d: TraceDirection, x: Seq<char>, y: Seq<char>) -> bool {
    exists|i: int| 0 <= i < rels.len() && hop_edge(#[trigger] rels[i], d, x, y)
}

/// Relation `r` leads from `x` to `y` in direction `d`.
pub open spec fn hop_edge(r: RelationView, d: TraceDirection, x: Seq<char>, y: Seq<char>) -> bool {
    ||| (d != TraceDirection::Inbound && r.source == x && r.target == y)
    ||| (d != TraceDirection::Outbound && r.target == x && r.source == y)
}

/// The ids at most `k` hops from `root`.
pub open spec fn reach_set(rels: Seq<RelationView>, d: TraceDirection, root: Seq<char>, k: nat) -> Set<Seq<char>>
    decreases k,
{
    if k == 0 {
        Set::empty().insert(root)
    } else {
        let prior = reach_set(rels, d, root, (k - 1) as nat);
        prior.union(Set::new(|x: Seq<char>| exists|y: Seq<char>| prior.contains(y) && #[trigger] step(rels, d, y, x)))
    }
}

/// `x` is at most `k` hops from `root`.
pub open spec fn within(rels: Seq<RelationView>, d: TraceDirection, root: Seq<char>, x: Seq<char>, k: nat) -> bool {
    reach_set(rels, d, root, k).contains(x)
}

/// One more hop: `x` is within `k + 1` hops exactly when it is within `k`
/// or one hop from something within `k`.
pub proof fn lemma_within_succ(rels: Seq<RelationView>, d: TraceDirection, root: Seq<char>, x: Seq<char>, k: nat)
    ensures
        within(rels, d, root, x, k + 1) <==> (within(rels, d, root, x, k) || exists|y: Seq<char>| #[trigger] within(rels, d, root, y, k)
            && step(rels, d, y, x)),
{
    assert(((k + 1) - 1) as nat == k);
    let prior = reach_set(rels, d, root, k);
    let next = Set::new(|z: Seq<char>| exists|y: Seq<char>| prior.contains(y) && #[trigger] step(rels, d, y, z));
    assert(reach_set(rels, d, root, k + 1) == prior.union(next));
    if exists|y: Seq<char>| #[trigger] within(rels, d, root, y, k) && step(rels, d, y, x) {
        let y = choose|y: Seq<char>| #[trigger] within(rels, d, root, y, k) && step(rels, d, y, x);
        assert(prior.contains(y));
        assert(next.contains(x));
    }
    if next.contains(x) {
        let y = choose|y: Seq<char>| prior.contains(y) && #[trigger] step(rels, d, y, x);
        assert(within(rels, d, root, y, k));
    }
}

/// `x` is exactly `h` hops from `root`: within `h` and not within fewer.
pub open spec fn distance_is(rels: Seq<RelationView>, d: TraceDirection, root: Seq<char>, x: Seq<char>, h: nat) -> bool {
    within(rels, d, root, x, h) && (h == 0 || !within(rels, d, root, x, (h - 1) as nat))
}

/// `seen` lists, in strictly increasing id order, every id within `k` hops
/// of `root`, each with its distance.
pub open spec fn reached(rels: Seq<RelationView>, d: TraceDirection, root: Seq<char>, k: nat, seen: Seq<(Seq<char>, nat)>) -> bool {
    &&& crate::strmap::strictly_sorted(seen.map_values(|e: (Seq<char>, nat)| e.0))
    &&& forall|x: Seq<char>| #[trigger] within(rels, d, root, x, k) <==> exists|h: nat| seen.to_set().contains((x, h))
    &&& forall|x: Seq<char>, h: nat| #[trigger] seen.to_set().contains((x, h)) ==> distance_is(rels, d, root, x, h) && h <= k
}

/// Some relation among the first `n` leads to `x` from an id within `k` hops.
pub open spec fn reaches_by(rels: Seq<RelationView>, d: TraceDirection, root: Seq<char>, k: nat, n: int, x: Seq<char>) -> bool {
    exists|i: int, y: Seq<char>| 0 <= i < n && #[trigger] within(rels, d, root, y, k) && hop_edge(#[trigger] rels[i], d, y, x)
}

/// The views of a visit list.
pub open spec fn seen_view(s: Seq<(String, usize)>) -> Seq<(Seq<char>, nat)> {
    s.map_values(|e: (String, usize)| (e.0@, e.1 as nat))
}

/// The traversal depth: 2 for zero, else the depth asked for.
pub open spec fn effective_depth(depth: usize) -> nat {
    if depth == 0 {
        2
    } else {
        depth as nat
    }
}

/// The first node of `nodes` satisfying `p`.
pub open spec fn first_where(nodes: Seq<GraphNode>, p: spec_fn(GraphNode) -> bool) -> Option<GraphNode>
    decreases nodes.len(),
{
    if nodes.len() == 0 {
        None
    } else if p(nodes[0]) {
        Some(nodes[0])
    } else {
        first_where(nodes.drop_first(), p)
    }
}

/// The root a trace query selects: the first node whose id is the query,
/// else the first whose name is, else the first whose search text contains
/// the lower-cased query.
pub open spec fn trace_root(nodes: Seq<GraphNode>, q: Seq<char>) -> Option<GraphNode> {
    match first_where(nodes, id_is(q)) {
        Some(n) => Some(n),
        None => match first_where(nodes, name_is(q)) {
            Some(n) => Some(n),
            None => first_where(nodes, text_has(unicode_lower(q))),
        },
    }
}

/// The node's id is `q`.
pub open spec fn id_is(q: Seq<char>) -> spec_fn(GraphNode) -> bool {
    |n: GraphNode| node_id(n) == q
}

/// The node's name is `q`.
pub open spec fn name_is(q: Seq<char>) -> spec_fn(GraphNode) -> bool {
    |n: GraphNode| name_text(n) == q
}

/// The node's search text contains `q`.
pub open spec fn text_has(q: Seq<char>) -> spec_fn(GraphNode) -> bool {
    |n: GraphNode| seq_contains(search_text(n), q)
}

/// How a root is matched against a trace query.
pub enum RootMatch {
    Id,
    Name,
    Text,
}

/// The spec predicate for one way of matching a root.
pub open spec fn root_pred(m: RootMatch, q: Seq<char>, lowered: Seq<char>) -> spec_fn(GraphNode) -> bool {
    match m {
        RootMatch::Id => id_is(q),
        RootMatch::Name => name_is(q),
        RootMatch::Text => text_has(lowered),
    }
}

fn root_matches(node: &GraphNode, m: &RootMatch, q: &str, lowered: &str) -> (r: bool)
    ensures
        r == (root_pred(*m, q@, lowered@))(*node),
{
    match m {
        RootMatch::Id => str_eq(node.id().as_str(), q),
        RootMatch::Name => {
            let name = node_name(node);
            str_eq(name.as_str(), q)
        },
        RootMatch::Text => {
            let text = node_search_text(node);
            str_contains(text.as_str(), lowered)
        },
    }
}

fn first_match<'b>(nodes: &'b Vec<GraphNode>, m: &RootMatch, q: &str, lowered: &str) -> (r: Option<&'b GraphNode>)
    ensures
        match r {
            Some(n) => first_where(nodes@, root_pred(*m, q@, lowered@)) == Some(*n),
            None => first_where(nodes@, root_pred(*m, q@, lowered@)) is None,
        },
{
    let ghost p = root_pred(*m, q@, lowered@);
    let mut i: usize = 0;
    while i < nodes.len()
        invariant
            i <= nodes@.len(),
            p == root_pred(*m, q@, lowered@),
            first_where(nodes@, p) == first_where(nodes@.skip(i as int), p),
        decreases nodes@.len() - i,
    {
        assert(nodes@.skip(i as int)[0] == nodes@[i as int]);
        if root_matches(&nodes[i], m, q, lowered) {
            return Some(&nodes[i]);
        }
        assert(nodes@.skip(i as int).drop_first() =~= nodes@.skip(i + 1));
        i = i + 1;
    }
    None
}

fn find_root<'b>(nodes: &'b Vec<GraphNode>, q: &str) -> (r: Option<&'b GraphNode>)
    ensures
        match r {
            Some(n) => trace_root(nodes@, q@) == Some(*n),
            None => trace_root(nodes@, q@) is None,
        },
{
    let lowered = to_lower(q);
    match first_match(nodes, &RootMatch::Id, q, lowered.as_str()) {
        Some(n) => Some(n),
        None => match first_match(nodes, &RootMatch::Name, q, lowered.as_str()) {
            Some(n) => Some(n),
            None => first_match(nodes, &RootMatch::Text, q, lowered.as_str()),
        },
    }
}

/// The visited view of one node hop.
pub open spec fn hop_view(h: NodeHop) -> (SearchResultView, nat) {
    (h.node@, h.hop as nat)
}

/// The ids of `seen` that name graph nodes, with their results and hops, in id order.
pub open spec fn visited_entries(g: GraphView, seen: Seq<(Seq<char>, nat)>) -> Seq<(SearchResultView, nat)>
    decreases seen.len(),
{
    if seen.len() == 0 {
        Seq::empty()
    } else {
        let rest = visited_entries(g, seen.drop_last());
        match node_with_id(g.nodes, seen.last().0) {
            Some(n) => rest.push((result_of(g, n), seen.last().1)),
            None => rest,
        }
    }
}

/// Visit order: by hop, then by id.
pub open spec fn hop_lt(a: (SearchResultView, nat), b: (SearchResultView, nat)) -> bool {
    if a.1 != b.1 {
        a.1 < b.1
    } else {
        seq_less(a.0.id, b.0.id)
    }
}

/// [`hop_lt`] as a value.
pub open spec fn hop_order() -> spec_fn((SearchResultView, nat), (SearchResultView, nat)) -> bool {
    |a: (SearchResultView, nat), b: (SearchResultView, nat)| hop_lt(a, b)
}

/// [`hop_lt`] on visit values.
pub open spec fn hop_value_order() -> spec_fn(NodeHop, NodeHop) -> bool {
    |a: NodeHop, b: NodeHop| hop_lt(hop_view(a), hop_view(b))
}

/// The view of one trace relation.
pub open spec fn trace_relation_view(t: TraceRelation) -> (Seq<char>, Seq<char>, RelationKind) {
    (t.source@, t.target@, t.kind)
}

/// The relations of `rels` with both endpoints in `seen`, in order.
pub open spec fn relations_within(rels: Seq<RelationView>, seen: Seq<(Seq<char>, nat)>) -> Seq<(Seq<char>, Seq<char>, RelationKind)>
    decreases rels.len(),
{
    if rels.len() == 0 {
        Seq::empty()
    } else {
        let rest = relations_within(rels.drop_last(), seen);
        let r = rels.last();
        if (exists|j: int| 0 <= j < seen.len() && (#[trigger] seen[j]).0 == r.source) && (exists|j: int| 0 <= j < seen.len() && (#[trigger] seen[j]).0 == r.target) {
            rest.push((r.source, r.target, r.kind))
        } else {
            rest
        }
    }
}

/// `t` is the trace of `g` from `root` in direction `d` up to `k` hops.
pub open spec fn trace_of(g: GraphView, root: GraphNode, d: TraceDirection, k: nat, t: TraceResult) -> bool {
    &&& t.root@ == result_of(g, root)
    &&& exists|seen: Seq<(Seq<char>, nat)>| #[trigger] reached(g.relations, d, node_id(root), k, seen)
        && t.visited@.map_values(|h: NodeHop| hop_view(h)) == sort_spec(visited_entries(g, seen), hop_order())
        && t.relations@.map_values(|x: TraceRelation| trace_relation_view(x)) == relations_within(g.relations, seen)
}


proof fn lemma_keys_match(s: Seq<(String, usize)>)
    ensures
        crate::strmap::keys_of(s) == seen_view(s).map_values(|e: (Seq<char>, nat)| e.0),
{
    assert(crate::strmap::keys_of(s) =~= seen_view(s).map_values(|e: (Seq<char>, nat)| e.0));
}

proof fn lemma_insert_to_set<A>(s: Seq<A>, i: int, e: A)
    requires
        0 <= i <= s.len(),
    ensures
        s.insert(i, e).to_set() == s.to_set().insert(e),
{
    let t = s.insert(i, e);
    assert forall|x: A| t.to_set().contains(x) <==> s.to_set().insert(e).contains(x) by {
        if t.contains(x) {
            let j = choose|j: int| 0 <= j < t.len() && t[j] == x;
            if j < i {
                assert(s[j] == x);
            } else if j > i {
                assert(s[j - 1] == x);
            }
        }
        if s.contains(x) {
            let j = choose|j: int| 0 <= j < s.len() && s[j] == x;
            if j < i {
                assert(t[j] == x);
            } else {
                assert(t[j + 1] == x);
            }
        }
        if x == e {
            assert(t[i] == x);
        }
    }
    assert(t.to_set() =~= s.to_set().insert(e));
}

/// The entry of `key` in a visit set, when keys are unique.
proof fn lemma_unique_key(seen: Seq<(Seq<char>, nat)>, x: Seq<char>, h1: nat, h2: nat)
    requires
        crate::strmap::strictly_sorted(seen.map_values(|e: (Seq<char>, nat)| e.0)),
        seen.to_set().contains((x, h1)),
        seen.to_set().contains((x, h2)),
    ensures
        h1 == h2,
{
    let keys = seen.map_values(|e: (Seq<char>, nat)| e.0);
    let a = choose|j: int| 0 <= j < seen.len() && seen[j] == (x, h1);
    let b = choose|j: int| 0 <= j < seen.len() && seen[j] == (x, h2);
    if a < b {
        assert(seq_less(keys[a], keys[b]));
        crate::text::lemma_less_irreflexive(x);
    } else if b < a {
        assert(seq_less(keys[b], keys[a]));
        crate::text::lemma_less_irreflexive(x);
    }
}

/// Adds `to` at hop `r` when `from` was reached before hop `r` and `to` was
/// not reached at all.
fn expand(seen: &mut Vec<(String, usize)>, from: &GraphNodeId, to: &GraphNodeId, r: usize)
    requires
        crate::strmap::strictly_sorted(crate::strmap::keys_of(old(seen)@)),
    ensures
        crate::strmap::strictly_sorted(crate::strmap::keys_of(final(seen)@)),
        ((exists|h: nat| h < r && seen_view(old(seen)@).to_set().contains((from@, h))) && !(exists|h: nat|
            seen_view(old(seen)@).to_set().contains((to@, h)))) ==> seen_view(final(seen)@).to_set() == seen_view(
            old(seen)@,
        ).to_set().insert((to@, r as nat)),
        !((exists|h: nat| h < r && seen_view(old(seen)@).to_set().contains((from@, h))) && !(exists|h: nat|
            seen_view(old(seen)@).to_set().contains((to@, h)))) ==> seen_view(final(seen)@) == seen_view(old(seen)@),
        final(seen)@.len() >= old(seen)@.len(),
        final(seen)@.len() == old(seen)@.len() ==> seen_view(final(seen)@) == seen_view(old(seen)@),
{
    let ghost before = seen_view(seen@);
    proof {
        lemma_keys_match(seen@);
    }
    let (found_from, at_from) = crate::strmap::locate(seen, from.as_str());
    let from_early = found_from && seen[at_from].1 < r;
    if from_early {
        assert(before[at_from as int] == (from@, seen@[at_from as int].1 as nat));
        assert(before.contains((from@, seen@[at_from as int].1 as nat)));
        assert(before.to_set().contains((from@, seen@[at_from as int].1 as nat)));
    } else {
        assert forall|h: nat| h < r && before.to_set().contains((from@, h)) implies false by {
            let j = choose|j: int| 0 <= j < before.len() && before[j] == (from@, h);
            assert(crate::strmap::keys_of(seen@)[j] == from@);
            if found_from {
                if j != at_from {
                    if j < at_from {
                        assert(seq_less(crate::strmap::keys_of(seen@)[j], crate::strmap::keys_of(seen@)[at_from as int]));
                    } else {
                        assert(seq_less(crate::strmap::keys_of(seen@)[at_from as int], crate::strmap::keys_of(seen@)[j]));
                    }
                    crate::text::lemma_less_irreflexive(from@);
                }
            }
        }
    }
    let (found_to, at_to) = crate::strmap::locate(seen, to.as_str());
    if found_to {
        assert(before[at_to as int].0 == to@);
        assert(before[at_to as int] == (to@, before[at_to as int].1));
        assert(before.contains((to@, before[at_to as int].1)));
        assert(before.to_set().contains((to@, before[at_to as int].1)));
    } else {
        assert forall|h: nat| !before.to_set().contains((to@, h)) by {
            if before.contains((to@, h)) {
                let j = choose|j: int| 0 <= j < before.len() && before[j] == (to@, h);
                assert(crate::strmap::keys_of(seen@)[j] == to@);
            }
        }
    }
    if from_early && !found_to {
        proof {
            crate::strmap::lemma_insert_keeps_sorted(crate::strmap::keys_of(seen@), to@, at_to as int);
        }
        seen.insert(at_to, (owned(to.as_str()), r));
        assert(crate::strmap::keys_of(seen@) =~= crate::strmap::keys_of(old(seen)@).insert(at_to as int, to@));
        assert(seen_view(seen@) =~= before.insert(at_to as int, (to@, r as nat)));
        proof {
            lemma_insert_to_set(before, at_to as int, (to@, r as nat));
        }
    }
}

proof fn lemma_within_step(rels: Seq<RelationView>, d: TraceDirection, root: Seq<char>, y: Seq<char>, x: Seq<char>, k: nat, i: int)
    requires
        within(rels, d, root, y, k),
        0 <= i < rels.len(),
        hop_edge(rels[i], d, y, x),
    ensures
        within(rels, d, root, x, k + 1),
{
    assert(step(rels, d, y, x));
    lemma_within_succ(rels, d, root, x, k);
}

/// Every id within `k` hops of `root`, in id order, with its distance.
fn reach(g: &Graph, d: TraceDirection, root: &GraphNodeId, k: usize) -> (seen: Vec<(String, usize)>)
    ensures
        reached(g@.relations, d, root@, k as nat, seen_view(seen@)),
{
    let ghost rels = g@.relations;
    let mut seen: Vec<(String, usize)> = Vec::new();
    seen.push((owned(root.as_str()), 0));
    proof {
        assert(seen_view(seen@) =~= seq![(root@, 0nat)]);
        assert(seen_view(seen@).to_set() =~= Set::empty().insert((root@, 0nat)));
        assert forall|x: Seq<char>| #[trigger] within(rels, d, root@, x, 0) <==> exists|h: nat| seen_view(seen@).to_set().contains((x, h)) by {
            if x == root@ {
                assert(seen_view(seen@).to_set().contains((x, 0nat)));
            }
        }
    }
    let mut r: usize = 1;
    let mut done = k == 0;
    while !done
        invariant
            1 <= r,
            !done ==> r <= k,
            rels == g@.relations,
            !done ==> reached(rels, d, root@, (r - 1) as nat, seen_view(seen@)),
            done ==> reached(rels, d, root@, k as nat, seen_view(seen@)),
        decreases k - r + if done { 0int } else { 1int },
    {
        let ghost prev = seen_view(seen@).to_set();
        let ghost round_view = seen_view(seen@);
        let round_len = seen.len();
        let ghost k0 = (r - 1) as nat;
        let mut j: usize = 0;
        while j < g.relations.len()
            invariant
                j <= g.relations@.len(),
                1 <= r <= k,
                k0 == (r - 1) as nat,
                seen@.len() >= round_len,
                seen@.len() == round_len ==> seen_view(seen@) == round_view,
                round_view.to_set() == prev,
                rels == g@.relations,
                forall|x: Seq<char>| #[trigger] within(rels, d, root@, x, k0) <==> exists|h: nat| prev.contains((x, h)),
                forall|x: Seq<char>, h: nat| #[trigger] prev.contains((x, h)) ==> distance_is(rels, d, root@, x, h) && h <= k0,
                crate::strmap::strictly_sorted(seen_view(seen@).map_values(|e: (Seq<char>, nat)| e.0)),
                forall|x: Seq<char>, h: nat| h < r ==> (#[trigger] seen_view(seen@).to_set().contains((x, h)) <==> prev.contains((x, h))),
                forall|x: Seq<char>, h: nat| #[trigger] seen_view(seen@).to_set().contains((x, h)) ==> h <= r,
                forall|x: Seq<char>| #[trigger] seen_view(seen@).to_set().contains((x, r as nat)) ==> !within(rels, d, root@, x, k0)
                    && reaches_by(rels, d, root@, k0, j as int, x),
                forall|x: Seq<char>| #[trigger] reaches_by(rels, d, root@, k0, j as int, x) ==> exists|h: nat| seen_view(seen@).to_set().contains((x, h)),
            decreases g.relations@.len() - j,
        {
            let rel = &g.relations[j];
            assert(rels[j as int] == rel@);
            let ghost s0 = seen_view(seen@).to_set();
            proof {
                lemma_keys_match(seen@);
            }
            if d != TraceDirection::Inbound {
                expand(&mut seen, &rel.source, &rel.target, r);
            }
            let ghost s1 = seen_view(seen@).to_set();
            proof {
                lemma_keys_match(seen@);
            }
            if d != TraceDirection::Outbound {
                expand(&mut seen, &rel.target, &rel.source, r);
            }
            let ghost s2 = seen_view(seen@).to_set();
            proof {
                lemma_keys_match(seen@);
                assert forall|x: Seq<char>, h: nat| h < r implies (#[trigger] s2.contains((x, h)) <==> prev.contains((x, h))) by {
                    assert(s0.contains((x, h)) <==> prev.contains((x, h)));
                }
                assert forall|x: Seq<char>| #[trigger] s2.contains((x, r as nat)) implies !within(rels, d, root@, x, k0)
                    && reaches_by(rels, d, root@, k0, j + 1, x) by {
                    if s0.contains((x, r as nat)) {
                        assert(reaches_by(rels, d, root@, k0, j as int, x));
                        let (i0, y0) = choose|i: int, y: Seq<char>| 0 <= i < j && #[trigger] within(rels, d, root@, y, k0) && hop_edge(#[trigger] rels[i], d, y, x);
                        assert(reaches_by(rels, d, root@, k0, j + 1, x));
                    } else if s1.contains((x, r as nat)) {
                        let hf = choose|h: nat| h < r && s0.contains((rel.source@, h));
                        assert(prev.contains((rel.source@, hf)));
                        assert(within(rels, d, root@, rel.source@, k0));
                        assert(hop_edge(rels[j as int], d, rel.source@, rel.target@));
                        assert(x == rel.target@);
                        assert(!exists|h: nat| s0.contains((rel.target@, h)));
                        assert(reaches_by(rels, d, root@, k0, j + 1, x));
                    } else {
                        let ht = choose|h: nat| h < r && s1.contains((rel.target@, h));
                        assert(prev.contains((rel.target@, ht))) by {
                            if !s0.contains((rel.target@, ht)) {
                                assert(s1 == s0.insert((rel.target@, r as nat)));
                            }
                        }
                        assert(within(rels, d, root@, rel.target@, k0));
                        assert(hop_edge(rels[j as int], d, rel.target@, rel.source@));
                        assert(x == rel.source@);
                        assert(reaches_by(rels, d, root@, k0, j + 1, x));
                        if within(rels, d, root@, x, k0) {
                            let hh = choose|h: nat| prev.contains((x, h));
                            assert(s1.contains((x, hh)));
                        }
                    }
                    if within(rels, d, root@, x, k0) {
                        let hh = choose|h: nat| prev.contains((x, h));
                        assert(s2.contains((x, hh)));
                        lemma_unique_key(seen_view(seen@), x, hh, r as nat);
                    }
                }
                assert forall|x: Seq<char>| #[trigger] reaches_by(rels, d, root@, k0, j + 1, x) implies exists|h: nat| s2.contains((x, h)) by {
                    let (i0, y0) = choose|i: int, y: Seq<char>| 0 <= i < j + 1 && #[trigger] within(rels, d, root@, y, k0) && hop_edge(#[trigger] rels[i], d, y, x);
                    if i0 < j {
                        assert(reaches_by(rels, d, root@, k0, j as int, x));
                        let h0 = choose|h: nat| s0.contains((x, h));
                        assert(s2.contains((x, h0)));
                    } else {
                        let hy = choose|h: nat| prev.contains((y0, h));
                        assert(s0.contains((y0, hy)));
                        if d != TraceDirection::Inbound && rel.source@ == y0 && rel.target@ == x {
                            assert(s1.contains((y0, hy)));
                            if !(exists|h: nat| s0.contains((x, h))) {
                                assert(s1.contains((x, r as nat)));
                            } else {
                                let h0 = choose|h: nat| s0.contains((x, h));
                                assert(s1.contains((x, h0)));
                            }
                            let h1 = choose|h: nat| s1.contains((x, h));
                            assert(s2.contains((x, h1)));
                        } else {
                            assert(s1.contains((y0, hy)));
                            if !(exists|h: nat| s1.contains((x, h))) {
                                assert(s2.contains((x, r as nat)));
                            } else {
                                let h1 = choose|h: nat| s1.contains((x, h));
                                assert(s2.contains((x, h1)));
                            }
                        }
                    }
                }
            }
            j = j + 1;
        }
        proof {
            let sv = seen_view(seen@);
            let k1 = r as nat;
            assert forall|x: Seq<char>| #[trigger] within(rels, d, root@, x, k1) <==> exists|h: nat| sv.to_set().contains((x, h)) by {
                if within(rels, d, root@, x, k1) {
                    if within(rels, d, root@, x, k0) {
                        let h = choose|h: nat| prev.contains((x, h));
                        assert(sv.to_set().contains((x, h)));
                    } else {
                        lemma_within_succ(rels, d, root@, x, k0);
                        let y = choose|y: Seq<char>| #[trigger] within(rels, d, root@, y, k0) && step(rels, d, y, x);
                        let i = choose|i: int| 0 <= i < rels.len() && hop_edge(#[trigger] rels[i], d, y, x);
                        assert(reaches_by(rels, d, root@, k0, g.relations@.len() as int, x));
                    }
                }
                if exists|h: nat| sv.to_set().contains((x, h)) {
                    let h = choose|h: nat| sv.to_set().contains((x, h));
                    if h < r {
                        assert(prev.contains((x, h)));
                        assert(within(rels, d, root@, x, k0));
                    } else {
                        assert(h == r);
                        let (i, y) = choose|i: int, y: Seq<char>| 0 <= i < g.relations@.len() && #[trigger] within(rels, d, root@, y, k0) && hop_edge(#[trigger] rels[i], d, y, x);
                        lemma_within_step(rels, d, root@, y, x, k0, i);
                    }
                }
            }
            assert forall|x: Seq<char>, h: nat| #[trigger] sv.to_set().contains((x, h)) implies distance_is(rels, d, root@, x, h) && h <= k1 by {
                if h < r {
                    assert(prev.contains((x, h)));
                } else {
                    let (i, y) = choose|i: int, y: Seq<char>| 0 <= i < g.relations@.len() && #[trigger] within(rels, d, root@, y, k0) && hop_edge(#[trigger] rels[i], d, y, x);
                    lemma_within_step(rels, d, root@, y, x, k0, i);
                }
            }
        }
        if seen.len() == round_len || r == k {
            proof {
                if seen@.len() == round_len {
                    assert forall|x: Seq<char>| #[trigger] within(rels, d, root@, x, r as nat) <==> within(rels, d, root@, x, k0) by {
                    }
                    lemma_within_stable(rels, d, root@, k0, k as nat);
                    let sv = seen_view(seen@);
                    assert forall|x: Seq<char>| #[trigger] within(rels, d, root@, x, k as nat) <==> exists|h: nat| sv.to_set().contains((x, h)) by {
                        assert(within(rels, d, root@, x, k as nat) <==> within(rels, d, root@, x, k0));
                    }
                }
            }
            done = true;
        } else {
            r = r + 1;
        }
    }
    seen
}

/// Once one more hop reaches nothing new, no number of further hops does.
proof fn lemma_within_stable(rels: Seq<RelationView>, d: TraceDirection, root: Seq<char>, k: nat, m: nat)
    requires
        forall|x: Seq<char>| #[trigger] within(rels, d, root, x, k + 1) <==> within(rels, d, root, x, k),
        k <= m,
    ensures
        forall|x: Seq<char>| #[trigger] within(rels, d, root, x, m) <==> within(rels, d, root, x, k),
    decreases m - k,
{
    if m > k {
        lemma_within_stable(rels, d, root, k, (m - 1) as nat);
        assert forall|x: Seq<char>| #[trigger] within(rels, d, root, x, m) <==> within(rels, d, root, x, k) by {
            lemma_within_succ(rels, d, root, x, (m - 1) as nat);
            lemma_within_succ(rels, d, root, x, k);
            assert(((m - 1) as nat + 1) as nat == m);
            if within(rels, d, root, x, m) && !within(rels, d, root, x, (m - 1) as nat) {
                let y = choose|y: Seq<char>| #[trigger] within(rels, d, root, y, (m - 1) as nat) && step(rels, d, y, x);
                assert(within(rels, d, root, y, k));
            }
            if within(rels, d, root, x, k + 1) && !within(rels, d, root, x, k) {
                let y = choose|y: Seq<char>| #[trigger] within(rels, d, root, y, k) && step(rels, d, y, x);
                assert(within(rels, d, root, y, (m - 1) as nat));
            }
        }
    }
}


fn effective_depth_exec(depth: usize) -> (r: usize)
    ensures
        r as nat == effective_depth(depth),
{
    if depth == 0 {
        2
    } else {
        depth
    }
}

fn hop_less(a: &NodeHop, b: &NodeHop) -> (r: bool)
    ensures
        r == hop_lt(hop_view(*a), hop_view(*b)),
{
    if a.hop != b.hop {
        a.hop < b.hop
    } else {
        str_less(a.node.id.as_str(), b.node.id.as_str())
    }
}

fn seen_has(seen: &Vec<(String, usize)>, id: &GraphNodeId) -> (r: bool)
    requires
        crate::strmap::strictly_sorted(crate::strmap::keys_of(seen@)),
    ensures
        r == exists|j: int| 0 <= j < seen_view(seen@).len() && (#[trigger] seen_view(seen@)[j]).0 == id@,
{
    let (found, at) = crate::strmap::locate(seen, id.as_str());
    if found {
        assert(seen_view(seen@)[at as int].0 == id@);
    } else {
        assert forall|j: int| 0 <= j < seen_view(seen@).len() implies (#[trigger] seen_view(seen@)[j]).0 != id@ by {
            assert(crate::strmap::keys_of(seen@)[j] == seen_view(seen@)[j].0);
        }
    }
    found
}


/// The value of a package summary.
pub struct PackageView {
    pub name: Seq<char>,
    pub is_external: bool,
    pub in_degree: nat,
    pub out_degree: nat,
}

/// The view of a package summary.
pub open spec fn package_view(p: PackageSummary) -> PackageView {
    PackageView { name: p.name@, is_external: p.is_external, in_degree: p.in_degree as nat, out_degree: p.out_degree as nat }
}

/// The views of package summaries.
pub open spec fn package_views(s: Seq<PackageSummary>) -> Seq<PackageView> {
    s.map_values(|p: PackageSummary| package_view(p))
}

/// The package summary of a package node.
pub open spec fn package_of(g: GraphView, node: GraphNode) -> PackageView {
    match node {
        GraphNode::Package(p) => PackageView {
            name: p.name@,
            is_external: p.is_external,
            in_degree: in_count(g.relations, p.id@),
            out_degree: out_count(g.relations, p.id@),
        },
        _ => PackageView { name: Seq::empty(), is_external: false, in_degree: 0, out_degree: 0 },
    }
}

/// The package summaries of the package nodes, in graph order.
pub open spec fn packages_in(g: GraphView, nodes: Seq<GraphNode>) -> Seq<PackageView>
    decreases nodes.len(),
{
    if nodes.len() == 0 {
        Seq::empty()
    } else {
        let rest = packages_in(g, nodes.drop_last());
        if nodes.last() is Package {
            rest.push(package_of(g, nodes.last()))
        } else {
            rest
        }
    }
}

/// Commands and containers: where execution enters.
pub open spec fn is_entry_point(node: GraphNode) -> bool {
    node is Command || node is Container
}

/// The source symbols among `hot`, the high-degree nodes, that have any
/// relation at all, in order.
pub open spec fn hot_symbols(hot: Seq<SearchResultView>) -> Seq<SearchResultView>
    decreases hot.len(),
{
    if hot.len() == 0 {
        Seq::empty()
    } else {
        let r = hot.last();
        if r.label == "Symbol"@ && r.in_degree + r.out_degree > 0 {
            hot_symbols(hot.drop_last()).push(r)
        } else {
            hot_symbols(hot.drop_last())
        }
    }
}

/// External packages, environment variables, and unresolved references.
pub open spec fn is_boundary(node: GraphNode) -> bool {
    ||| node is EnvVar
    ||| node is Unresolved
    ||| (node matches GraphNode::Package(p) && p.is_external)
}

/// Documentation about architecture or decisions, and artifacts whose path
/// names architecture or an ADR.
pub open spec fn is_architecture_doc(node: GraphNode) -> bool {
    match node {
        GraphNode::Documentation(d) => seq_contains(unicode_lower(d.title@), "architecture"@) || seq_contains(
            unicode_lower(d.title@),
            "decision"@,
        ),
        GraphNode::Artifact(a) => seq_contains(unicode_lower(a.path@), "architecture"@) || seq_contains(
            unicode_lower(a.path@),
            "adr"@,
        ),
        _ => false,
    }
}

/// The results of the nodes satisfying `p`, in graph order.
pub open spec fn results_where(g: GraphView, nodes: Seq<GraphNode>, p: spec_fn(GraphNode) -> bool) -> Seq<SearchResultView>
    decreases nodes.len(),
{
    if nodes.len() == 0 {
        Seq::empty()
    } else {
        let rest = results_where(g, nodes.drop_last(), p);
        if p(nodes.last()) {
            rest.push(result_of(g, nodes.last()))
        } else {
            rest
        }
    }
}

pub open spec fn entry_pred() -> spec_fn(GraphNode) -> bool {
    |n: GraphNode| is_entry_point(n)
}

pub open spec fn boundary_pred() -> spec_fn(GraphNode) -> bool {
    |n: GraphNode| is_boundary(n)
}

pub open spec fn doc_pred() -> spec_fn(GraphNode) -> bool {
    |n: GraphNode| is_architecture_doc(n)
}

pub open spec fn any_pred() -> spec_fn(GraphNode) -> bool {
    |n: GraphNode| true
}

/// Orders results by name.
pub open spec fn name_order() -> spec_fn(SearchResultView, SearchResultView) -> bool {
    |a: SearchResultView, b: SearchResultView| seq_less(a.name, b.name)
}

/// Orders results by label, then name.
pub open spec fn label_name_order() -> spec_fn(SearchResultView, SearchResultView) -> bool {
    |a: SearchResultView, b: SearchResultView| if a.label != b.label {
        seq_less(a.label, b.label)
    } else {
        seq_less(a.name, b.name)
    }
}

/// Orders results by relation count, most first, then name.
pub open spec fn hotspot_order() -> spec_fn(SearchResultView, SearchResultView) -> bool {
    |a: SearchResultView, b: SearchResultView| if a.in_degree + a.out_degree != b.in_degree + b.out_degree {
        a.in_degree + a.out_degree > b.in_degree + b.out_degree
    } else {
        seq_less(a.name, b.name)
    }
}

/// Orders package summaries by name.
pub open spec fn package_order() -> spec_fn(PackageView, PackageView) -> bool {
    |a: PackageView, b: PackageView| seq_less(a.name, b.name)
}

/// Two package summaries share a name.
pub open spec fn same_package() -> spec_fn(PackageView, PackageView) -> bool {
    |a: PackageView, b: PackageView| a.name == b.name
}

/// `a` is the architecture summary of `g`.
pub open spec fn architecture_of(g: GraphView, a: ArchitectureSummary) -> bool {
    &&& schema_of(g, a.schema)
    &&& package_views(a.packages@) == sort_spec(packages_in(g, g.nodes), package_order())
    &&& result_views(a.hotspots@) == first_n(sort_spec(results_where(g, g.nodes, any_pred()), hotspot_order()), 10)
    &&& result_views(a.entry_points@) == first_n(
        sort_spec(results_where(g, g.nodes, entry_pred()) + hot_symbols(result_views(a.hotspots@)), name_order()),
        20,
    )
    &&& result_views(a.boundaries@) == first_n(sort_spec(results_where(g, g.nodes, boundary_pred()), label_name_order()), 30)
    &&& result_views(a.architecture_docs@) == sort_spec(results_where(g, g.nodes, doc_pred()), name_order())
}

/// The first package node named `name`.
pub open spec fn package_named(name: Seq<char>) -> spec_fn(GraphNode) -> bool {
    |n: GraphNode| n matches GraphNode::Package(p) && p.name@ == name
}

/// The summaries of the packages that relations from `source` declare a
/// `DependsOnPackage` edge to, in relation order.
pub open spec fn dependencies_in(g: GraphView, rels: Seq<RelationView>, source: Seq<char>) -> Seq<PackageView>
    decreases rels.len(),
{
    if rels.len() == 0 {
        Seq::empty()
    } else {
        let rest = dependencies_in(g, rels.drop_last(), source);
        let r = rels.last();
        if r.kind == RelationKind::DependsOnPackage && r.source == source {
            match node_with_id(g.nodes, r.target) {
                Some(n) => if n is Package {
                    rest.push(package_of(g, n))
                } else {
                    rest
                },
                None => rest,
            }
        } else {
            rest
        }
    }
}

fn result_name_less(a: &SearchResult, b: &SearchResult) -> (r: bool)
    ensures
        r == (name_order())(a@, b@),
{
    str_less(a.name.as_str(), b.name.as_str())
}

fn result_label_name_less(a: &SearchResult, b: &SearchResult) -> (r: bool)
    ensures
        r == (label_name_order())(a@, b@),
{
    if !str_eq(a.label.as_str(), b.label.as_str()) {
        str_less(a.label.as_str(), b.label.as_str())
    } else {
        str_less(a.name.as_str(), b.name.as_str())
    }
}

fn result_hotspot_less(a: &SearchResult, b: &SearchResult) -> (r: bool)
    ensures
        r == (hotspot_order())(a@, b@),
{
    let ta: u128 = (a.in_degree as u128) + (a.out_degree as u128);
    let tb: u128 = (b.in_degree as u128) + (b.out_degree as u128);
    if ta != tb {
        ta > tb
    } else {
        str_less(a.name.as_str(), b.name.as_str())
    }
}

fn package_less(a: &PackageSummary, b: &PackageSummary) -> (r: bool)
    ensures
        r == (package_order())(package_view(*a), package_view(*b)),
{
    str_less(a.name.as_str(), b.name.as_str())
}

fn package_same(a: &PackageSummary, b: &PackageSummary) -> (r: bool)
    ensures
        r == (same_package())(package_view(*a), package_view(*b)),
{
    str_eq(a.name.as_str(), b.name.as_str())
}

fn sort_results_by<F: Fn(&SearchResult, &SearchResult) -> bool>(
    v: Vec<SearchResult>,
    less: F,
    Ghost(order): Ghost<spec_fn(SearchResultView, SearchResultView) -> bool>,
) -> (r: Vec<SearchResult>)
    requires
        forall|a: &SearchResult, b: &SearchResult| #[trigger] less.requires((a, b)),
        forall|a: &SearchResult, b: &SearchResult, o: bool| less.ensures((a, b), o) ==> o == order(a@, b@),
    ensures
        result_views(r@) == sort_spec(result_views(v@), order),
{
    let ghost value_order = |a: SearchResult, b: SearchResult| order(a@, b@);
    let r = sort_by(v, less, Ghost(value_order));
    proof {
        lemma_sort_map(v@, |x: SearchResult| x@, value_order, order);
    }
    r
}

fn sort_packages(v: Vec<PackageSummary>) -> (r: Vec<PackageSummary>)
    ensures
        package_views(r@) == sort_spec(package_views(v@), package_order()),
{
    let ghost value_order = |a: PackageSummary, b: PackageSummary| (package_order())(package_view(a), package_view(b));
    let r = sort_by(v, package_less, Ghost(value_order));
    proof {
        lemma_sort_map(v@, |x: PackageSummary| package_view(x), value_order, package_order());
    }
    r
}

proof fn lemma_dedup_map(s: Seq<PackageSummary>)
    ensures
        package_views(dedup_spec(s, |a: PackageSummary, b: PackageSummary| (same_package())(package_view(a), package_view(b))))
            == dedup_spec(package_views(s), same_package()),
    decreases s.len(),
{
    if s.len() > 0 {
        lemma_dedup_map(s.drop_last());
        assert(package_views(s.drop_last()) =~= package_views(s).drop_last());
        let p = dedup_spec(s.drop_last(), |a: PackageSummary, b: PackageSummary| (same_package())(package_view(a), package_view(b)));
        assert(package_views(p.push(s.last())) =~= package_views(p).push(package_view(s.last())));
        if p.len() > 0 {
            assert(package_views(p).last() == package_view(p.last()));
        }
    }
}

fn dedup_packages(v: Vec<PackageSummary>) -> (r: Vec<PackageSummary>)
    ensures
        package_views(r@) == dedup_spec(package_views(v@), same_package()),
{
    let r = dedup_by(v, package_same, Ghost(|a: PackageSummary, b: PackageSummary| (same_package())(package_view(a), package_view(b))));
    proof {
        lemma_dedup_map(v@);
    }
    r
}

fn truncated(mut v: Vec<SearchResult>, n: usize) -> (r: Vec<SearchResult>)
    ensures
        result_views(r@) == first_n(result_views(v@), n as nat),
{
    truncate_results(&mut v, n);
    v
}

fn lower_contains(s: &str, needle: &str) -> (r: bool)
    ensures
        r == seq_contains(unicode_lower(s@), needle@),
{
    let l = to_lower(s);
    str_contains(l.as_str(), needle)
}

fn architecture_doc(node: &GraphNode) -> (r: bool)
    ensures
        r == is_architecture_doc(*node),
{
    match node {
        GraphNode::Documentation(d) => lower_contains(d.title.as_str(), "architecture") || lower_contains(
            d.title.as_str(),
            "decision",
        ),
        GraphNode::Artifact(a) => lower_contains(a.path.as_str(), "architecture") || lower_contains(a.path.as_str(), "adr"),
        _ => false,
    }
}

/// Queryable knowledge index over one graph snapshot.
#[derive(Debug, Clone, Copy)]
pub struct KnowledgeIndex<'a> {
    pub graph: &'a Graph,
}

/// The node a lookup by `id` finds: the last node with that id.
pub open spec fn node_with_id(nodes: Seq<GraphNode>, id: Seq<char>) -> Option<GraphNode>
    decreases nodes.len(),
{
    if nodes.len() == 0 {
        None
    } else if node_id(nodes.last()) == id {
        Some(nodes.last())
    } else {
        node_with_id(nodes.drop_last(), id)
    }
}

/// Finds the node a lookup by id finds.
pub fn find_node<'b>(nodes: &'b Vec<GraphNode>, id: &GraphNodeId) -> (r: Option<&'b GraphNode>)
    ensures
        match r {
            Some(n) => node_with_id(nodes@, id@) == Some(*n),
            None => node_with_id(nodes@, id@) is None,
        },
{
    let mut i = nodes.len();
    assert(nodes@.subrange(0, nodes@.len() as int) =~= nodes@);
    while i > 0
        invariant
            i <= nodes@.len(),
            node_with_id(nodes@, id@) == node_with_id(nodes@.subrange(0, i as int), id@),
        decreases i,
    {
        let ghost prefix = nodes@.subrange(0, i as int);
        assert(prefix.drop_last() =~= nodes@.subrange(0, i - 1));
        assert(prefix.last() == nodes@[i - 1]);
        if nodes[i - 1].id().same(id) {
            return Some(&nodes[i - 1]);
        }
        i = i - 1;
    }
    None
}

/// The label of the node with id `id`, or `Unknown`.
pub open spec fn endpoint_label(nodes: Seq<GraphNode>, id: Seq<char>) -> Seq<char> {
    match node_with_id(nodes, id) {
        Some(n) => label_text(n),
        None => "Unknown"@,
    }
}

/// The `(source)-[edge]->(target)` pattern of a relation.
pub open spec fn pattern_text(nodes: Seq<GraphNode>, r: RelationView) -> Seq<char> {
    "("@ + endpoint_label(nodes, r.source) + ")-["@ + kind_name(r.kind) + "]->("@ + endpoint_label(nodes, r.target)
        + ")"@
}

/// Node labels, node by node.
pub open spec fn label_seq(nodes: Seq<GraphNode>) -> Seq<Seq<char>> {
    nodes.map_values(|n: GraphNode| label_text(n))
}

/// Relation kind names, relation by relation.
pub open spec fn kind_seq(rels: Seq<RelationView>) -> Seq<Seq<char>> {
    rels.map_values(|r: RelationView| kind_name(r.kind))
}

/// Relation patterns, relation by relation.
pub open spec fn pattern_seq(g: GraphView) -> Seq<Seq<char>> {
    g.relations.map_values(|r: RelationView| pattern_text(g.nodes, r))
}

/// The multiset of node labels.
pub open spec fn label_items(nodes: Seq<GraphNode>) -> Multiset<Seq<char>> {
    label_seq(nodes).to_multiset()
}

/// The multiset of relation kind names.
pub open spec fn kind_items(rels: Seq<RelationView>) -> Multiset<Seq<char>> {
    kind_seq(rels).to_multiset()
}

/// The multiset of relation patterns.
pub open spec fn pattern_items(g: GraphView) -> Multiset<Seq<char>> {
    pattern_seq(g).to_multiset()
}

/// A pattern line: `pattern [Nx]`.
pub open spec fn pattern_line(pattern: Seq<char>, count: nat) -> Seq<char> {
    pattern + " ["@ + decimal(count) + "x]"@
}

/// `s` is the schema of `g`: label, edge-type, and pattern counts in
/// increasing key order.
pub open spec fn schema_of(g: GraphView, s: GraphSchema) -> bool {
    &&& tallies(s.node_labels@.map_values(|c: LabelCount| (c.label, c.count)), label_items(g.nodes))
    &&& tallies(s.edge_types@.map_values(|c: TypeCount| (c.edge_type, c.count)), kind_items(g.relations))
    &&& exists|t: Seq<(String, usize)>| #[trigger] tallies(t, pattern_items(g)) && t.len() == s.relationship_patterns@.len()
        && forall|k: int| 0 <= k < t.len() ==> (#[trigger] s.relationship_patterns@[k])@ == pattern_line(t[k].0@, t[k].1 as nat)
}

fn endpoint_label_of(nodes: &Vec<GraphNode>, id: &GraphNodeId) -> (r: String)
    ensures
        r@ == endpoint_label(nodes@, id@),
{
    match find_node(nodes, id) {
        Some(n) => node_label(n),
        None => owned("Unknown"),
    }
}

impl<'a> KnowledgeIndex<'a> {
    /// Creates an index over a graph snapshot.
    pub fn new(graph: &'a Graph) -> (r: Self)
        ensures
            r.graph == graph,
    {
        KnowledgeIndex { graph }
    }


    /// Searches nodes by label and substring query: the best-connected
    /// matches first, at most the effective limit of them.
    pub fn search(&self, params: &SearchParams) -> (r: Vec<SearchResult>)
        ensures
            result_views(r@) == first_n(
                sort_spec(
                    search_hits(
                        self.graph@,
                        self.graph.nodes@,
                        match params.label {
                            Some(l) => Some(l@),
                            None => None,
                        },
                        match params.query {
                            Some(q) => Some(q@),
                            None => None,
                        },
                    ),
                    search_order(),
                ),
                effective_limit(params.limit),
            ),
    {
        let graph = self.graph;
        let Ghost(label_v) = option_view(&params.label);
        let Ghost(query_v) = option_view(&params.query);
        let query = lowered(&params.query);
        let label = lowered(&params.label);
        let limit = default_limit(params.limit);
        let mut results: Vec<SearchResult> = Vec::new();
        let mut i: usize = 0;
        while i < graph.nodes.len()
            invariant
                i <= graph.nodes@.len(),
                match query {
                    Some(x) => query_v is Some && x@ == unicode_lower(query_v->0),
                    None => query_v is None,
                },
                match label {
                    Some(x) => label_v is Some && x@ == unicode_lower(label_v->0),
                    None => label_v is None,
                },
                result_views(results@) == search_hits(graph@, graph.nodes@.subrange(0, i as int), label_v, query_v),
            decreases graph.nodes@.len() - i,
        {
            let node = &graph.nodes[i];
            let ghost sub = graph.nodes@.subrange(0, i + 1);
            assert(sub.drop_last() =~= graph.nodes@.subrange(0, i as int));
            assert(sub.last() == *node);
            let label_ok = match &label {
                Some(wanted) => {
                    let l = to_lower(node_label(node).as_str());
                    str_eq(l.as_str(), wanted.as_str())
                },
                None => true,
            };
            let query_ok = match &query {
                Some(wanted) => node_query_hit(node, wanted.as_str()),
                None => true,
            };
            if label_ok && query_ok {
                let ghost before = result_views(results@);
                results.push(search_result(graph, node));
                assert(result_views(results@) =~= before.push(result_of(graph@, *node)));
            }
            i = i + 1;
        }
        assert(graph.nodes@.subrange(0, i as int) =~= graph.nodes@);
        let mut sorted = sort_results(results);
        truncate_results(&mut sorted, limit);
        sorted
    }


    /// Traces the graph around the node `params.query` selects: every node
    /// within the effective depth in the chosen direction, by distance then
    /// id, and the relations among them. `None` when no node matches.
    pub fn trace(&self, params: &TraceParams) -> (r: Option<TraceResult>)
        ensures
            match r {
                Some(t) => trace_root(self.graph.nodes@, params.query@) matches Some(root) && trace_of(
                    self.graph@,
                    root,
                    params.direction,
                    effective_depth(params.depth),
                    t,
                ),
                None => trace_root(self.graph.nodes@, params.query@) is None,
            },
    {
        let graph = self.graph;
        let root = match find_root(&graph.nodes, params.query.as_str()) {
            Some(n) => n,
            None => return None,
        };
        let depth = effective_depth_exec(params.depth);
        let seen = reach(graph, params.direction, root.id(), depth);
        let ghost sv = seen_view(seen@);
        proof {
            lemma_keys_match(seen@);
        }
        let mut visited: Vec<NodeHop> = Vec::new();
        let mut i: usize = 0;
        while i < seen.len()
            invariant
                i <= seen@.len(),
                sv == seen_view(seen@),
                visited@.map_values(|h: NodeHop| hop_view(h)) == visited_entries(graph@, sv.subrange(0, i as int)),
            decreases seen@.len() - i,
        {
            let ghost sub = sv.subrange(0, i + 1);
            assert(sub.drop_last() =~= sv.subrange(0, i as int));
            assert(sub.last() == sv[i as int]);
            let id = GraphNodeId::new(seen[i].0.as_str());
            match find_node(&graph.nodes, &id) {
                Some(n) => {
                    let ghost before = visited@.map_values(|h: NodeHop| hop_view(h));
                    visited.push(NodeHop { node: search_result(graph, n), hop: seen[i].1 });
                    assert(visited@.map_values(|h: NodeHop| hop_view(h)) =~= before.push((result_of(graph@, *n), seen@[i as int].1 as nat)));
                },
                None => {},
            }
            i = i + 1;
        }
        assert(sv.subrange(0, i as int) =~= sv);
        let ghost unsorted = visited@;
        let visited = sort_by(visited, hop_less, Ghost(hop_value_order()));
        proof {
            lemma_sort_map(unsorted, |h: NodeHop| hop_view(h), hop_value_order(), hop_order());
        }
        let ghost rv = graph@.relations;
        let mut relations: Vec<TraceRelation> = Vec::new();
        let mut j: usize = 0;
        while j < graph.relations.len()
            invariant
                j <= graph.relations@.len(),
                rv == graph@.relations,
                sv == seen_view(seen@),
                crate::strmap::strictly_sorted(crate::strmap::keys_of(seen@)),
                relations@.map_values(|x: TraceRelation| trace_relation_view(x)) == relations_within(rv.subrange(0, j as int), sv),
            decreases graph.relations@.len() - j,
        {
            let rel = &graph.relations[j];
            let ghost sub = rv.subrange(0, j + 1);
            assert(sub.drop_last() =~= rv.subrange(0, j as int));
            assert(sub.last() == rel@);
            if seen_has(&seen, &rel.source) && seen_has(&seen, &rel.target) {
                let ghost before = relations@.map_values(|x: TraceRelation| trace_relation_view(x));
                relations.push(TraceRelation { source: rel.source.clone(), target: rel.target.clone(), kind: rel.kind });
                assert(relations@.map_values(|x: TraceRelation| trace_relation_view(x)) =~= before.push((rel.source@, rel.target@, rel.kind)));
            }
            j = j + 1;
        }
        assert(rv.subrange(0, j as int) =~= rv);
        let t = TraceResult { root: search_result(graph, root), visited, relations };
        assert(reached(graph@.relations, params.direction, node_id(*root), effective_depth(params.depth), sv));
        Some(t)
    }


    /// Returns a compact architecture summary over the graph.
    pub fn architecture(&self) -> (a: ArchitectureSummary)
        requires
            self.graph.nodes@.len() < usize::MAX,
            self.graph.relations@.len() < usize::MAX,
        ensures
            architecture_of(self.graph@, a),
    {
        let graph = self.graph;
        let ghost g = graph@;
        let mut packages: Vec<PackageSummary> = Vec::new();
        let mut entry_points: Vec<SearchResult> = Vec::new();
        let mut boundaries: Vec<SearchResult> = Vec::new();
        let mut docs: Vec<SearchResult> = Vec::new();
        let mut all: Vec<SearchResult> = Vec::new();
        let mut i: usize = 0;
        while i < graph.nodes.len()
            invariant
                i <= graph.nodes@.len(),
                g == graph@,
                package_views(packages@) == packages_in(g, g.nodes.subrange(0, i as int)),
                result_views(entry_points@) == results_where(g, g.nodes.subrange(0, i as int), entry_pred()),
                result_views(boundaries@) == results_where(g, g.nodes.subrange(0, i as int), boundary_pred()),
                result_views(docs@) == results_where(g, g.nodes.subrange(0, i as int), doc_pred()),
                result_views(all@) == results_where(g, g.nodes.subrange(0, i as int), any_pred()),
            decreases graph.nodes@.len() - i,
        {
            let node = &graph.nodes[i];
            let ghost sub = g.nodes.subrange(0, i + 1);
            assert(sub.drop_last() =~= g.nodes.subrange(0, i as int));
            assert(sub.last() == *node);
            let result = search_result(graph, node);
            let ghost rview = result@;
            match node {
                GraphNode::Package(p) => {
                    let ghost before = package_views(packages@);
                    packages.push(PackageSummary {
                        name: p.name.clone(),
                        is_external: p.is_external,
                        in_degree: result.in_degree,
                        out_degree: result.out_degree,
                    });
                    assert(package_views(packages@) =~= before.push(package_of(g, *node)));
                },
                _ => {},
            }
            let entry = match node {
                GraphNode::Command(_) => true,
                GraphNode::Container(_) => true,
                _ => false,
            };
            let boundary = match node {
                GraphNode::EnvVar(_) => true,
                GraphNode::Unresolved(_) => true,
                GraphNode::Package(p) => p.is_external,
                _ => false,
            };
            if entry {
                let ghost before = result_views(entry_points@);
                entry_points.push(result.clone());
                assert(result_views(entry_points@) =~= before.push(rview));
            }
            if boundary {
                let ghost before = result_views(boundaries@);
                boundaries.push(result.clone());
                assert(result_views(boundaries@) =~= before.push(rview));
            }
            if architecture_doc(node) {
                let ghost before = result_views(docs@);
                docs.push(result.clone());
                assert(result_views(docs@) =~= before.push(rview));
            }
            let ghost before_all = result_views(all@);
            all.push(result);
            assert(result_views(all@) =~= before_all.push(rview));
            i = i + 1;
        }
        assert(g.nodes.subrange(0, i as int) =~= g.nodes);
        let hotspots = truncated(sort_results_by(all, result_hotspot_less, Ghost(hotspot_order())), 10);
        let ghost plain = result_views(entry_points@);
        let mut h: usize = 0;
        while h < hotspots.len()
            invariant
                h <= hotspots@.len(),
                result_views(entry_points@) == plain + hot_symbols(result_views(hotspots@).take(h as int)),
            decreases hotspots@.len() - h,
        {
            let r = &hotspots[h];
            let ghost hv = result_views(hotspots@);
            assert(hv.take(h + 1).drop_last() =~= hv.take(h as int));
            assert(hv.take(h + 1).last() == r@);
            if str_eq(r.label.as_str(), "Symbol") && (r.in_degree > 0 || r.out_degree > 0) {
                let ghost before = result_views(entry_points@);
                let c = r.clone();
                entry_points.push(c);
                assert(result_views(entry_points@) =~= before.push(r@));
            }
            h = h + 1;
        }
        assert(result_views(hotspots@).take(h as int) =~= result_views(hotspots@));
        let entry_points = truncated(sort_results_by(entry_points, result_name_less, Ghost(name_order())), 20);
        let boundaries = truncated(sort_results_by(boundaries, result_label_name_less, Ghost(label_name_order())), 30);
        let packages = sort_packages(packages);
        let architecture_docs = sort_results_by(docs, result_name_less, Ghost(name_order()));
        ArchitectureSummary { schema: self.schema(), packages, entry_points, hotspots, boundaries, architecture_docs }
    }

    /// The packages that the package named exactly `package_name` declares a
    /// `DependsOnPackage` edge to, by name, each name once. Empty when no
    /// package has that name.
    pub fn package_dependencies(&self, package_name: &str) -> (r: Vec<PackageSummary>)
        ensures
            match first_where(self.graph.nodes@, package_named(package_name@)) {
                Some(source) => package_views(r@) == dedup_spec(
                    sort_spec(dependencies_in(self.graph@, self.graph@.relations, node_id(source)), package_order()),
                    same_package(),
                ),
                None => r@.len() == 0,
            },
    {
        let graph = self.graph;
        let ghost g = graph@;
        let mut k: usize = 0;
        let mut source: Option<&GraphNode> = None;
        while k < graph.nodes.len()
            invariant_except_break
                source.is_none(),
            invariant
                k <= graph.nodes@.len(),
                first_where(graph.nodes@, package_named(package_name@)) == first_where(graph.nodes@.skip(k as int), package_named(package_name@)),
            ensures
                match source {
                    Some(n) => first_where(graph.nodes@, package_named(package_name@)) == Some(*n),
                    None => first_where(graph.nodes@, package_named(package_name@)).is_none(),
                },
            decreases graph.nodes@.len() - k,
        {
            assert(graph.nodes@.skip(k as int)[0] == graph.nodes@[k as int]);
            let hit = match &graph.nodes[k] {
                GraphNode::Package(p) => str_eq(p.name.as_str(), package_name),
                _ => false,
            };
            if hit {
                source = Some(&graph.nodes[k]);
                break;
            }
            assert(graph.nodes@.skip(k as int).drop_first() =~= graph.nodes@.skip(k + 1));
            k = k + 1;
        }
        let source = match source {
            Some(n) => n,
            None => {
                return Vec::new();
            },
        };
        let source_id = source.id();
        let ghost rv = g.relations;
        let mut deps: Vec<PackageSummary> = Vec::new();
        let mut j: usize = 0;
        while j < graph.relations.len()
            invariant
                j <= graph.relations@.len(),
                g == graph@,
                rv == g.relations,
                package_views(deps@) == dependencies_in(g, rv.subrange(0, j as int), source_id@),
            decreases graph.relations@.len() - j,
        {
            let rel = &graph.relations[j];
            let ghost sub = rv.subrange(0, j + 1);
            assert(sub.drop_last() =~= rv.subrange(0, j as int));
            assert(sub.last() == rel@);
            if rel.kind == RelationKind::DependsOnPackage && rel.source.same(source_id) {
                match find_node(&graph.nodes, &rel.target) {
                    Some(n) => match n {
                        GraphNode::Package(p) => {
                            let (in_degree, out_degree) = degrees(graph, &p.id);
                            let ghost before = package_views(deps@);
                            deps.push(PackageSummary { name: p.name.clone(), is_external: p.is_external, in_degree, out_degree });
                            assert(package_views(deps@) =~= before.push(package_of(g, *n)));
                        },
                        _ => {},
                    },
                    None => {},
                }
            }
            j = j + 1;
        }
        assert(rv.subrange(0, j as int) =~= rv);
        dedup_packages(sort_packages(deps))
    }

    /// Returns deterministic graph schema counts.
    pub fn schema(&self) -> (s: GraphSchema)
        requires
            self.graph.nodes@.len() < usize::MAX,
            self.graph.relations@.len() < usize::MAX,
        ensures
            schema_of(self.graph@, s),
    {
        let graph = self.graph;
        let ghost g = graph@;
        let mut labels: Vec<(String, usize)> = Vec::new();
        let mut i: usize = 0;
        let ghost lmap = label_seq(graph.nodes@);
        assert(lmap.subrange(0, 0).to_multiset() =~= Multiset::<Seq<char>>::empty());
        proof {
            crate::strmap::lemma_tallies_empty();
        }
        while i < graph.nodes.len()
            invariant
                i <= graph.nodes@.len(),
                graph.nodes@.len() < usize::MAX,
                lmap == label_seq(graph.nodes@),
                tallies(labels@, lmap.subrange(0, i as int).to_multiset()),
            decreases graph.nodes@.len() - i,
        {
            let label = node_label(&graph.nodes[i]);
            proof {
                assert(lmap.subrange(0, i + 1) =~= lmap.subrange(0, i as int).push(lmap[i as int]));
                vstd::seq_lib::to_multiset_build(lmap.subrange(0, i as int), lmap[i as int]);
                vstd::seq_lib::to_multiset_len(lmap.subrange(0, i as int));
            }
            tally_add(&mut labels, label.as_str(), Ghost(lmap.subrange(0, i as int).to_multiset()));
            i = i + 1;
        }
        assert(lmap.subrange(0, i as int) =~= lmap);
        let ghost kmap = kind_seq(g.relations);
        let ghost pmap = pattern_seq(g);
        let mut edges: Vec<(String, usize)> = Vec::new();
        let mut patterns: Vec<(String, usize)> = Vec::new();
        let mut j: usize = 0;
        assert(kmap.subrange(0, 0).to_multiset() =~= Multiset::<Seq<char>>::empty());
        assert(pmap.subrange(0, 0).to_multiset() =~= Multiset::<Seq<char>>::empty());
        proof {
            crate::strmap::lemma_tallies_empty();
        }
        while j < graph.relations.len()
            invariant
                j <= graph.relations@.len(),
                graph.relations@.len() < usize::MAX,
                g == graph@,
                kmap == kind_seq(g.relations),
                pmap == pattern_seq(g),
                tallies(edges@, kmap.subrange(0, j as int).to_multiset()),
                tallies(patterns@, pmap.subrange(0, j as int).to_multiset()),
            decreases graph.relations@.len() - j,
        {
            let r = &graph.relations[j];
            assert(g.relations[j as int] == r@);
            let edge = kind_label(r.kind);
            let source = endpoint_label_of(&graph.nodes, &r.source);
            let target = endpoint_label_of(&graph.nodes, &r.target);
            let p1 = cat3("(", source.as_str(), ")-[");
            let p2 = cat3(p1.as_str(), edge.as_str(), "]->(");
            let pattern = cat3(p2.as_str(), target.as_str(), ")");
            proof {
                assert(pattern@ =~= pattern_text(g.nodes, r@));
                assert(kmap.subrange(0, j + 1) =~= kmap.subrange(0, j as int).push(kmap[j as int]));
                assert(pmap.subrange(0, j + 1) =~= pmap.subrange(0, j as int).push(pmap[j as int]));
                vstd::seq_lib::to_multiset_build(kmap.subrange(0, j as int), kmap[j as int]);
                vstd::seq_lib::to_multiset_build(pmap.subrange(0, j as int), pmap[j as int]);
                vstd::seq_lib::to_multiset_len(kmap.subrange(0, j as int));
                vstd::seq_lib::to_multiset_len(pmap.subrange(0, j as int));
            }
            tally_add(&mut edges, edge.as_str(), Ghost(kmap.subrange(0, j as int).to_multiset()));
            tally_add(&mut patterns, pattern.as_str(), Ghost(pmap.subrange(0, j as int).to_multiset()));
            j = j + 1;
        }
        assert(kmap.subrange(0, j as int) =~= kmap);
        assert(pmap.subrange(0, j as int) =~= pmap);
        let node_labels = label_counts(labels);
        let edge_types = type_counts(edges);
        let relationship_patterns = pattern_lines(&patterns);
        assert(tallies(patterns@, pattern_items(g)));
        GraphSchema { node_labels, edge_types, relationship_patterns }
    }
}

fn label_counts(t: Vec<(String, usize)>) -> (r: Vec<LabelCount>)
    ensures
        r@.map_values(|c: LabelCount| (c.label, c.count)) == t@,
{
    let mut out: Vec<LabelCount> = Vec::new();
    let mut i: usize = 0;
    while i < t.len()
        invariant
            i <= t@.len(),
            out@.len() == i,
            out@.map_values(|c: LabelCount| (c.label, c.count)) == t@.subrange(0, i as int),
        decreases t@.len() - i,
    {
        out.push(LabelCount { label: t[i].0.clone(), count: t[i].1 });
        assert(out@[i as int].label == t@[i as int].0);
        assert(out@.map_values(|c: LabelCount| (c.label, c.count)) =~= t@.subrange(0, i + 1));
        i = i + 1;
    }
    assert(t@.subrange(0, i as int) =~= t@);
    out
}

fn type_counts(t: Vec<(String, usize)>) -> (r: Vec<TypeCount>)
    ensures
        r@.map_values(|c: TypeCount| (c.edge_type, c.count)) == t@,
{
    let mut out: Vec<TypeCount> = Vec::new();
    let mut i: usize = 0;
    while i < t.len()
        invariant
            i <= t@.len(),
            out@.len() == i,
            out@.map_values(|c: TypeCount| (c.edge_type, c.count)) == t@.subrange(0, i as int),
        decreases t@.len() - i,
    {
        out.push(TypeCount { edge_type: t[i].0.clone(), count: t[i].1 });
        assert(out@[i as int].edge_type == t@[i as int].0);
        assert(out@.map_values(|c: TypeCount| (c.edge_type, c.count)) =~= t@.subrange(0, i + 1));
        i = i + 1;
    }
    assert(t@.subrange(0, i as int) =~= t@);
    out
}

fn pattern_lines(t: &Vec<(String, usize)>) -> (r: Vec<String>)
    ensures
        r@.len() == t@.len(),
        forall|k: int| 0 <= k < t@.len() ==> (#[trigger] r@[k])@ == pattern_line(t@[k].0@, t@[k].1 as nat),
{
    let mut out: Vec<String> = Vec::new();
    let mut i: usize = 0;
    while i < t.len()
        invariant
            i <= t@.len(),
            out@.len() == i,
            forall|k: int| 0 <= k < i ==> (#[trigger] out@[k])@ == pattern_line(t@[k].0@, t@[k].1 as nat),
        decreases t@.len() - i,
    {
        let n = decimal_string(t[i].1);
        let line = cat3(t[i].0.as_str(), " [", n.as_str());
        let line = cat(line.as_str(), "x]");
        out.push(line);
        i = i + 1;
    }
    out
}


/// No two nodes share an id.
pub open spec fn ids_unique(nodes: Seq<GraphNode>) -> bool {
    forall|i: int, j: int| 0 <= i < j < nodes.len() ==> node_id(#[trigger] nodes[i]) != node_id(#[trigger] nodes[j])
}

/// Mapping two sequences with the same elements, as often, gives sequences
/// with the same elements, as often.
proof fn lemma_map_multiset<A, B>(s1: Seq<A>, s2: Seq<A>, f: spec_fn(A) -> B)
    requires
        s1.to_multiset() == s2.to_multiset(),
    ensures
        s1.map_values(f).to_multiset() == s2.map_values(f).to_multiset(),
    decreases s1.len(),
{
    broadcast use {vstd::seq_lib::to_multiset_build, vstd::seq_lib::to_multiset_remove, vstd::seq_lib::to_multiset_len};
    if s1.len() == 0 {
        assert(s2.to_multiset().len() == 0);
        assert(s2.len() == 0);
        assert(s1.map_values(f) =~= Seq::<B>::empty());
        assert(s2.map_values(f) =~= Seq::<B>::empty());
    } else {
        let t = s1.drop_last();
        let a = s1.last();
        assert(s1 =~= t.push(a));
        assert(s1.to_multiset().count(a) > 0);
        assert(s2.to_multiset().count(a) > 0);
        assert(s2.contains(a));
        let i = choose|i: int| 0 <= i < s2.len() && s2[i] == a;
        let r = s2.remove(i);
        assert(r.to_multiset() == s2.to_multiset().remove(a));
        assert(t.to_multiset() =~= s1.to_multiset().remove(a));
        lemma_map_multiset(t, r, f);
        assert(s1.map_values(f) =~= t.map_values(f).push(f(a)));
        assert(r.map_values(f) =~= s2.map_values(f).remove(i));
        assert(s2.map_values(f)[i] == f(a));
        assert(r.map_values(f).to_multiset() == s2.map_values(f).to_multiset().remove(f(a)));
        assert(s2.map_values(f).to_multiset().count(f(a)) > 0) by {
            assert(s2.map_values(f).contains(f(a)));
        }
        assert(s1.map_values(f).to_multiset() =~= s2.map_values(f).to_multiset());
    }
}

/// The node `node_with_id` finds is a node of the list with that id, and
/// it finds one whenever the list has one.
proof fn lemma_node_with_id(nodes: Seq<GraphNode>, id: Seq<char>)
    ensures
        match node_with_id(nodes, id) {
            Some(n) => nodes.contains(n) && node_id(n) == id,
            None => forall|k: int| 0 <= k < nodes.len() ==> node_id(#[trigger] nodes[k]) != id,
        },
    decreases nodes.len(),
{
    if nodes.len() > 0 {
        lemma_node_with_id(nodes.drop_last(), id);
        match node_with_id(nodes.drop_last(), id) {
            Some(n) => {
                let k = choose|k: int| 0 <= k < nodes.drop_last().len() && nodes.drop_last()[k] == n;
                assert(nodes[k] == n);
            },
            None => {
                if node_id(nodes.last()) != id {
                    assert forall|k: int| 0 <= k < nodes.len() implies node_id(#[trigger] nodes[k]) != id by {
                        if k < nodes.len() - 1 {
                            assert(nodes[k] == nodes.drop_last()[k]);
                        }
                    }
                }
            },
        }
        if node_id(nodes.last()) == id {
            assert(nodes[nodes.len() - 1] == nodes.last());
        }
    }
}

/// Lists with the same nodes, as often, each id once, find the same node for every id.
proof fn lemma_node_with_id_order_free(n1: Seq<GraphNode>, n2: Seq<GraphNode>, id: Seq<char>)
    requires
        n1.to_multiset() == n2.to_multiset(),
        ids_unique(n1),
        ids_unique(n2),
    ensures
        node_with_id(n1, id) == node_with_id(n2, id),
{
    lemma_node_with_id(n1, id);
    lemma_node_with_id(n2, id);
    match node_with_id(n1, id) {
        Some(a) => {
            assert(n1.to_multiset().count(a) > 0);
            assert(n2.contains(a));
            let k = choose|k: int| 0 <= k < n2.len() && n2[k] == a;
            match node_with_id(n2, id) {
                Some(b) => {
                    let m = choose|m: int| 0 <= m < n2.len() && n2[m] == b;
                    if k != m {
                        if k < m {
                            assert(node_id(n2[k]) != node_id(n2[m]));
                        } else {
                            assert(node_id(n2[m]) != node_id(n2[k]));
                        }
                    }
                },
                None => {
                    assert(node_id(n2[k]) == id);
                },
            }
        },
        None => {
            match node_with_id(n2, id) {
                Some(b) => {
                    assert(n2.to_multiset().count(b) > 0);
                    assert(n1.contains(b));
                    let k = choose|k: int| 0 <= k < n1.len() && n1[k] == b;
                    assert(node_id(n1[k]) == id);
                },
                None => {},
            }
        },
    }
}

/// A graph's schema does not depend on the order of its nodes and
/// relations: two graphs with the same nodes and the same relations, as
/// often, each node id once, have the same schemas.
pub proof fn lemma_schema_order_free(g: GraphView, g2: GraphView, s: GraphSchema)
    requires
        g.nodes.to_multiset() == g2.nodes.to_multiset(),
        g.relations.to_multiset() == g2.relations.to_multiset(),
        ids_unique(g.nodes),
        ids_unique(g2.nodes),
    ensures
        schema_of(g, s) == schema_of(g2, s),
{
    lemma_map_multiset(g.nodes, g2.nodes, |n: GraphNode| label_text(n));
    lemma_map_multiset(g.relations, g2.relations, |r: RelationView| kind_name(r.kind));
    let f1 = |r: RelationView| pattern_text(g.nodes, r);
    let f2 = |r: RelationView| pattern_text(g2.nodes, r);
    lemma_map_multiset(g.relations, g2.relations, f1);
    assert forall|r: RelationView| #[trigger] f1(r) == f2(r) by {
        lemma_node_with_id_order_free(g.nodes, g2.nodes, r.source);
        lemma_node_with_id_order_free(g.nodes, g2.nodes, r.target);
    }
    assert(g2.relations.map_values(f2) =~= g2.relations.map_values(f1));
    assert(label_items(g.nodes) == label_items(g2.nodes));
    assert(kind_items(g.relations) == kind_items(g2.relations));
    assert(pattern_items(g) == pattern_items(g2));
}


/// What a schema says: its label counts, its type counts, and its pattern lines.
pub open spec fn schema_view(s: GraphSchema) -> (Seq<(Seq<char>, usize)>, Seq<(Seq<char>, usize)>, Seq<Seq<char>>) {
    (
        s.node_labels@.map_values(|c: LabelCount| (c.label@, c.count)),
        s.edge_types@.map_values(|c: TypeCount| (c.edge_type@, c.count)),
        s.relationship_patterns@.map_values(|p: String| p@),
    )
}

/// A graph has one schema: two schemas that both describe it say the same.
pub proof fn lemma_schema_unique(g: GraphView, s1: GraphSchema, s2: GraphSchema)
    requires
        schema_of(g, s1),
        schema_of(g, s2),
    ensures
        schema_view(s1) == schema_view(s2),
{
    let l1 = s1.node_labels@.map_values(|c: LabelCount| (c.label, c.count));
    let l2 = s2.node_labels@.map_values(|c: LabelCount| (c.label, c.count));
    crate::strmap::lemma_tallies_unique(l1, l2, label_items(g.nodes));
    assert(schema_view(s1).0 =~= schema_view(s2).0) by {
        assert(crate::strmap::tally_view(l1).len() == crate::strmap::tally_view(l2).len());
        assert forall|k: int| 0 <= k < l1.len() implies schema_view(s1).0[k] == schema_view(s2).0[k] by {
            assert(crate::strmap::tally_view(l1)[k] == crate::strmap::tally_view(l2)[k]);
            assert(crate::strmap::tally_view(l1)[k] == (s1.node_labels@[k].label@, s1.node_labels@[k].count));
            assert(crate::strmap::tally_view(l2)[k] == (s2.node_labels@[k].label@, s2.node_labels@[k].count));
        }
    }
    let e1 = s1.edge_types@.map_values(|c: TypeCount| (c.edge_type, c.count));
    let e2 = s2.edge_types@.map_values(|c: TypeCount| (c.edge_type, c.count));
    crate::strmap::lemma_tallies_unique(e1, e2, kind_items(g.relations));
    assert(schema_view(s1).1 =~= schema_view(s2).1) by {
        assert(crate::strmap::tally_view(e1).len() == crate::strmap::tally_view(e2).len());
        assert forall|k: int| 0 <= k < e1.len() implies schema_view(s1).1[k] == schema_view(s2).1[k] by {
            assert(crate::strmap::tally_view(e1)[k] == crate::strmap::tally_view(e2)[k]);
            assert(crate::strmap::tally_view(e1)[k] == (s1.edge_types@[k].edge_type@, s1.edge_types@[k].count));
            assert(crate::strmap::tally_view(e2)[k] == (s2.edge_types@[k].edge_type@, s2.edge_types@[k].count));
        }
    }
    let t1 = choose|t: Seq<(String, usize)>| #[trigger] tallies(t, pattern_items(g)) && t.len() == s1.relationship_patterns@.len()
        && forall|k: int| 0 <= k < t.len() ==> (#[trigger] s1.relationship_patterns@[k])@ == pattern_line(t[k].0@, t[k].1 as nat);
    let t2 = choose|t: Seq<(String, usize)>| #[trigger] tallies(t, pattern_items(g)) && t.len() == s2.relationship_patterns@.len()
        && forall|k: int| 0 <= k < t.len() ==> (#[trigger] s2.relationship_patterns@[k])@ == pattern_line(t[k].0@, t[k].1 as nat);
    crate::strmap::lemma_tallies_unique(t1, t2, pattern_items(g));
    assert(schema_view(s1).2 =~= schema_view(s2).2) by {
        assert(crate::strmap::tally_view(t1).len() == crate::strmap::tally_view(t2).len());
        assert forall|k: int| 0 <= k < t1.len() implies schema_view(s1).2[k] == schema_view(s2).2[k] by {
            assert(crate::strmap::tally_view(t1)[k] == crate::strmap::tally_view(t2)[k]);
            assert(crate::strmap::tally_view(t1)[k] == (t1[k].0@, t1[k].1));
            assert(crate::strmap::tally_view(t2)[k] == (t2[k].0@, t2[k].1));
            assert(s1.relationship_patterns@[k]@ == pattern_line(t1[k].0@, t1[k].1 as nat));
            assert(s2.relationship_patterns@[k]@ == pattern_line(t2[k].0@, t2[k].1 as nat));
        }
    }
}

/// The schemas of two graphs that hold the same nodes and relations, in any
/// order and with unique node ids, say the same.
pub proof fn lemma_schemas_agree(g: GraphView, g2: GraphView, s1: GraphSchema, s2: GraphSchema)
    requires
        g.nodes.to_multiset() == g2.nodes.to_multiset(),
        g.relations.to_multiset() == g2.relations.to_multiset(),
        ids_unique(g.nodes),
        ids_unique(g2.nodes),
        schema_of(g, s1),
        schema_of(g2, s2),
    ensures
        schema_view(s1) == schema_view(s2),
{
    lemma_schema_order_free(g, g2, s2);
    lemma_schema_unique(g, s1, s2);
}


// ---- Laws of ranking

/// The number of relations a result takes part in.
pub open spec fn total_degree(r: SearchResultView) -> nat {
    r.in_degree + r.out_degree
}

proof fn lemma_strings_strict(x: Seq<char>, y: Seq<char>, z: Seq<char>)
    ensures
        !seq_less(x, x),
        seq_less(x, y) && seq_less(y, z) ==> seq_less(x, z),
        seq_less(x, y) ==> x != y,
{
    crate::text::lemma_less_irreflexive(x);
    if seq_less(x, y) && seq_less(y, z) {
        crate::text::lemma_less_transitive(x, y, z);
    }
}

proof fn lemma_search_order_strict()
    ensures
        crate::sorting::transitive(search_order()),
        crate::sorting::irreflexive(search_order()),
{
    assert forall|a: SearchResultView| !#[trigger] (search_order())(a, a) by {
        lemma_strings_strict(a.id, a.id, a.id);
    }
    assert forall|a: SearchResultView, b: SearchResultView, c: SearchResultView|
        #[trigger] (search_order())(a, b) && #[trigger] (search_order())(b, c) implies (search_order())(a, c) by {
        lemma_strings_strict(a.label, b.label, c.label);
        lemma_strings_strict(a.name, b.name, c.name);
        lemma_strings_strict(a.id, b.id, c.id);
        lemma_strings_strict(b.label, c.label, a.label);
        lemma_strings_strict(b.name, c.name, a.name);
        lemma_strings_strict(c.label, a.label, b.label);
        lemma_strings_strict(c.name, a.name, b.name);
    }
}

proof fn lemma_hotspot_order_strict()
    ensures
        crate::sorting::transitive(hotspot_order()),
        crate::sorting::irreflexive(hotspot_order()),
{
    assert forall|a: SearchResultView| !#[trigger] (hotspot_order())(a, a) by {
        lemma_strings_strict(a.name, a.name, a.name);
    }
    assert forall|a: SearchResultView, b: SearchResultView, c: SearchResultView|
        #[trigger] (hotspot_order())(a, b) && #[trigger] (hotspot_order())(b, c) implies (hotspot_order())(a, c) by {
        lemma_strings_strict(a.name, b.name, c.name);
    }
}

/// The first `n` of a sequence sorted by an order that puts more relations
/// first are ranked by relations, and leave out none with more.
proof fn lemma_ranked_prefix(s: Seq<SearchResultView>, lt: spec_fn(SearchResultView, SearchResultView) -> bool, n: nat)
    requires
        crate::sorting::sorted_by(s, lt),
        forall|a: SearchResultView, b: SearchResultView| total_degree(a) > total_degree(b) ==> #[trigger] lt(a, b),
    ensures
        forall|i: int, j: int| 0 <= i < j < first_n(s, n).len() ==> total_degree(#[trigger] first_n(s, n)[i]) >= total_degree(
            #[trigger] first_n(s, n)[j],
        ),
        forall|x: SearchResultView, i: int|
            #[trigger] s.contains(x) && !first_n(s, n).contains(x) && 0 <= i < first_n(s, n).len() ==> total_degree(x) <= total_degree(
                #[trigger] first_n(s, n)[i],
            ),
{
    let r = first_n(s, n);
    assert forall|i: int, j: int| 0 <= i < j < r.len() implies total_degree(#[trigger] r[i]) >= total_degree(#[trigger] r[j]) by {
        assert(r[i] == s[i] && r[j] == s[j]);
        assert(!lt(s[j], s[i]));
    }
    assert forall|x: SearchResultView, i: int| #[trigger] s.contains(x) && !r.contains(x) && 0 <= i < r.len() implies total_degree(x)
        <= total_degree(#[trigger] r[i]) by {
        let p = choose|p: int| 0 <= p < s.len() && s[p] == x;
        if p < r.len() {
            assert(r[p] == x);
        }
        assert(r[i] == s[i]);
        assert(!lt(s[p], s[i]));
    }
}

proof fn lemma_hits_cover(g: GraphView, nodes: Seq<GraphNode>, label: Option<Seq<char>>, query: Option<Seq<char>>, k: int)
    requires
        0 <= k < nodes.len(),
        label_wanted(nodes[k], label),
        query_wanted(nodes[k], query),
    ensures
        search_hits(g, nodes, label, query).contains(result_of(g, nodes[k])),
    decreases nodes.len(),
{
    let rest = search_hits(g, nodes.drop_last(), label, query);
    if k < nodes.len() - 1 {
        lemma_hits_cover(g, nodes.drop_last(), label, query, k);
        assert(nodes.drop_last()[k] == nodes[k]);
        let p = choose|p: int| 0 <= p < rest.len() && rest[p] == result_of(g, nodes[k]);
        assert(search_hits(g, nodes, label, query)[p] == rest[p]);
    } else {
        let h = search_hits(g, nodes, label, query);
        assert(h[h.len() - 1] == result_of(g, nodes[k]));
    }
}

proof fn lemma_results_cover(g: GraphView, nodes: Seq<GraphNode>, p: spec_fn(GraphNode) -> bool, k: int)
    requires
        0 <= k < nodes.len(),
        p(nodes[k]),
    ensures
        results_where(g, nodes, p).contains(result_of(g, nodes[k])),
    decreases nodes.len(),
{
    let rest = results_where(g, nodes.drop_last(), p);
    if k < nodes.len() - 1 {
        lemma_results_cover(g, nodes.drop_last(), p, k);
        assert(nodes.drop_last()[k] == nodes[k]);
        let q = choose|q: int| 0 <= q < rest.len() && rest[q] == result_of(g, nodes[k]);
        assert(results_where(g, nodes, p)[q] == rest[q]);
    } else {
        let h = results_where(g, nodes, p);
        assert(h[h.len() - 1] == result_of(g, nodes[k]));
    }
}

/// Search ranks its results by how many relations each node takes part in,
/// most first, and the limit leaves out no matching node with more
/// relations than a returned one: for `r` the results of a search of `g`
/// with the filters `label` and `query` and any limit, each result has at
/// least as many relations as the next, and every node that passes both
/// filters but is not returned has at most as many as every returned one.
pub proof fn lemma_search_most_connected_first(
    g: GraphView,
    label: Option<Seq<char>>,
    query: Option<Seq<char>>,
    limit: usize,
    r: Seq<SearchResultView>,
)
    requires
        r == first_n(sort_spec(search_hits(g, g.nodes, label, query), search_order()), effective_limit(limit)),
    ensures
        forall|i: int, j: int|
            0 <= i < j < r.len() ==> (#[trigger] r[i]).in_degree + r[i].out_degree >= (#[trigger] r[j]).in_degree + r[j].out_degree,
        forall|k: int, i: int|
            0 <= k < g.nodes.len() && label_wanted(g.nodes[k], label) && query_wanted(g.nodes[k], query) && !r.contains(
                result_of(g, g.nodes[k]),
            ) && 0 <= i < r.len() ==> in_count(g.relations, node_id(g.nodes[k])) + out_count(g.relations, node_id(g.nodes[k]))
                <= r[i].in_degree + r[i].out_degree,
{
    let hits = search_hits(g, g.nodes, label, query);
    let sorted = sort_spec(hits, search_order());
    lemma_search_order_strict();
    crate::sorting::lemma_sort_spec(hits, search_order());
    lemma_ranked_prefix(sorted, search_order(), effective_limit(limit));
    assert forall|i: int, j: int|
        0 <= i < j < r.len() implies (#[trigger] r[i]).in_degree + r[i].out_degree >= (#[trigger] r[j]).in_degree + r[j].out_degree by {
        assert(total_degree(r[i]) >= total_degree(r[j]));
    }
    assert forall|k: int, i: int|
        0 <= k < g.nodes.len() && label_wanted(g.nodes[k], label) && query_wanted(g.nodes[k], query) && !r.contains(
            result_of(g, g.nodes[k]),
        ) && 0 <= i < r.len() implies in_count(g.relations, node_id(g.nodes[k])) + out_count(g.relations, node_id(g.nodes[k]))
        <= r[i].in_degree + r[i].out_degree by {
        let x = result_of(g, g.nodes[k]);
        lemma_hits_cover(g, g.nodes, label, query, k);
        assert(hits.to_multiset().count(x) > 0);
        assert(sorted.to_multiset().count(x) > 0);
        assert(sorted.contains(x));
        assert(total_degree(x) <= total_degree(r[i]));
    }
}

/// The hotspots of an architecture summary are the most-connected nodes:
/// each hotspot takes part in at least as many relations as the next, and
/// no node of the graph left out of the hotspots takes part in more
/// relations than any hotspot.
pub proof fn lemma_hotspots_most_connected(g: GraphView, a: ArchitectureSummary)
    requires
        architecture_of(g, a),
    ensures
        forall|i: int, j: int|
            0 <= i < j < a.hotspots@.len() ==> (#[trigger] a.hotspots@[i]).in_degree + a.hotspots@[i].out_degree >= (
            #[trigger] a.hotspots@[j]).in_degree + a.hotspots@[j].out_degree,
        forall|k: int, i: int|
            0 <= k < g.nodes.len() && !result_views(a.hotspots@).contains(result_of(g, g.nodes[k])) && 0 <= i < a.hotspots@.len()
                ==> in_count(g.relations, node_id(g.nodes[k])) + out_count(g.relations, node_id(g.nodes[k])) <= a.hotspots@[i].in_degree
                + a.hotspots@[i].out_degree,
{
    let all = results_where(g, g.nodes, any_pred());
    let sorted = sort_spec(all, hotspot_order());
    let r = result_views(a.hotspots@);
    lemma_hotspot_order_strict();
    crate::sorting::lemma_sort_spec(all, hotspot_order());
    lemma_ranked_prefix(sorted, hotspot_order(), 10);
    assert forall|i: int, j: int|
        0 <= i < j < a.hotspots@.len() implies (#[trigger] a.hotspots@[i]).in_degree + a.hotspots@[i].out_degree >= (
        #[trigger] a.hotspots@[j]).in_degree + a.hotspots@[j].out_degree by {
        assert(r[i] == a.hotspots@[i]@ && r[j] == a.hotspots@[j]@);
        assert(total_degree(r[i]) >= total_degree(r[j]));
    }
    assert forall|k: int, i: int|
        0 <= k < g.nodes.len() && !r.contains(result_of(g, g.nodes[k])) && 0 <= i < a.hotspots@.len() implies in_count(
        g.relations,
        node_id(g.nodes[k]),
    ) + out_count(g.relations, node_id(g.nodes[k])) <= a.hotspots@[i].in_degree + a.hotspots@[i].out_degree by {
        let x = result_of(g, g.nodes[k]);
        lemma_results_cover(g, g.nodes, any_pred(), k);
        assert(all.to_multiset().count(x) > 0);
        assert(sorted.to_multiset().count(x) > 0);
        assert(sorted.contains(x));
        assert(r[i] == a.hotspots@[i]@);
        assert(total_degree(x) <= total_degree(r[i]));
    }
}


// ---- Laws of the schema

/// The pattern text of a relation between nodes labelled as `a` and `b`.
proof fn lemma_pattern_of(g: GraphView, i: int, a: GraphNode, b: GraphNode)
    requires
        0 <= i < g.relations.len(),
        node_with_id(g.nodes, g.relations[i].source) == Some(a),
        node_with_id(g.nodes, g.relations[i].target) == Some(b),
    ensures
        pattern_items(g).count(
            "("@ + label_text(a) + ")-["@ + kind_name(g.relations[i].kind) + "]->("@ + label_text(b) + ")"@,
        ) > 0,
{
    let p = "("@ + label_text(a) + ")-["@ + kind_name(g.relations[i].kind) + "]->("@ + label_text(b) + ")"@;
    assert(pattern_seq(g)[i] == pattern_text(g.nodes, g.relations[i]));
    assert(pattern_text(g.nodes, g.relations[i]) == p);
    assert(pattern_seq(g).contains(p));
}

/// Each relation of a graph shows in its schema as a pattern line that
/// names the label of the relation's source node first, then the relation's
/// kind, then the label of its target node, then its count: for the `i`th
/// relation, running from node `a` to node `b`, some line starts with
/// `(A)-[K]->(B) [`.
pub proof fn lemma_schema_patterns_run_source_to_target(g: GraphView, s: GraphSchema, i: int, a: GraphNode, b: GraphNode)
    requires
        schema_of(g, s),
        0 <= i < g.relations.len(),
        node_with_id(g.nodes, g.relations[i].source) == Some(a),
        node_with_id(g.nodes, g.relations[i].target) == Some(b),
    ensures
        exists|k: int|
            0 <= k < s.relationship_patterns@.len() && ("("@ + label_text(a) + ")-["@ + kind_name(g.relations[i].kind) + "]->("@
                + label_text(b) + ") ["@).is_prefix_of(#[trigger] s.relationship_patterns@[k]@),
{
    let p = "("@ + label_text(a) + ")-["@ + kind_name(g.relations[i].kind) + "]->("@ + label_text(b) + ")"@;
    lemma_pattern_of(g, i, a, b);
    let t = choose|t: Seq<(String, usize)>| #[trigger] tallies(t, pattern_items(g)) && t.len() == s.relationship_patterns@.len()
        && forall|k: int| 0 <= k < t.len() ==> (#[trigger] s.relationship_patterns@[k])@ == pattern_line(t[k].0@, t[k].1 as nat);
    assert(pattern_items(g).dom().contains(p));
    assert(keys_of(t).to_set().contains(p));
    let k = choose|k: int| 0 <= k < keys_of(t).len() && keys_of(t)[k] == p;
    assert(t[k].0@ == p);
    let line = s.relationship_patterns@[k]@;
    assert(line == pattern_line(p, t[k].1 as nat));
    let pre = "("@ + label_text(a) + ")-["@ + kind_name(g.relations[i].kind) + "]->("@ + label_text(b) + ") ["@;
    assert(pre =~= p + " ["@) by {
        reveal_strlit(")");
        reveal_strlit(" [");
        reveal_strlit(") [");
    }
    assert(pre =~= line.subrange(0, pre.len() as int));
}

/// A graph with exactly one relation, from node `a` to node `b`, has
/// exactly one pattern line: `(A)-[K]->(B) [1x]`, with `A` the label of `a`,
/// `K` the relation's kind, and `B` the label of `b`.
pub proof fn lemma_schema_single_relation(g: GraphView, s: GraphSchema, a: GraphNode, b: GraphNode)
    requires
        schema_of(g, s),
        g.relations.len() == 1,
        node_with_id(g.nodes, g.relations[0].source) == Some(a),
        node_with_id(g.nodes, g.relations[0].target) == Some(b),
    ensures
        s.relationship_patterns@.len() == 1,
        s.relationship_patterns@[0]@ == "("@ + label_text(a) + ")-["@ + kind_name(g.relations[0].kind) + "]->("@ + label_text(b)
            + ") [1x]"@,
{
    let p = "("@ + label_text(a) + ")-["@ + kind_name(g.relations[0].kind) + "]->("@ + label_text(b) + ")"@;
    lemma_pattern_of(g, 0, a, b);
    assert(pattern_seq(g) =~= seq![p]);
    assert(pattern_items(g) =~= Multiset::<Seq<char>>::empty().insert(p));
    let t = choose|t: Seq<(String, usize)>| #[trigger] tallies(t, pattern_items(g)) && t.len() == s.relationship_patterns@.len()
        && forall|k: int| 0 <= k < t.len() ==> (#[trigger] s.relationship_patterns@[k])@ == pattern_line(t[k].0@, t[k].1 as nat);
    assert(pattern_items(g).dom().contains(p));
    assert(keys_of(t).to_set().contains(p));
    let k = choose|k: int| 0 <= k < keys_of(t).len() && keys_of(t)[k] == p;
    assert(t.len() == 1) by {
        if t.len() >= 2 {
            assert(keys_of(t).to_set().contains(keys_of(t)[0]));
            assert(keys_of(t).to_set().contains(keys_of(t)[1]));
            assert(pattern_items(g).dom().contains(keys_of(t)[0]));
            assert(pattern_items(g).dom().contains(keys_of(t)[1]));
            assert(keys_of(t)[0] == p && keys_of(t)[1] == p);
            assert(seq_less(keys_of(t)[0], keys_of(t)[1]));
            crate::text::lemma_less_irreflexive(p);
        }
    }
    assert(k == 0);
    assert(t[0].1 as nat == pattern_items(g).count(p));
    assert(pattern_items(g).count(p) == 1);
    assert(decimal(1) =~= "1"@) by {
        reveal_strlit("1");
    }
    assert(s.relationship_patterns@[0]@ =~= p + " ["@ + "1"@ + "x]"@);
    assert(p + " ["@ + "1"@ + "x]"@ =~= "("@ + label_text(a) + ")-["@ + kind_name(g.relations[0].kind) + "]->("@ + label_text(b)
        + ") [1x]"@) by {
        reveal_strlit(")");
        reveal_strlit(" [");
        reveal_strlit("1");
        reveal_strlit("x]");
        reveal_strlit(") [1x]");
    }
}


// ---- Laws of package dependencies

proof fn lemma_first_where_found(nodes: Seq<GraphNode>, p: spec_fn(GraphNode) -> bool)
    requires
        first_where(nodes, p) is Some,
    ensures
        exists|j: int| 0 <= j < nodes.len() && nodes[j] == first_where(nodes, p)->0 && p(nodes[j]),
    decreases nodes.len(),
{
    if !p(nodes[0]) {
        lemma_first_where_found(nodes.drop_first(), p);
        let j = choose|j: int| 0 <= j < nodes.drop_first().len() && nodes.drop_first()[j] == first_where(nodes.drop_first(), p)->0 && p(
            nodes.drop_first()[j],
        );
        assert(nodes[j + 1] == nodes.drop_first()[j]);
    } else {
        assert(nodes[0] == first_where(nodes, p)->0);
    }
}

proof fn lemma_dedup_from<T>(s: Seq<T>, same: spec_fn(T, T) -> bool, x: T)
    requires
        dedup_spec(s, same).contains(x),
    ensures
        s.contains(x),
    decreases s.len(),
{
    let prefix = dedup_spec(s.drop_last(), same);
    if prefix.contains(x) {
        lemma_dedup_from(s.drop_last(), same, x);
        let i = choose|i: int| 0 <= i < s.drop_last().len() && s.drop_last()[i] == x;
        assert(s[i] == x);
    } else {
        assert(x == s.last());
        assert(s[s.len() - 1] == x);
    }
}

proof fn lemma_dependency_from(g: GraphView, rels: Seq<RelationView>, source: Seq<char>, x: PackageView)
    requires
        dependencies_in(g, rels, source).contains(x),
    ensures
        exists|i: int|
            0 <= i < rels.len() && (#[trigger] rels[i]).kind == RelationKind::DependsOnPackage && rels[i].source == source && (node_with_id(
                g.nodes,
                rels[i].target,
            ) matches Some(GraphNode::Package(q)) && q.name@ == x.name),
    decreases rels.len(),
{
    let rest = dependencies_in(g, rels.drop_last(), source);
    if rest.contains(x) {
        lemma_dependency_from(g, rels.drop_last(), source, x);
        let i = choose|i: int|
            0 <= i < rels.drop_last().len() && (#[trigger] rels.drop_last()[i]).kind == RelationKind::DependsOnPackage
                && rels.drop_last()[i].source == source && (node_with_id(g.nodes, rels.drop_last()[i].target) matches Some(
                GraphNode::Package(q),
            ) && q.name@ == x.name);
        assert(rels[i] == rels.drop_last()[i]);
    } else {
        let i = rels.len() - 1;
        assert(rels[i] == rels.last());
    }
}

/// Every package that [`KnowledgeIndex::package_dependencies`] returns for
/// `name` is declared by the package named `name`: for each result there
/// is a `DependsOnPackage` relation from a package node named `name` to a
/// package node with the result's name.
pub proof fn lemma_dependencies_declared_by_the_package(g: GraphView, name: Seq<char>, r: Seq<PackageView>)
    requires
        match first_where(g.nodes, package_named(name)) {
            Some(source) => r == dedup_spec(
                sort_spec(dependencies_in(g, g.relations, node_id(source)), package_order()),
                same_package(),
            ),
            None => r.len() == 0,
        },
    ensures
        forall|k: int|
            0 <= k < r.len() ==> exists|i: int, j: int|
                0 <= i < g.relations.len() && 0 <= j < g.nodes.len() && (g.nodes[j] matches GraphNode::Package(p) && p.name@ == name)
                    && (#[trigger] g.relations[i]).source == node_id(#[trigger] g.nodes[j]) && g.relations[i].kind
                    == RelationKind::DependsOnPackage && (node_with_id(g.nodes, g.relations[i].target) matches Some(
                    GraphNode::Package(q),
                ) && q.name@ == (#[trigger] r[k]).name),
{
    match first_where(g.nodes, package_named(name)) {
        Some(source) => {
            lemma_first_where_found(g.nodes, package_named(name));
            let j = choose|j: int| 0 <= j < g.nodes.len() && g.nodes[j] == source && (package_named(name))(g.nodes[j]);
            let deps = dependencies_in(g, g.relations, node_id(source));
            let sorted = sort_spec(deps, package_order());
            assert forall|k: int| 0 <= k < r.len() implies exists|i: int, j: int|
                0 <= i < g.relations.len() && 0 <= j < g.nodes.len() && (g.nodes[j] matches GraphNode::Package(p) && p.name@ == name)
                    && (#[trigger] g.relations[i]).source == node_id(#[trigger] g.nodes[j]) && g.relations[i].kind
                    == RelationKind::DependsOnPackage && (node_with_id(g.nodes, g.relations[i].target) matches Some(
                    GraphNode::Package(q),
                ) && q.name@ == (#[trigger] r[k]).name) by {
                assert(r.contains(r[k]));
                lemma_dedup_from(sorted, same_package(), r[k]);
                crate::sorting::lemma_sort_elements(deps, package_order());
                let p = choose|p: int| 0 <= p < sorted.len() && sorted[p] == r[k];
                assert(deps.contains(sorted[p]));
                lemma_dependency_from(g, g.relations, node_id(source), r[k]);
                let i = choose|i: int|
                    0 <= i < g.relations.len() && (#[trigger] g.relations[i]).kind == RelationKind::DependsOnPackage && g.relations[i].source
                        == node_id(source) && (node_with_id(g.nodes, g.relations[i].target) matches Some(GraphNode::Package(q)) && q.name@
                        == r[k].name);
                assert(g.relations[i].source == node_id(g.nodes[j]));
            }
        },
        None => {},
    }
}

proof fn lemma_dedup_covers<T>(s: Seq<T>, same: spec_fn(T, T) -> bool, i: int)
    requires
        0 <= i < s.len(),
    ensures
        exists|k: int| 0 <= k < dedup_spec(s, same).len() && (same(#[trigger] dedup_spec(s, same)[k], s[i]) || dedup_spec(s, same)[k] == s[i]),
    decreases s.len(),
{
    let prefix = dedup_spec(s.drop_last(), same);
    let d = dedup_spec(s, same);
    if i < s.len() - 1 {
        lemma_dedup_covers(s.drop_last(), same, i);
        let k = choose|k: int| 0 <= k < prefix.len() && (same(#[trigger] prefix[k], s.drop_last()[i]) || prefix[k] == s.drop_last()[i]);
        assert(d[k] == prefix[k]);
        assert(s.drop_last()[i] == s[i]);
    } else if prefix.len() > 0 && same(prefix.last(), s.last()) {
        assert(d[prefix.len() - 1] == prefix.last());
    } else {
        assert(d[prefix.len() as int] == s.last());
    }
}

proof fn lemma_dependency_in(g: GraphView, rels: Seq<RelationView>, source: Seq<char>, i: int, n: GraphNode)
    requires
        0 <= i < rels.len(),
        rels[i].kind == RelationKind::DependsOnPackage,
        rels[i].source == source,
        node_with_id(g.nodes, rels[i].target) == Some(n),
        n is Package,
    ensures
        dependencies_in(g, rels, source).contains(package_of(g, n)),
    decreases rels.len(),
{
    let rest = dependencies_in(g, rels.drop_last(), source);
    if i < rels.len() - 1 {
        assert(rels.drop_last()[i] == rels[i]);
        lemma_dependency_in(g, rels.drop_last(), source, i, n);
        let k = choose|k: int| 0 <= k < rest.len() && rest[k] == package_of(g, n);
        assert(dependencies_in(g, rels, source)[k] == package_of(g, n));
    } else {
        assert(rels.last() == rels[i]);
        assert(dependencies_in(g, rels, source)[rest.len() as int] == package_of(g, n));
    }
}

/// [`KnowledgeIndex::package_dependencies`] leaves out none of the packages
/// that the package named `name` declares: when the first package node
/// named `name` has a `DependsOnPackage` relation to a package node `q`,
/// some result carries `q`'s name.
pub proof fn lemma_dependencies_complete(g: GraphView, name: Seq<char>, r: Seq<PackageView>, i: int)
    requires
        match first_where(g.nodes, package_named(name)) {
            Some(source) => r == dedup_spec(
                sort_spec(dependencies_in(g, g.relations, node_id(source)), package_order()),
                same_package(),
            ),
            None => r.len() == 0,
        },
        0 <= i < g.relations.len(),
        g.relations[i].kind == RelationKind::DependsOnPackage,
        first_where(g.nodes, package_named(name)) matches Some(source) && g.relations[i].source == node_id(source),
        node_with_id(g.nodes, g.relations[i].target) matches Some(GraphNode::Package(q)),
    ensures
        exists|k: int| 0 <= k < r.len() && (#[trigger] r[k]).name == node_with_id(g.nodes, g.relations[i].target)->0->Package_0.name@,
{
    let source = first_where(g.nodes, package_named(name))->0;
    let n = node_with_id(g.nodes, g.relations[i].target)->0;
    let deps = dependencies_in(g, g.relations, node_id(source));
    let sorted = sort_spec(deps, package_order());
    let x = package_of(g, n);
    lemma_dependency_in(g, g.relations, node_id(source), i, n);
    lemma_sort_permutes(deps, package_order());
    assert(deps.to_multiset().count(x) > 0);
    assert(sorted.to_multiset().count(x) > 0);
    let p = choose|p: int| 0 <= p < sorted.len() && sorted[p] == x;
    lemma_dedup_covers(sorted, same_package(), p);
    let k = choose|k: int| 0 <= k < r.len() && ((same_package())(#[trigger] r[k], sorted[p]) || r[k] == sorted[p]);
    assert(r[k].name == x.name);
}

proof fn lemma_short_prefix_is_whole<T>(s: Seq<T>, n: nat)
    ensures
        first_n(s, n).len() <= n,
        first_n(s, n).len() < n ==> first_n(s, n) == s,
{
}

/// Search leaves a matching node out only for the limit: it returns at
/// most `limit` results (10 for a limit of 0, never more than 100), and
/// when it returns fewer than that, every node that passes both filters is
/// among them.
pub proof fn lemma_search_fills_limit(
    g: GraphView,
    label: Option<Seq<char>>,
    query: Option<Seq<char>>,
    limit: usize,
    r: Seq<SearchResultView>,
)
    requires
        r == first_n(sort_spec(search_hits(g, g.nodes, label, query), search_order()), effective_limit(limit)),
    ensures
        r.len() <= (if limit == 0 { 10 } else if limit > 100 { 100 } else { limit as int }),
        r.len() < (if limit == 0 { 10 } else if limit > 100 { 100 } else { limit as int }) ==> forall|k: int|
            0 <= k < g.nodes.len() && label_wanted(#[trigger] g.nodes[k], label) && query_wanted(g.nodes[k], query) ==> r.contains(
                result_of(g, g.nodes[k]),
            ),
{
    let hits = search_hits(g, g.nodes, label, query);
    let sorted = sort_spec(hits, search_order());
    lemma_short_prefix_is_whole(sorted, effective_limit(limit));
    lemma_sort_permutes(hits, search_order());
    if r.len() < effective_limit(limit) {
        assert forall|k: int|
            0 <= k < g.nodes.len() && label_wanted(#[trigger] g.nodes[k], label) && query_wanted(g.nodes[k], query) implies r.contains(
            result_of(g, g.nodes[k]),
        ) by {
            let x = result_of(g, g.nodes[k]);
            lemma_hits_cover(g, g.nodes, label, query, k);
            assert(hits.to_multiset().count(x) > 0);
            assert(sorted.to_multiset().count(x) > 0);
        }
    }
}

/// The hotspots are at most ten, and fewer only when the graph has fewer
/// nodes: when there are fewer than ten, every node of the graph is one.
pub proof fn lemma_hotspots_fill(g: GraphView, a: ArchitectureSummary)
    requires
        architecture_of(g, a),
    ensures
        a.hotspots@.len() <= 10,
        a.hotspots@.len() < 10 ==> forall|k: int|
            0 <= k < g.nodes.len() ==> result_views(a.hotspots@).contains(result_of(g, #[trigger] g.nodes[k])),
{
    let all = results_where(g, g.nodes, any_pred());
    let sorted = sort_spec(all, hotspot_order());
    lemma_short_prefix_is_whole(sorted, 10);
    lemma_sort_permutes(all, hotspot_order());
    assert(result_views(a.hotspots@).len() == a.hotspots@.len());
    if a.hotspots@.len() < 10 {
        assert forall|k: int| 0 <= k < g.nodes.len() implies result_views(a.hotspots@).contains(result_of(g, #[trigger] g.nodes[k])) by {
            let x = result_of(g, g.nodes[k]);
            lemma_results_cover(g, g.nodes, any_pred(), k);
            assert(all.to_multiset().count(x) > 0);
            assert(sorted.to_multiset().count(x) > 0);
        }
    }
}

proof fn lemma_names_rise(d: Seq<PackageView>, i: int, j: int)
    requires
        crate::sorting::sorted_by(d, package_order()),
        forall|a: int, b: int| 0 <= a && b == a + 1 && b < d.len() ==> !(same_package())(#[trigger] d[a], #[trigger] d[b]),
        0 <= i < j < d.len(),
    ensures
        seq_less(d[i].name, d[j].name),
    decreases j - i,
{
    assert(!(package_order())(d[i + 1], d[i]));
    assert(!(same_package())(d[i], d[i + 1]));
    crate::text::lemma_less_total(d[i].name, d[i + 1].name);
    if j > i + 1 {
        lemma_names_rise(d, i + 1, j);
        crate::text::lemma_less_transitive(d[i].name, d[i + 1].name, d[j].name);
    }
}

/// [`KnowledgeIndex::package_dependencies`] names each package once, in
/// name order: the names of its results strictly increase.
pub proof fn lemma_dependencies_named_once(g: GraphView, name: Seq<char>, r: Seq<PackageView>)
    requires
        match first_where(g.nodes, package_named(name)) {
            Some(source) => r == dedup_spec(
                sort_spec(dependencies_in(g, g.relations, node_id(source)), package_order()),
                same_package(),
            ),
            None => r.len() == 0,
        },
    ensures
        forall|i: int, j: int| 0 <= i < j < r.len() ==> seq_less((#[trigger] r[i]).name, (#[trigger] r[j]).name),
        forall|i: int, j: int| 0 <= i < j < r.len() ==> (#[trigger] r[i]).name != (#[trigger] r[j]).name,
{
    if let Some(source) = first_where(g.nodes, package_named(name)) {
        let deps = dependencies_in(g, g.relations, node_id(source));
        assert forall|a: PackageView| !#[trigger] (package_order())(a, a) by {
            lemma_strings_strict(a.name, a.name, a.name);
        }
        assert forall|a: PackageView, b: PackageView, c: PackageView|
            #[trigger] (package_order())(a, b) && #[trigger] (package_order())(b, c) implies (package_order())(a, c) by {
            lemma_strings_strict(a.name, b.name, c.name);
        }
        crate::sorting::lemma_sort_spec(deps, package_order());
        let sorted = sort_spec(deps, package_order());
        crate::sorting::lemma_dedup_sorted(sorted, package_order(), same_package());
        assert forall|i: int, j: int| 0 <= i < j < r.len() implies seq_less((#[trigger] r[i]).name, (#[trigger] r[j]).name) by {
            lemma_names_rise(r, i, j);
        }
        assert forall|i: int, j: int| 0 <= i < j < r.len() implies (#[trigger] r[i]).name != (#[trigger] r[j]).name by {
            lemma_names_rise(r, i, j);
            lemma_strings_strict(r[i].name, r[j].name, r[j].name);
        }
    }
}

} // verus!

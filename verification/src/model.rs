//! The typed semantic graph: node identities, node kinds, relations with
//! evidence and provenance, and the graph snapshot that holds them.

use vstd::prelude::*;
use crate::text::{owned, str_eq};

verus! {

/// Stable identity of one graph node, such as `artifact:src/lib.rs`.
#[derive(Debug, PartialEq, Eq, PartialOrd, Ord, Hash)]
pub struct GraphNodeId {
    pub text: String,
}

impl View for GraphNodeId {
    type V = Seq<char>;

    open spec fn view(&self) -> Seq<char> {
        self.text@
    }
}

impl GraphNodeId {
    /// An id with the characters of `text`.
    pub fn new(text: &str) -> (r: GraphNodeId)
        ensures
            r@ == text@,
    {
        GraphNodeId { text: owned(text) }
    }

    /// An id that takes ownership of `text`.
    pub fn from_string(text: String) -> (r: GraphNodeId)
        ensures
            r@ == text@,
    {
        GraphNodeId { text }
    }

    /// The id's characters.
    pub fn as_str(&self) -> (r: &str)
        ensures
            r@ == self@,
    {
        self.text.as_str()
    }

    /// Whether both ids hold the same characters.
    pub fn same(&self, other: &GraphNodeId) -> (r: bool)
        ensures
            r == (self@ == other@),
    {
        str_eq(self.text.as_str(), other.text.as_str())
    }
}

impl Clone for GraphNodeId {
    fn clone(&self) -> (r: Self)
        ensures
            r == *self,
    {
        GraphNodeId { text: self.text.clone() }
    }
}

/// How strongly the graph evidence supports a fact.
#[derive(Debug, Clone, Copy, PartialEq, Eq, Structural, PartialOrd, Ord, Hash)]
pub enum Confidence {
    /// Directly observed.
    High,
    /// Inferred or heuristic.
    Low,
}

/// The kind of one directed relation.
#[derive(Debug, Clone, Copy, PartialEq, Eq, Structural, PartialOrd, Ord, Hash)]
pub enum RelationKind {
    Contains,
    Imports,
    Calls,
    References,
    ReadsEnv,
    DefinesEnv,
    RunsCommand,
    UsesImage,
    BuildsImage,
    PublishesImage,
    DependsOnPackage,
    BelongsToPackage,
    BelongsToModule,
    Implements,
    Inherits,
    UsesType,
    TypeRefs,
    Usages,
    HandlesRoute,
    DataFlows,
    ListensOn,
    Emits,
    Decorates,
    Ffi,
    SimilarTo,
    BindsConfig,
    ReferencesConfig,
    MemberOf,
    HasMethod,
    FileChangesWith,
    CrossesServiceBoundary,
    Tests,
    DocumentsSource,
    RationaleFor,
}

/// Position of a relation kind in the declaration order, which is the order
/// the derived `Ord` sorts kinds by.
pub open spec fn kind_rank(kind: RelationKind) -> int {
    match kind {
        RelationKind::Contains => 0,
        RelationKind::Imports => 1,
        RelationKind::Calls => 2,
        RelationKind::References => 3,
        RelationKind::ReadsEnv => 4,
        RelationKind::DefinesEnv => 5,
        RelationKind::RunsCommand => 6,
        RelationKind::UsesImage => 7,
        RelationKind::BuildsImage => 8,
        RelationKind::PublishesImage => 9,
        RelationKind::DependsOnPackage => 10,
        RelationKind::BelongsToPackage => 11,
        RelationKind::BelongsToModule => 12,
        RelationKind::Implements => 13,
        RelationKind::Inherits => 14,
        RelationKind::UsesType => 15,
        RelationKind::TypeRefs => 16,
        RelationKind::Usages => 17,
        RelationKind::HandlesRoute => 18,
        RelationKind::DataFlows => 19,
        RelationKind::ListensOn => 20,
        RelationKind::Emits => 21,
        RelationKind::Decorates => 22,
        RelationKind::Ffi => 23,
        RelationKind::SimilarTo => 24,
        RelationKind::BindsConfig => 25,
        RelationKind::ReferencesConfig => 26,
        RelationKind::MemberOf => 27,
        RelationKind::HasMethod => 28,
        RelationKind::FileChangesWith => 29,
        RelationKind::CrossesServiceBoundary => 30,
        RelationKind::Tests => 31,
        RelationKind::DocumentsSource => 32,
        RelationKind::RationaleFor => 33,
    }
}

/// Distinct relation kinds have distinct ranks.
pub proof fn lemma_kind_rank_distinct(a: RelationKind, b: RelationKind)
    requires
        a != b,
    ensures
        kind_rank(a) != kind_rank(b),
{
}

/// The declaration-order position of `kind`.
pub fn kind_position(kind: RelationKind) -> (r: u8)
    ensures
        r as int == kind_rank(kind),
{
    match kind {
        RelationKind::Contains => 0,
        RelationKind::Imports => 1,
        RelationKind::Calls => 2,
        RelationKind::References => 3,
        RelationKind::ReadsEnv => 4,
        RelationKind::DefinesEnv => 5,
        RelationKind::RunsCommand => 6,
        RelationKind::UsesImage => 7,
        RelationKind::BuildsImage => 8,
        RelationKind::PublishesImage => 9,
        RelationKind::DependsOnPackage => 10,
        RelationKind::BelongsToPackage => 11,
        RelationKind::BelongsToModule => 12,
        RelationKind::Implements => 13,
        RelationKind::Inherits => 14,
        RelationKind::UsesType => 15,
        RelationKind::TypeRefs => 16,
        RelationKind::Usages => 17,
        RelationKind::HandlesRoute => 18,
        RelationKind::DataFlows => 19,
        RelationKind::ListensOn => 20,
        RelationKind::Emits => 21,
        RelationKind::Decorates => 22,
        RelationKind::Ffi => 23,
        RelationKind::SimilarTo => 24,
        RelationKind::BindsConfig => 25,
        RelationKind::ReferencesConfig => 26,
        RelationKind::MemberOf => 27,
        RelationKind::HasMethod => 28,
        RelationKind::FileChangesWith => 29,
        RelationKind::CrossesServiceBoundary => 30,
        RelationKind::Tests => 31,
        RelationKind::DocumentsSource => 32,
        RelationKind::RationaleFor => 33,
    }
}

/// How a relation's target was resolved.
#[derive(Debug, Clone, Copy, PartialEq, Eq, Structural, PartialOrd, Ord, Hash)]
pub enum RelationResolution {
    /// Read straight from syntax; the target may be a raw placeholder.
    SyntaxOnly,
    /// Chosen by a typed resolver across files.
    HybridResolved,
    /// Produced by a generic text fallback.
    Fallback,
}

/// Classification of a repository artifact.
#[derive(Debug, Clone, Copy, PartialEq, Eq, Structural, PartialOrd, Ord, Hash)]
pub enum ArtifactCategory {
    SourceCode,
    GeneratedSource,
    Test,
    Documentation,
    BuildDefinition,
    ContinuousIntegration,
    Configuration,
    Data,
    Other,
}

/// Kind of a symbol node.
#[derive(Debug, Clone, Copy, PartialEq, Eq, Structural, PartialOrd, Ord, Hash)]
pub enum SymbolKind {
    Function,
    Method,
    Class,
    Struct,
    Enum,
    Trait,
    Definition,
    External,
}

/// Kind of a configuration node.
#[derive(Debug, Clone, Copy, PartialEq, Eq, Structural, PartialOrd, Ord, Hash)]
pub enum ConfigNodeKind {
    Key,
    Service,
    Port,
    Job,
    Route,
}

/// Language of a module node.
#[derive(Debug, Clone, Copy, PartialEq, Eq, Structural, PartialOrd, Ord, Hash)]
pub enum ModuleLanguage {
    Python,
    Rust,
    TypeScript,
    SyntaxIndexed,
}

/// Where a command was found.
#[derive(Debug, Clone, Copy, PartialEq, Eq, Structural, PartialOrd, Ord, Hash)]
pub enum CommandProvenance {
    Executable,
    BuildAutomation,
    DocumentationExample,
}

/// Kind of an author-recorded rationale comment.
#[derive(Debug, Clone, Copy, PartialEq, Eq, Structural, PartialOrd, Ord, Hash)]
pub enum RationaleKind {
    Note,
    Why,
    Todo,
}

/// Inclusive line span, `start_line <= end_line`.
#[derive(Debug, Clone, Copy, PartialEq, Eq, Structural, PartialOrd, Ord, Hash)]
pub struct SourceSpan {
    pub start_line: u32,
    pub end_line: u32,
}

impl SourceSpan {
    /// The span `start..=end`, or `None` when `end < start`.
    pub fn new(start: u32, end: u32) -> (r: Option<SourceSpan>)
        ensures
            r == (if start <= end {
                Some(SourceSpan { start_line: start, end_line: end })
            } else {
                None
            }),
    {
        if start <= end {
            Some(SourceSpan { start_line: start, end_line: end })
        } else {
            None
        }
    }
}

/// Where a fact was observed: the artifact, its path, and optionally lines.
#[derive(Debug, PartialEq, Eq, PartialOrd, Ord, Hash)]
pub struct EvidenceRef {
    pub artifact_id: String,
    pub path: String,
    pub span: Option<SourceSpan>,
}

impl Clone for EvidenceRef {
    fn clone(&self) -> (r: Self)
        ensures
            r == *self,
    {
        EvidenceRef {
            artifact_id: self.artifact_id.clone(),
            path: self.path.clone(),
            span: self.span,
        }
    }
}

impl EvidenceRef {
    /// Whole-file evidence for the artifact at `path`.
    pub fn file(artifact_id: &str, path: &str) -> (r: EvidenceRef)
        ensures
            r.artifact_id@ == artifact_id@,
            r.path@ == path@,
            r.span.is_none(),
    {
        EvidenceRef { artifact_id: owned(artifact_id), path: owned(path), span: None }
    }

    /// The same evidence narrowed to `span`.
    pub fn with_span(self, span: SourceSpan) -> (r: EvidenceRef)
        ensures
            r.artifact_id == self.artifact_id,
            r.path == self.path,
            r.span == Some(span),
    {
        EvidenceRef { artifact_id: self.artifact_id, path: self.path, span: Some(span) }
    }
}

/// Language and resolver details of one relation.
#[derive(Debug, PartialEq, Eq, PartialOrd, Ord, Hash)]
pub struct RelationProvenance {
    pub language: Option<String>,
    pub resolver_strategy: String,
    pub resolution: RelationResolution,
    pub confidence: Confidence,
}

impl Clone for RelationProvenance {
    fn clone(&self) -> (r: Self)
        ensures
            r == *self,
    {
        RelationProvenance {
            language: match &self.language {
                Some(l) => Some(l.clone()),
                None => None,
            },
            resolver_strategy: self.resolver_strategy.clone(),
            resolution: self.resolution,
            confidence: self.confidence,
        }
    }
}

/// A repository file.
#[derive(Debug, PartialEq, Eq, Hash)]
pub struct ArtifactNode {
    pub id: GraphNodeId,
    pub path: String,
    pub category: ArtifactCategory,
    pub evidence: EvidenceRef,
}

/// A named code definition.
#[derive(Debug, PartialEq, Eq, Hash)]
pub struct SymbolNode {
    pub id: GraphNodeId,
    pub kind: SymbolKind,
    pub qualified_name: String,
    pub doc: Option<String>,
    pub evidence: EvidenceRef,
}

/// A configuration key, service, port, job, or route.
#[derive(Debug, PartialEq, Eq, Hash)]
pub struct ConfigNode {
    pub id: GraphNodeId,
    pub kind: ConfigNodeKind,
    pub name: String,
    pub evidence: EvidenceRef,
}

/// A documentation section.
#[derive(Debug, PartialEq, Eq, Hash)]
pub struct DocumentationNode {
    pub id: GraphNodeId,
    pub title: String,
    pub evidence: EvidenceRef,
}

/// A container image reference.
#[derive(Debug, PartialEq, Eq, Hash)]
pub struct ContainerImageNode {
    pub id: GraphNodeId,
    pub reference: String,
    pub is_dynamic: bool,
}

/// A shell command.
#[derive(Debug, PartialEq, Eq, Hash)]
pub struct CommandNode {
    pub id: GraphNodeId,
    pub text: String,
    pub provenance: CommandProvenance,
    pub evidence: EvidenceRef,
}

/// An environment variable.
#[derive(Debug, PartialEq, Eq, Hash)]
pub struct EnvVarNode {
    pub id: GraphNodeId,
    pub name: String,
}

/// A language module.
#[derive(Debug, PartialEq, Eq, Hash)]
pub struct ModuleNode {
    pub id: GraphNodeId,
    pub path: String,
    pub language: ModuleLanguage,
    pub evidence: EvidenceRef,
}

/// A local or external package.
#[derive(Debug, PartialEq, Eq, Hash)]
pub struct PackageNode {
    pub id: GraphNodeId,
    pub name: String,
    pub is_external: bool,
}

/// A reference nothing in the repository explains yet.
#[derive(Debug, PartialEq, Eq, Hash)]
pub struct UnresolvedNode {
    pub id: GraphNodeId,
    pub value: String,
}

/// An author-recorded note explaining why code is the way it is.
#[derive(Debug, PartialEq, Eq, Hash)]
pub struct RationaleNode {
    pub id: GraphNodeId,
    pub kind: RationaleKind,
    pub text: String,
    pub evidence: EvidenceRef,
}

/// One node of the graph.
#[derive(Debug, PartialEq, Eq, Hash)]
pub enum GraphNode {
    Artifact(ArtifactNode),
    Symbol(SymbolNode),
    Config(ConfigNode),
    Documentation(DocumentationNode),
    Container(ContainerImageNode),
    Command(CommandNode),
    EnvVar(EnvVarNode),
    Module(ModuleNode),
    Package(PackageNode),
    Unresolved(UnresolvedNode),
    Rationale(RationaleNode),
}

/// The id of a node.
pub open spec fn node_id(node: GraphNode) -> Seq<char> {
    match node {
        GraphNode::Artifact(n) => n.id@,
        GraphNode::Symbol(n) => n.id@,
        GraphNode::Config(n) => n.id@,
        GraphNode::Documentation(n) => n.id@,
        GraphNode::Container(n) => n.id@,
        GraphNode::Command(n) => n.id@,
        GraphNode::EnvVar(n) => n.id@,
        GraphNode::Module(n) => n.id@,
        GraphNode::Package(n) => n.id@,
        GraphNode::Unresolved(n) => n.id@,
        GraphNode::Rationale(n) => n.id@,
    }
}

fn clone_string_option(s: &Option<String>) -> (r: Option<String>)
    ensures
        r == *s,
{
    match s {
        Some(v) => Some(v.clone()),
        None => None,
    }
}

impl Clone for GraphNode {
    fn clone(&self) -> (r: Self)
        ensures
            r == *self,
    {
        match self {
            GraphNode::Artifact(n) => GraphNode::Artifact(ArtifactNode {
                id: n.id.clone(),
                path: n.path.clone(),
                category: n.category,
                evidence: n.evidence.clone(),
            }),
            GraphNode::Symbol(n) => GraphNode::Symbol(SymbolNode {
                id: n.id.clone(),
                kind: n.kind,
                qualified_name: n.qualified_name.clone(),
                doc: clone_string_option(&n.doc),
                evidence: n.evidence.clone(),
            }),
            GraphNode::Config(n) => GraphNode::Config(ConfigNode {
                id: n.id.clone(),
                kind: n.kind,
                name: n.name.clone(),
                evidence: n.evidence.clone(),
            }),
            GraphNode::Documentation(n) => GraphNode::Documentation(DocumentationNode {
                id: n.id.clone(),
                title: n.title.clone(),
                evidence: n.evidence.clone(),
            }),
            GraphNode::Container(n) => GraphNode::Container(ContainerImageNode {
                id: n.id.clone(),
                reference: n.reference.clone(),
                is_dynamic: n.is_dynamic,
            }),
            GraphNode::Command(n) => GraphNode::Command(CommandNode {
                id: n.id.clone(),
                text: n.text.clone(),
                provenance: n.provenance,
                evidence: n.evidence.clone(),
            }),
            GraphNode::EnvVar(n) => GraphNode::EnvVar(
                EnvVarNode { id: n.id.clone(), name: n.name.clone() },
            ),
            GraphNode::Module(n) => GraphNode::Module(ModuleNode {
                id: n.id.clone(),
                path: n.path.clone(),
                language: n.language,
                evidence: n.evidence.clone(),
            }),
            GraphNode::Package(n) => GraphNode::Package(
                PackageNode { id: n.id.clone(), name: n.name.clone(), is_external: n.is_external },
            ),
            GraphNode::Unresolved(n) => GraphNode::Unresolved(
                UnresolvedNode { id: n.id.clone(), value: n.value.clone() },
            ),
            GraphNode::Rationale(n) => GraphNode::Rationale(RationaleNode {
                id: n.id.clone(),
                kind: n.kind,
                text: n.text.clone(),
                evidence: n.evidence.clone(),
            }),
        }
    }
}

impl GraphNode {
    /// The node's id.
    pub fn id(&self) -> (r: &GraphNodeId)
        ensures
            r@ == node_id(*self),
    {
        match self {
            GraphNode::Artifact(n) => &n.id,
            GraphNode::Symbol(n) => &n.id,
            GraphNode::Config(n) => &n.id,
            GraphNode::Documentation(n) => &n.id,
            GraphNode::Container(n) => &n.id,
            GraphNode::Command(n) => &n.id,
            GraphNode::EnvVar(n) => &n.id,
            GraphNode::Module(n) => &n.id,
            GraphNode::Package(n) => &n.id,
            GraphNode::Unresolved(n) => &n.id,
            GraphNode::Rationale(n) => &n.id,
        }
    }
}

/// One directed, evidenced relation between two nodes.
#[derive(Debug, PartialEq, Eq, Hash)]
pub struct Relation {
    pub id: String,
    pub source: GraphNodeId,
    pub target: GraphNodeId,
    pub kind: RelationKind,
    pub confidence: Confidence,
    pub evidence: Vec<EvidenceRef>,
    pub provenance: Option<RelationProvenance>,
}

/// The value of a relation, with its evidence as a sequence.
pub struct RelationView {
    pub id: Seq<char>,
    pub source: Seq<char>,
    pub target: Seq<char>,
    pub kind: RelationKind,
    pub confidence: Confidence,
    pub evidence: Seq<EvidenceRef>,
    pub provenance: Option<RelationProvenance>,
}

impl View for Relation {
    type V = RelationView;

    open spec fn view(&self) -> RelationView {
        RelationView {
            id: self.id@,
            source: self.source@,
            target: self.target@,
            kind: self.kind,
            confidence: self.confidence,
            evidence: self.evidence@,
            provenance: self.provenance,
        }
    }
}

/// A copy of an evidence list.
pub fn clone_evidence(v: &Vec<EvidenceRef>) -> (r: Vec<EvidenceRef>)
    ensures
        r@ == v@,
{
    let mut r: Vec<EvidenceRef> = Vec::new();
    let mut i: usize = 0;
    while i < v.len()
        invariant
            i <= v@.len(),
            r@ == v@.subrange(0, i as int),
        decreases v@.len() - i,
    {
        r.push(v[i].clone());
        assert(r@ =~= v@.subrange(0, i + 1));
        i = i + 1;
    }
    assert(r@ =~= v@);
    r
}

/// A copy of an optional provenance.
pub fn clone_provenance(p: &Option<RelationProvenance>) -> (r: Option<RelationProvenance>)
    ensures
        r == *p,
{
    match p {
        Some(v) => Some(v.clone()),
        None => None,
    }
}

impl Relation {
    /// A copy of this relation.
    pub fn duplicate(&self) -> (r: Relation)
        ensures
            r@ == self@,
    {
        Relation {
            id: self.id.clone(),
            source: self.source.clone(),
            target: self.target.clone(),
            kind: self.kind,
            confidence: self.confidence,
            evidence: clone_evidence(&self.evidence),
            provenance: clone_provenance(&self.provenance),
        }
    }
}

impl Clone for Relation {
    fn clone(&self) -> (r: Self)
        ensures
            r@ == self@,
    {
        self.duplicate()
    }
}

/// A graph snapshot.
#[derive(Debug, PartialEq, Eq)]
pub struct Graph {
    pub nodes: Vec<GraphNode>,
    pub relations: Vec<Relation>,
}

/// The nodes and relations of a graph as sequences of values.
pub struct GraphView {
    pub nodes: Seq<GraphNode>,
    pub relations: Seq<RelationView>,
}

impl View for Graph {
    type V = GraphView;

    open spec fn view(&self) -> GraphView {
        GraphView { nodes: self.nodes@, relations: self.relations@.map_values(|r: Relation| r@) }
    }
}

/// A copy of a node list.
pub fn clone_nodes(v: &Vec<GraphNode>) -> (r: Vec<GraphNode>)
    ensures
        r@ == v@,
{
    let mut r: Vec<GraphNode> = Vec::new();
    let mut i: usize = 0;
    while i < v.len()
        invariant
            i <= v@.len(),
            r@ == v@.subrange(0, i as int),
        decreases v@.len() - i,
    {
        r.push(v[i].clone());
        assert(r@ =~= v@.subrange(0, i + 1));
        i = i + 1;
    }
    assert(r@ =~= v@);
    r
}

/// A copy of a relation list.
pub fn clone_relations(v: &Vec<Relation>) -> (r: Vec<Relation>)
    ensures
        r@.map_values(|x: Relation| x@) == v@.map_values(|x: Relation| x@),
        r@.len() == v@.len(),
        forall|i: int| 0 <= i < v@.len() ==> (#[trigger] r@[i])@ == v@[i]@,
{
    let mut r: Vec<Relation> = Vec::new();
    let mut i: usize = 0;
    while i < v.len()
        invariant
            i <= v@.len(),
            r@.len() == i,
            forall|j: int| 0 <= j < i ==> (#[trigger] r@[j])@ == v@[j]@,
        decreases v@.len() - i,
    {
        r.push(v[i].duplicate());
        i = i + 1;
    }
    assert(r@.map_values(|x: Relation| x@) =~= v@.map_values(|x: Relation| x@));
    r
}

impl Graph {
    /// A copy of this graph.
    pub fn duplicate(&self) -> (r: Graph)
        ensures
            r@ == self@,
    {
        Graph { nodes: clone_nodes(&self.nodes), relations: clone_relations(&self.relations) }
    }
}

impl Clone for Graph {
    fn clone(&self) -> (r: Self)
        ensures
            r@ == self@,
    {
        self.duplicate()
    }
}

/// A copy of a list of node ids.
pub fn clone_node_ids(v: &Vec<GraphNodeId>) -> (r: Vec<GraphNodeId>)
    ensures
        r@ == v@,
{
    let mut r: Vec<GraphNodeId> = Vec::new();
    let mut i: usize = 0;
    while i < v.len()
        invariant
            i <= v@.len(),
            r@ == v@.subrange(0, i as int),
        decreases v@.len() - i,
    {
        r.push(v[i].clone());
        assert(r@ =~= v@.subrange(0, i + 1));
        i = i + 1;
    }
    assert(r@ =~= v@);
    r
}

} // verus!

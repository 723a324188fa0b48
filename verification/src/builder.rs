//! The builder state that assembles the graph: an id-ordered node table in
//! which the first node recorded under an id is kept, numbered relations,
//! the repository's artifact paths and crate roots, and the structural pass
//! that gives every artifact its node and every source file its module.

use vstd::prelude::*;
use crate::model::{
    node_id, ArtifactCategory, ArtifactNode, CommandNode, CommandProvenance, ConfigNode, ConfigNodeKind,
    Confidence, ContainerImageNode, EnvVarNode, EvidenceRef, Graph, GraphNode, GraphNodeId, ModuleLanguage,
    ModuleNode, PackageNode, Relation, RelationKind, RelationProvenance, RelationResolution, RelationView,
    UnresolvedNode,
};
use crate::enrichment::{relation_edge_less, relation_edge_order};
use crate::sorting::{lemma_sort_map, sort_by, sort_spec};
use crate::strmap::{insert_unique, lemma_insert_keeps_sorted, lemma_sorted_listing, located, locate_str, sorted_listing, strictly_sorted, views};
use crate::communities::split_slash;
use crate::infra::{outputs_nodes, outputs_plan, recorded_as, AnalyzerOutput};
use crate::text::{
    cat, cat3, chars_of, file_name_start, str_starts_with, decimal, decimal_string, file_name, lemma_less_irreflexive, lemma_less_total,
    lemma_less_transitive, owned, seq_contains, seq_ends_with, seq_less, seq_starts_with, str_contains, str_ends_with,
    str_eq, str_less, string_between, trim_start_all, trim_start_matching,
};

verus! {

broadcast use {vstd::seq_lib::group_seq_properties, vstd::seq_lib::group_to_multiset_ensures};

/// One inventoried repository file, as the builder reads it.
#[derive(Debug, PartialEq, Eq)]
pub struct Artifact {
    /// Stable artifact id that evidence refers to.
    pub id: String,
    /// Repository-relative path.
    pub path: String,
    /// What kind of file it is.
    pub category: ArtifactCategory,
    /// The language or format detected for it, if any (`python`, `rust`, ...).
    pub detected_format: Option<String>,
}

/// A path component that marks documentation: `doc`, `docs`, or
/// `documentation`, in any ASCII case.
pub open spec fn documentation_component(c: Seq<char>) -> bool {
    let l = crate::text::ascii_lower(c);
    l == "doc"@ || l == "docs"@ || l == "documentation"@
}

/// Where a command comes from: a documentation example when its artifact is
/// documentation or its evidence path has a documentation component, build
/// automation in build definitions and CI, else an executable command.
pub open spec fn command_origin(category: ArtifactCategory, evidence_path: Seq<char>) -> CommandProvenance {
    let parts = split_slash(evidence_path);
    if category == ArtifactCategory::Documentation || exists|i: int| 0 <= i < parts.len() && documentation_component(#[trigger] parts[i]) {
        CommandProvenance::DocumentationExample
    } else if category == ArtifactCategory::BuildDefinition || category == ArtifactCategory::ContinuousIntegration {
        CommandProvenance::BuildAutomation
    } else {
        CommandProvenance::Executable
    }
}

fn is_documentation_component(c: &str) -> (b: bool)
    ensures
        b == documentation_component(c@),
{
    let l = crate::text::to_ascii_lower(c);
    str_eq(l.as_str(), "doc") || str_eq(l.as_str(), "docs") || str_eq(l.as_str(), "documentation")
}

/// The provenance of a command of `artifact` with `evidence`: exactly [`command_origin`].
pub fn command_provenance(artifact: &Artifact, evidence: &EvidenceRef) -> (p: CommandProvenance)
    ensures
        p == command_origin(artifact.category, evidence.path@),
{
    let parts = path_segments(evidence.path.as_str());
    let ghost pv = views(parts@);
    let mut documented = false;
    let mut i: usize = 0;
    while i < parts.len()
        invariant
            i <= parts@.len(),
            pv == views(parts@),
            pv == split_slash(evidence.path@),
            documented == exists|k: int| 0 <= k < i && documentation_component(#[trigger] pv[k]),
        decreases parts@.len() - i,
    {
        if is_documentation_component(parts[i].as_str()) {
            assert(documentation_component(pv[i as int]));
            documented = true;
        }
        i = i + 1;
    }
    if artifact.category == ArtifactCategory::Documentation || documented {
        CommandProvenance::DocumentationExample
    } else if artifact.category == ArtifactCategory::BuildDefinition || artifact.category == ArtifactCategory::ContinuousIntegration {
        CommandProvenance::BuildAutomation
    } else {
        CommandProvenance::Executable
    }
}

/// The ids of a node list, in order.
pub open spec fn node_keys(nodes: Seq<GraphNode>) -> Seq<Seq<char>> {
    nodes.map_values(|n: GraphNode| node_id(n))
}

/// The node recorded under `id`, if any.
pub open spec fn node_under(nodes: Seq<GraphNode>, id: Seq<char>) -> Option<GraphNode> {
    if exists|k: int| 0 <= k < nodes.len() && node_id(#[trigger] nodes[k]) == id {
        Some(nodes[choose|k: int| 0 <= k < nodes.len() && node_id(#[trigger] nodes[k]) == id])
    } else {
        None
    }
}

/// Finds the node with id `key` in an id-ordered node list, or where it belongs.
pub fn locate_node(nodes: &Vec<GraphNode>, key: &str) -> (r: (bool, usize))
    requires
        strictly_sorted(node_keys(nodes@)),
    ensures
        located(node_keys(nodes@), key@, r.0, r.1 as int),
{
    let ghost k = node_keys(nodes@);
    let mut i: usize = 0;
    while i < nodes.len()
        invariant
            k == node_keys(nodes@),
            strictly_sorted(k),
            i <= nodes@.len(),
            forall|j: int| 0 <= j < i ==> seq_less(#[trigger] k[j], key@),
        decreases nodes@.len() - i,
    {
        let here = nodes[i].id().as_str();
        assert(here@ == k[i as int]);
        if str_eq(here, key) {
            return (true, i);
        }
        if str_less(key, here) {
            assert forall|j: int| i <= j < k.len() implies seq_less(key@, #[trigger] k[j]) by {
                if j > i {
                    lemma_less_transitive(key@, k[i as int], k[j]);
                }
            }
            assert forall|j: int| 0 <= j < k.len() implies k[j] != key@ by {
                lemma_less_irreflexive(key@);
            }
            return (false, i);
        }
        proof {
            lemma_less_total(key@, k[i as int]);
        }
        i = i + 1;
    }
    assert forall|j: int| 0 <= j < k.len() implies k[j] != key@ by {
        lemma_less_irreflexive(key@);
    }
    (false, i)
}

/// Graph-building state: nodes ordered by id with the first recorded node
/// kept per id, relations in the order they were related, the number of
/// relations made so far, the artifact paths, and the source roots of the
/// known crate targets.
pub struct BuilderState {
    pub nodes: Vec<GraphNode>,
    pub relations: Vec<Relation>,
    pub relation_count: usize,
    pub artifact_paths: Vec<String>,
    pub rust_crate_roots: Vec<String>,
    pub env_symbols_by_artifact: Vec<(String, Vec<(u32, u32, GraphNodeId)>)>,
}

impl BuilderState {
    /// The state's invariant: node ids, artifact paths, crate roots, and the
    /// artifacts of the symbol-span table strictly increase (each once), and
    /// every relation so far was numbered.
    pub open spec fn wf(&self) -> bool {
        &&& strictly_sorted(node_keys(self.nodes@))
        &&& strictly_sorted(views(self.artifact_paths@))
        &&& strictly_sorted(views(self.rust_crate_roots@))
        &&& strictly_sorted(self.env_symbols_by_artifact@.map_values(|e: (String, Vec<(u32, u32, GraphNodeId)>)| e.0@))
        &&& self.relations@.len() <= self.relation_count
    }

    /// A fresh state that knows the paths of `artifacts`.
    pub fn new(artifacts: &Vec<Artifact>) -> (s: BuilderState)
        ensures
            s.wf(),
            s.nodes@.len() == 0,
            s.relations@.len() == 0,
            s.relation_count == 0,
            views(s.artifact_paths@).to_set() == artifacts@.map_values(|a: Artifact| a.path@).to_set(),
            s.rust_crate_roots@.len() == 0,
            s.env_symbols_by_artifact@.len() == 0,
    {
        let mut paths: Vec<String> = Vec::new();
        let mut i: usize = 0;
        let ghost all = artifacts@.map_values(|a: Artifact| a.path@);
        assert(views(paths@).to_set() =~= all.subrange(0, 0).to_set());
        while i < artifacts.len()
            invariant
                i <= artifacts@.len(),
                all == artifacts@.map_values(|a: Artifact| a.path@),
                strictly_sorted(views(paths@)),
                views(paths@).to_set() == all.subrange(0, i as int).to_set(),
            decreases artifacts@.len() - i,
        {
            insert_unique(&mut paths, artifacts[i].path.as_str());
            assert(all.subrange(0, i + 1) =~= all.subrange(0, i as int).push(artifacts@[i as int].path@));
            assert(all.subrange(0, i + 1).to_set() =~= all.subrange(0, i as int).to_set().insert(artifacts@[i as int].path@));
            i = i + 1;
        }
        assert(all.subrange(0, i as int) =~= all);
        BuilderState {
            nodes: Vec::new(),
            relations: Vec::new(),
            relation_count: 0,
            artifact_paths: paths,
            rust_crate_roots: Vec::new(),
            env_symbols_by_artifact: Vec::new(),
        }
    }

    /// Records `node` unless a node with its id is already recorded, in which
    /// case the first one stays; returns the id.
    pub fn insert(&mut self, node: GraphNode) -> (id: GraphNodeId)
        requires
            old(self).wf(),
        ensures
            final(self).wf(),
            id@ == node_id(node),
            final(self).relations == old(self).relations,
            final(self).relation_count == old(self).relation_count,
            final(self).artifact_paths == old(self).artifact_paths,
            final(self).rust_crate_roots == old(self).rust_crate_roots,
            final(self).env_symbols_by_artifact == old(self).env_symbols_by_artifact,
            node_keys(old(self).nodes@).contains(node_id(node)) ==> final(self).nodes@ == old(self).nodes@,
            !node_keys(old(self).nodes@).contains(node_id(node)) ==> exists|at: int|
                0 <= at <= old(self).nodes@.len() && final(self).nodes@ == old(self).nodes@.insert(at, node),
    {
        let id = node.id().clone();
        let (found, at) = locate_node(&self.nodes, id.as_str());
        if found {
            assert(node_keys(self.nodes@)[at as int] == id@);
            return id;
        }
        proof {
            lemma_insert_keeps_sorted(node_keys(self.nodes@), id@, at as int);
            assert(!node_keys(self.nodes@).contains(node_id(node)));
        }
        let ghost before = self.nodes@;
        self.nodes.insert(at, node);
        assert(node_keys(self.nodes@) =~= node_keys(before).insert(at as int, id@));
        id
    }

    /// Relates `source` to `target` with the builder's own syntax-only provenance.
    pub fn relate(&mut self, source: GraphNodeId, target: GraphNodeId, kind: RelationKind, confidence: Confidence, evidence: Vec<EvidenceRef>)
        requires
            old(self).wf(),
            old(self).relation_count < usize::MAX,
        ensures
            final(self).wf(),
            final(self).nodes == old(self).nodes,
            final(self).artifact_paths == old(self).artifact_paths,
            final(self).rust_crate_roots == old(self).rust_crate_roots,
            final(self).env_symbols_by_artifact == old(self).env_symbols_by_artifact,
            final(self).relation_count == old(self).relation_count + 1,
            final(self).relations@.len() == old(self).relations@.len() + 1,
            forall|k: int| 0 <= k < old(self).relations@.len() ==> final(self).relations@[k] == old(self).relations@[k],
            numbered(final(self).relations@.last()@, final(self).relation_count as int),
            final(self).relations@.last()@.source == source@,
            final(self).relations@.last()@.target == target@,
            final(self).relations@.last().kind == kind,
            final(self).relations@.last().confidence == confidence,
            final(self).relations@.last().evidence@ == evidence@,
            final(self).relations@.last().provenance matches Some(p) && p.language.is_none() && p.resolver_strategy@
                == "graph-builder"@ && p.resolution == RelationResolution::SyntaxOnly && p.confidence == confidence,
    {
        let provenance = RelationProvenance {
            language: None,
            resolver_strategy: owned("graph-builder"),
            resolution: RelationResolution::SyntaxOnly,
            confidence,
        };
        self.relate_with_provenance(source, target, kind, confidence, evidence, Some(provenance));
    }

    /// Relates `source` to `target` as the next numbered relation.
    pub fn relate_with_provenance(
        &mut self,
        source: GraphNodeId,
        target: GraphNodeId,
        kind: RelationKind,
        confidence: Confidence,
        evidence: Vec<EvidenceRef>,
        provenance: Option<RelationProvenance>,
    )
        requires
            old(self).wf(),
            old(self).relation_count < usize::MAX,
        ensures
            final(self).wf(),
            final(self).nodes == old(self).nodes,
            final(self).artifact_paths == old(self).artifact_paths,
            final(self).rust_crate_roots == old(self).rust_crate_roots,
            final(self).env_symbols_by_artifact == old(self).env_symbols_by_artifact,
            final(self).relation_count == old(self).relation_count + 1,
            final(self).relations@ == old(self).relations@.push(final(self).relations@.last()),
            numbered(final(self).relations@.last()@, final(self).relation_count as int),
            final(self).relations@.last()@.source == source@,
            final(self).relations@.last()@.target == target@,
            final(self).relations@.last().kind == kind,
            final(self).relations@.last().confidence == confidence,
            final(self).relations@.last().evidence@ == evidence@,
            final(self).relations@.last().provenance == provenance,
    {
        self.relation_count = self.relation_count + 1;
        let number = decimal_string(self.relation_count);
        let id = cat("relation:", number.as_str());
        self.relations.push(Relation { id, source, target, kind, confidence, evidence, provenance });
    }

    /// The package node named `name`. A local declaration upgrades an
    /// existing external package of that name to local; otherwise the first
    /// recorded package stays.
    pub fn package(&mut self, name: &str, is_external: bool) -> (id: GraphNodeId)
        requires
            old(self).wf(),
        ensures
            final(self).wf(),
            id@ == "package:"@ + name@,
            final(self).relations == old(self).relations,
            final(self).relation_count == old(self).relation_count,
            final(self).artifact_paths == old(self).artifact_paths,
            final(self).rust_crate_roots == old(self).rust_crate_roots,
            final(self).env_symbols_by_artifact == old(self).env_symbols_by_artifact,
            package_recorded(old(self).nodes@, final(self).nodes@, id@, name@, is_external),
            node_keys(final(self).nodes@).to_set() == node_keys(old(self).nodes@).to_set().insert(id@),
    {
        let id = GraphNodeId::from_string(cat("package:", name));
        let (found, at) = locate_node(&self.nodes, id.as_str());
        if found {
            proof {
                assert(node_keys(self.nodes@)[at as int] == id@);
                lemma_node_under(self.nodes@, at as int);
            }
        }
        if !is_external && found {
            let upgraded = match &self.nodes[at] {
                GraphNode::Package(existing) => Some(
                    GraphNode::Package(PackageNode { id: existing.id.clone(), name: existing.name.clone(), is_external: false }),
                ),
                _ => None,
            };
            match upgraded {
                Some(node) => {
                    let ghost before = self.nodes@;
                    self.nodes.set(at, node);
                    assert(node_keys(self.nodes@) =~= node_keys(before));
                    assert(node_keys(before).to_set().contains(id@)) by {
                        assert(node_keys(before)[at as int] == id@);
                    }
                    assert(node_keys(before).to_set().insert(id@) =~= node_keys(before).to_set());
                    return id;
                },
                None => {},
            }
        }
        let ghost before = self.nodes@;
        let node = GraphNode::Package(PackageNode { id, name: owned(name), is_external });
        let ghost made = node;
        let new_id = self.insert(node);
        proof {
            if !node_keys(before).contains(new_id@) {
                let at2 = choose|at2: int| 0 <= at2 <= before.len() && self.nodes@ == before.insert(at2, made);
                assert(self.nodes@[at2] == made);
                lemma_node_under(self.nodes@, at2);
                assert(node_keys(self.nodes@) =~= node_keys(before).insert(at2, new_id@));
                crate::strmap::lemma_keys_after_insert(node_keys(before), node_keys(self.nodes@), at2, new_id@);
                assert forall|k: int| 0 <= k < before.len() implies node_id(#[trigger] before[k]) != new_id@ by {
                    assert(node_keys(before)[k] == node_id(before[k]));
                }
            } else {
                let k = choose|k: int| 0 <= k < node_keys(before).len() && node_keys(before)[k] == new_id@;
                assert(node_id(before[k]) == new_id@);
                assert(node_keys(before).to_set().insert(new_id@) =~= node_keys(before).to_set());
            }
        }
        new_id
    }

}

/// A relation numbered `count`: its id is `relation:` and the count in decimal.
pub open spec fn numbered(r: RelationView, count: int) -> bool {
    count >= 0 && r.id == "relation:"@ + decimal(count as nat)
}

/// Recording under `id` kept the node list when the id was taken, and
/// otherwise added exactly one node, with that id, in id order.
pub open spec fn kept_or_added(before: Seq<GraphNode>, after: Seq<GraphNode>, id: Seq<char>) -> bool {
    if node_keys(before).contains(id) {
        after == before
    } else {
        exists|at: int| 0 <= at <= before.len() && after == before.insert(at, after[at]) && node_id(#[trigger] after[at]) == id
    }
}

/// A local declaration of the package `id` turned the existing package
/// node local; otherwise the package was kept or added.
pub open spec fn package_recorded(before: Seq<GraphNode>, after: Seq<GraphNode>, id: Seq<char>, name: Seq<char>, is_external: bool) -> bool {
    match node_under(before, id) {
        Some(GraphNode::Package(p)) => if !is_external {
            exists|k: int| 0 <= k < before.len() && node_id(#[trigger] before[k]) == id && after == before.update(
                k,
                GraphNode::Package(PackageNode { id: p.id, name: p.name, is_external: false }),
            )
        } else {
            after == before
        },
        Some(_) => after == before,
        None => kept_or_added(before, after, id) && package_named(node_under(after, id), name, is_external),
    }
}

/// `o` is a package node named `name`, external as given.
pub open spec fn package_named(o: Option<GraphNode>, name: Seq<char>, is_external: bool) -> bool {
    match o {
        Some(GraphNode::Package(q)) => q.name@ == name && q.is_external == is_external,
        _ => false,
    }
}

/// In a list with distinct ids, the node under an id is the one carrying it.
pub proof fn lemma_node_under(nodes: Seq<GraphNode>, k: int)
    requires
        strictly_sorted(node_keys(nodes)),
        0 <= k < nodes.len(),
    ensures
        node_under(nodes, node_id(nodes[k])) == Some(nodes[k]),
{
    let id = node_id(nodes[k]);
    assert(node_id(nodes[k]) == id);
    let c = choose|c: int| 0 <= c < nodes.len() && node_id(#[trigger] nodes[c]) == id;
    if c != k {
        assert(node_keys(nodes)[c] == node_keys(nodes)[k]);
        if c < k {
            assert(seq_less(node_keys(nodes)[c], node_keys(nodes)[k]));
        } else {
            assert(seq_less(node_keys(nodes)[k], node_keys(nodes)[c]));
        }
        lemma_less_irreflexive(id);
    }
}

/// Recording another id keeps the node already under `id`.
pub proof fn lemma_under_kept(before: Seq<GraphNode>, after: Seq<GraphNode>, added: Seq<char>, id: Seq<char>)
    requires
        strictly_sorted(node_keys(before)),
        strictly_sorted(node_keys(after)),
        kept_or_added(before, after, added),
        node_keys(before).contains(id),
    ensures
        node_under(after, id) == node_under(before, id),
{
    if !node_keys(before).contains(added) {
        let at = choose|at: int| 0 <= at <= before.len() && after == before.insert(at, after[at]) && node_id(#[trigger] after[at]) == added;
        let k = choose|k: int| 0 <= k < node_keys(before).len() && node_keys(before)[k] == id;
        assert(node_id(before[k]) == id);
        lemma_node_under(before, k);
        if k < at {
            assert(after[k] == before[k]);
            lemma_node_under(after, k);
        } else {
            assert(after[k + 1] == before[k]);
            lemma_node_under(after, k + 1);
        }
    }
}

/// An artifact node is under the id of every artifact, with its path.
pub open spec fn artifact_node_for(nodes: Seq<GraphNode>, a: Artifact) -> bool {
    node_under(nodes, "artifact:"@ + a.path@) matches Some(GraphNode::Artifact(x)) && x.path@ == a.path@
}

/// `n` is the environment-variable node `name`.
pub open spec fn env_var_shape(n: GraphNode, name: Seq<char>) -> bool {
    n matches GraphNode::EnvVar(e) && e.name@ == name
}

/// `n` is the container-image node for `reference`, dynamic when it interpolates.
pub open spec fn image_shape(n: GraphNode, reference: Seq<char>) -> bool {
    n matches GraphNode::Container(c) && c.reference@ == reference && c.is_dynamic == seq_contains(reference, "${"@)
}

/// `n` is the unresolved node for `value`.
pub open spec fn unresolved_shape(n: GraphNode, value: Seq<char>) -> bool {
    n matches GraphNode::Unresolved(u) && u.value@ == value
}

/// `n` is the module node for `path`.
pub open spec fn module_shape(n: GraphNode, path: Seq<char>, language: ModuleLanguage, evidence: EvidenceRef) -> bool {
    n matches GraphNode::Module(m) && m.path@ == path && m.language == language && m.evidence == evidence
}

/// `n` is the configuration node `name` of kind `kind`.
pub open spec fn config_shape(n: GraphNode, kind: ConfigNodeKind, name: Seq<char>, evidence: EvidenceRef) -> bool {
    n matches GraphNode::Config(c) && c.kind == kind && c.name@ == name && c.evidence == evidence
}

/// `n` is the command node running `text`.
pub open spec fn command_shape(n: GraphNode, text: Seq<char>, provenance: CommandProvenance, evidence: EvidenceRef) -> bool {
    n matches GraphNode::Command(c) && c.text@ == text && c.provenance == provenance && c.evidence == evidence
}

/// `n` is a documentation section titled `title`, with `evidence`.
pub open spec fn documentation_shape(n: GraphNode, title: Seq<char>, evidence: EvidenceRef) -> bool {
    n matches GraphNode::Documentation(d) && d.title@ == title && d.evidence == evidence
}

/// `n` is the artifact node of `a`, with whole-file evidence.
pub open spec fn artifact_shape(n: GraphNode, a: Artifact) -> bool {
    n matches GraphNode::Artifact(x) && x.path@ == a.path@ && x.category == a.category && x.evidence.artifact_id@
        == a.id@ && x.evidence.path@ == a.path@ && x.evidence.span.is_none()
}

/// The same state apart from its node list.
pub open spec fn same_but_nodes(a: BuilderState, b: BuilderState) -> bool {
    &&& a.relations == b.relations
    &&& a.relation_count == b.relation_count
    &&& a.artifact_paths == b.artifact_paths
    &&& a.rust_crate_roots == b.rust_crate_roots
    &&& a.env_symbols_by_artifact == b.env_symbols_by_artifact
}


proof fn lemma_recorded(before: Seq<GraphNode>, after: Seq<GraphNode>, made: GraphNode)
    requires
        strictly_sorted(node_keys(after)),
        node_keys(before).contains(node_id(made)) ==> after == before,
        !node_keys(before).contains(node_id(made)) ==> exists|at: int| 0 <= at <= before.len() && after == before.insert(at, made),
    ensures
        kept_or_added(before, after, node_id(made)),
        !node_keys(before).contains(node_id(made)) ==> node_under(after, node_id(made)) == Some(made),
{
    if !node_keys(before).contains(node_id(made)) {
        let at = choose|at: int| 0 <= at <= before.len() && after == before.insert(at, made);
        assert(after[at] == made);
        lemma_node_under(after, at);
    }
}

impl BuilderState {
    /// The environment-variable node named `name`.
    pub fn env_var(&mut self, name: &str) -> (id: GraphNodeId)
        requires
            old(self).wf(),
        ensures
            final(self).wf(),
            same_but_nodes(*old(self), *final(self)),
            id@ == "env:"@ + name@,
            kept_or_added(old(self).nodes@, final(self).nodes@, id@),
            !node_keys(old(self).nodes@).contains(id@) ==> (node_under(final(self).nodes@, id@) matches Some(n) && env_var_shape(n, name@)),
    {
        let ghost before = self.nodes@;
        let node = GraphNode::EnvVar(EnvVarNode { id: GraphNodeId::from_string(cat("env:", name)), name: owned(name) });
        let ghost made = node;
        let id = self.insert(node);
        proof {
            lemma_recorded(before, self.nodes@, made);
        }
        id
    }

    /// The container-image node for `reference`; it is dynamic when the
    /// reference interpolates a variable (`${`).
    pub fn image(&mut self, reference: &str) -> (id: GraphNodeId)
        requires
            old(self).wf(),
        ensures
            final(self).wf(),
            same_but_nodes(*old(self), *final(self)),
            id@ == "image:"@ + reference@,
            kept_or_added(old(self).nodes@, final(self).nodes@, id@),
            !node_keys(old(self).nodes@).contains(id@) ==> (node_under(final(self).nodes@, id@) matches Some(n) && image_shape(n, reference@)),
    {
        let ghost before = self.nodes@;
        let is_dynamic = str_contains(reference, "${");
        let node = GraphNode::Container(
            ContainerImageNode { id: GraphNodeId::from_string(cat("image:", reference)), reference: owned(reference), is_dynamic },
        );
        let ghost made = node;
        let id = self.insert(node);
        proof {
            lemma_recorded(before, self.nodes@, made);
        }
        id
    }

    /// The unresolved node for `value`.
    pub fn unresolved(&mut self, value: &str) -> (id: GraphNodeId)
        requires
            old(self).wf(),
        ensures
            final(self).wf(),
            same_but_nodes(*old(self), *final(self)),
            id@ == "unresolved:"@ + value@,
            kept_or_added(old(self).nodes@, final(self).nodes@, id@),
            !node_keys(old(self).nodes@).contains(id@) ==> (node_under(final(self).nodes@, id@) matches Some(n) && unresolved_shape(n, value@)),
    {
        let ghost before = self.nodes@;
        let node = GraphNode::Unresolved(UnresolvedNode { id: GraphNodeId::from_string(cat("unresolved:", value)), value: owned(value) });
        let ghost made = node;
        let id = self.insert(node);
        proof {
            lemma_recorded(before, self.nodes@, made);
        }
        id
    }

    /// The module node for `path` in `language`.
    pub fn module(&mut self, path: &str, language: ModuleLanguage, evidence: EvidenceRef) -> (id: GraphNodeId)
        requires
            old(self).wf(),
        ensures
            final(self).wf(),
            same_but_nodes(*old(self), *final(self)),
            id@ == "module:"@ + path@,
            kept_or_added(old(self).nodes@, final(self).nodes@, id@),
            !node_keys(old(self).nodes@).contains(id@) ==> (node_under(final(self).nodes@, id@) matches Some(n) && module_shape(n, path@, language, evidence)),
    {
        let ghost before = self.nodes@;
        let node = GraphNode::Module(ModuleNode { id: GraphNodeId::from_string(cat("module:", path)), path: owned(path), language, evidence });
        let ghost made = node;
        let id = self.insert(node);
        proof {
            lemma_recorded(before, self.nodes@, made);
        }
        id
    }

    /// The configuration node `key` of the artifact at `artifact_path`.
    pub fn config(&mut self, artifact_path: &str, key: &str, kind: ConfigNodeKind, name: &str, evidence: EvidenceRef) -> (id: GraphNodeId)
        requires
            old(self).wf(),
        ensures
            final(self).wf(),
            same_but_nodes(*old(self), *final(self)),
            id@ == "config:"@ + artifact_path@ + "#"@ + key@,
            kept_or_added(old(self).nodes@, final(self).nodes@, id@),
            !node_keys(old(self).nodes@).contains(id@) ==> (node_under(final(self).nodes@, id@) matches Some(n) && config_shape(n, kind, name@, evidence)),
    {
        let ghost before = self.nodes@;
        let text = cat3("config:", artifact_path, "#");
        let node = GraphNode::Config(ConfigNode { id: GraphNodeId::from_string(cat(text.as_str(), key)), kind, name: owned(name), evidence });
        let ghost made = node;
        let id = self.insert(node);
        proof {
            lemma_recorded(before, self.nodes@, made);
        }
        id
    }

    /// The documentation node `key` of the artifact at `artifact_path`: a
    /// section titled `title`.
    pub fn documentation(&mut self, artifact_path: &str, key: &str, title: &str, evidence: EvidenceRef) -> (id: GraphNodeId)
        requires
            old(self).wf(),
        ensures
            final(self).wf(),
            same_but_nodes(*old(self), *final(self)),
            id@ == "doc:"@ + artifact_path@ + "#"@ + key@,
            kept_or_added(old(self).nodes@, final(self).nodes@, id@),
            !node_keys(old(self).nodes@).contains(id@) ==> (node_under(final(self).nodes@, id@) matches Some(n) && documentation_shape(
                n,
                title@,
                evidence,
            )),
    {
        let ghost before = self.nodes@;
        let head = cat3("doc:", artifact_path, "#");
        let node = GraphNode::Documentation(
            crate::model::DocumentationNode { id: GraphNodeId::from_string(cat(head.as_str(), key)), title: owned(title), evidence },
        );
        let ghost made = node;
        let id = self.insert(node);
        proof {
            lemma_recorded(before, self.nodes@, made);
        }
        id
    }

    /// Whether `path` is an inventoried artifact path.
    pub fn path_listed(&self, path: &str) -> (b: bool)
        requires
            self.wf(),
        ensures
            b == views(self.artifact_paths@).contains(path@),
    {
        let (found, at) = locate_str(&self.artifact_paths, path);
        proof {
            if found {
                assert(views(self.artifact_paths@)[at as int] == path@);
            }
        }
        found
    }

    /// The command node `key` of the artifact at `artifact_path`.
    pub fn command_with_provenance(
        &mut self,
        artifact_path: &str,
        key: &str,
        text: &str,
        evidence: EvidenceRef,
        provenance: CommandProvenance,
    ) -> (id: GraphNodeId)
        requires
            old(self).wf(),
        ensures
            final(self).wf(),
            same_but_nodes(*old(self), *final(self)),
            id@ == "command:"@ + artifact_path@ + "#"@ + key@,
            kept_or_added(old(self).nodes@, final(self).nodes@, id@),
            !node_keys(old(self).nodes@).contains(id@) ==> (node_under(final(self).nodes@, id@) matches Some(n) && command_shape(n, text@, provenance, evidence)),
    {
        let ghost before = self.nodes@;
        let head = cat3("command:", artifact_path, "#");
        let node = GraphNode::Command(CommandNode { id: GraphNodeId::from_string(cat(head.as_str(), key)), text: owned(text), provenance, evidence });
        let ghost made = node;
        let id = self.insert(node);
        proof {
            lemma_recorded(before, self.nodes@, made);
        }
        id
    }

    /// The command node `key` of `artifact`, its provenance read from the
    /// artifact's category and the evidence path as [`command_origin`] says.
    pub fn command(&mut self, artifact: &Artifact, key: &str, text: &str, evidence: EvidenceRef) -> (id: GraphNodeId)
        requires
            old(self).wf(),
        ensures
            final(self).wf(),
            same_but_nodes(*old(self), *final(self)),
            id@ == "command:"@ + artifact.path@ + "#"@ + key@,
            kept_or_added(old(self).nodes@, final(self).nodes@, id@),
            !node_keys(old(self).nodes@).contains(id@) ==> (node_under(final(self).nodes@, id@) matches Some(n) && command_shape(
                n,
                text@,
                command_origin(artifact.category, evidence.path@),
                evidence,
            )),
    {
        let provenance = command_provenance(artifact, &evidence);
        self.command_with_provenance(artifact.path.as_str(), key, text, evidence, provenance)
    }

    /// The artifact node of `artifact`, with whole-file evidence.
    pub fn add_artifact_node(&mut self, artifact: &Artifact) -> (id: GraphNodeId)
        requires
            old(self).wf(),
        ensures
            final(self).wf(),
            same_but_nodes(*old(self), *final(self)),
            id@ == "artifact:"@ + artifact.path@,
            kept_or_added(old(self).nodes@, final(self).nodes@, id@),
            !node_keys(old(self).nodes@).contains(id@) ==> (node_under(final(self).nodes@, id@) matches Some(n) && artifact_shape(n, *artifact)),
    {
        let ghost before = self.nodes@;
        let node = GraphNode::Artifact(
            ArtifactNode {
                id: artifact_node_id(artifact),
                path: owned(artifact.path.as_str()),
                category: artifact.category,
                evidence: file_evidence(artifact),
            },
        );
        let ghost made = node;
        let id = self.insert(node);
        proof {
            lemma_recorded(before, self.nodes@, made);
        }
        id
    }

    /// The artifact id for a path mentioned somewhere: the path with any
    /// leading `./` removed, when it is an inventoried artifact.
    pub fn resolve_path(&self, value: &str) -> (r: Option<GraphNodeId>)
        requires
            self.wf(),
        ensures
            r is Some <==> views(self.artifact_paths@).contains(trim_start_all(value@, "./"@)),
            r is Some ==> r->0@ == "artifact:"@ + trim_start_all(value@, "./"@),
    {
        let normalized = trim_start_matching(value, "./");
        let (found, _at) = locate_str(&self.artifact_paths, normalized.as_str());
        if found {
            Some(GraphNodeId::from_string(cat("artifact:", normalized.as_str())))
        } else {
            None
        }
    }

    /// The node a mentioned path refers to: its artifact with high
    /// confidence, else an unresolved node with low confidence.
    pub fn reference_target(&mut self, value: &str) -> (r: (GraphNodeId, Confidence))
        requires
            old(self).wf(),
        ensures
            final(self).wf(),
            same_but_nodes(*old(self), *final(self)),
            views(old(self).artifact_paths@).contains(trim_start_all(value@, "./"@)) ==> {
                &&& r.0@ == "artifact:"@ + trim_start_all(value@, "./"@)
                &&& r.1 == Confidence::High
                &&& final(self).nodes == old(self).nodes
            },
            !views(old(self).artifact_paths@).contains(trim_start_all(value@, "./"@)) ==> {
                &&& r.0@ == "unresolved:"@ + value@
                &&& r.1 == Confidence::Low
                &&& kept_or_added(old(self).nodes@, final(self).nodes@, r.0@)
                &&& !node_keys(old(self).nodes@).contains(r.0@) ==> (node_under(final(self).nodes@, r.0@) matches Some(n)
                    && unresolved_shape(n, value@))
            },
    {
        match self.resolve_path(value) {
            Some(id) => (id, Confidence::High),
            None => (self.unresolved(value), Confidence::Low),
        }
    }
}

/// The node id of an artifact: `artifact:` and its path.
pub fn artifact_node_id(artifact: &Artifact) -> (id: GraphNodeId)
    ensures
        id@ == "artifact:"@ + artifact.path@,
{
    GraphNodeId::from_string(cat("artifact:", artifact.path.as_str()))
}

/// Whole-file evidence for an artifact.
pub fn file_evidence(artifact: &Artifact) -> (e: EvidenceRef)
    ensures
        e.artifact_id@ == artifact.id@,
        e.path@ == artifact.path@,
        e.span.is_none(),
{
    EvidenceRef::file(artifact.id.as_str(), artifact.path.as_str())
}


/// `s` without `suffix` when it ends with it.
pub open spec fn strip_suffix(s: Seq<char>, suffix: Seq<char>) -> Seq<char> {
    if seq_ends_with(s, suffix) {
        s.subrange(0, s.len() - suffix.len())
    } else {
        s
    }
}

/// The segments joined with `sep` between them.
pub open spec fn join_with(segs: Seq<Seq<char>>, sep: Seq<char>) -> Seq<char>
    decreases segs.len(),
{
    if segs.len() == 0 {
        Seq::empty()
    } else if segs.len() == 1 {
        segs[0]
    } else {
        join_with(segs.drop_last(), sep) + sep + segs.last()
    }
}

/// A Rust file that roots its module rather than naming one.
pub open spec fn rust_entry(seg: Seq<char>) -> bool {
    seg == "lib"@ || seg == "main"@ || seg == "mod"@
}

/// The module path of a Rust source path relative to its crate root: its
/// directories and file stem joined by `::`, without a final `lib`, `main`,
/// or `mod`.
pub open spec fn rust_module_text(path: Seq<char>) -> Seq<char> {
    let segs = split_slash(strip_suffix(path, ".rs"@));
    let kept = if segs.len() > 0 && rust_entry(segs.last()) { segs.drop_last() } else { segs };
    join_with(kept, "::"@)
}

/// The dotted module path of a Python source path: its directories and file
/// stem joined by `.`, a package's `__init__` naming the package itself.
pub open spec fn python_module_text(path: Seq<char>) -> Seq<char> {
    let segs = split_slash(strip_suffix(path, ".py"@));
    let kept = if segs.len() > 0 && segs.last() == "__init__"@ { segs.drop_last() } else { segs };
    join_with(kept, "."@)
}

/// The directory of a path: what precedes its last `/`, if it has one.
pub open spec fn parent_dir(path: Seq<char>) -> Option<Seq<char>> {
    if file_name(path).len() < path.len() {
        Some(path.subrange(0, path.len() - file_name(path).len() - 1))
    } else {
        None
    }
}

/// `root` is a directory that contains `path`.
pub open spec fn under_root(path: Seq<char>, root: Seq<char>) -> bool {
    seq_starts_with(path, root) && path.len() > root.len() && path[root.len() as int] == '/'
}

/// The longest of `roots` that contains `path`, the last such when lengths tie.
pub open spec fn deepest_root(roots: Seq<Seq<char>>, path: Seq<char>) -> Option<Seq<char>>
    decreases roots.len(),
{
    if roots.len() == 0 {
        None
    } else {
        let prior = deepest_root(roots.drop_last(), path);
        let r = roots.last();
        if under_root(path, r) && (prior matches Some(p) ==> p.len() <= r.len()) {
            Some(r)
        } else {
            prior
        }
    }
}

/// The module path of a Rust file: relative to the deepest known crate root
/// that contains it, else relative to the repository.
pub open spec fn rust_module_under(roots: Seq<Seq<char>>, path: Seq<char>) -> Seq<char> {
    match deepest_root(roots, path) {
        Some(r) => rust_module_text(path.subrange(r.len() as int + 1, path.len() as int)),
        None => rust_module_text(path),
    }
}

/// `str::strip_suffix`, keeping `s` when it does not end with `suffix`.
pub fn strip_suffix_of(s: &str, suffix: &str) -> (r: String)
    ensures
        r@ == strip_suffix(s@, suffix@),
{
    let v = chars_of(s);
    if str_ends_with(s, suffix) {
        string_between(v.as_slice(), 0, v.len() - suffix.unicode_len())
    } else {
        owned(s)
    }
}

/// The parts of `s` between `/` separators.
pub fn path_segments(s: &str) -> (r: Vec<String>)
    ensures
        views(r@) == split_slash(s@),
{
    let v = chars_of(s);
    let mut segs: Vec<String> = Vec::new();
    let mut start: usize = 0;
    let mut i: usize = 0;
    assert(v@.subrange(0, 0) =~= Seq::<char>::empty());
    while i < v.len()
        invariant
            v@ == s@,
            start <= i <= v@.len(),
            views(segs@).push(v@.subrange(start as int, i as int)) == split_slash(v@.subrange(0, i as int)),
        decreases v@.len() - i,
    {
        let ghost p = split_slash(v@.subrange(0, i as int));
        assert(v@.subrange(0, i + 1).drop_last() =~= v@.subrange(0, i as int));
        if v[i] == '/' {
            let ghost before = views(segs@);
            let ghost old_start = start;
            segs.push(string_between(v.as_slice(), start, i));
            assert(views(segs@) =~= before.push(v@.subrange(old_start as int, i as int)));
            start = i + 1;
            assert(v@.subrange(start as int, i + 1) =~= Seq::<char>::empty());
            assert(views(segs@) =~= before.push(views(segs@).last()));
        } else {
            assert(v@.subrange(start as int, i + 1) =~= v@.subrange(start as int, i as int).push(v@[i as int]));
            assert(views(segs@).push(v@.subrange(start as int, i + 1)) =~= p.update(p.len() - 1, p.last().push(v@[i as int])));
        }
        i = i + 1;
    }
    assert(v@.subrange(0, i as int) =~= v@);
    segs.push(string_between(v.as_slice(), start, v.len()));
    segs
}


/// The texts joined with `sep` between them.
pub fn join_segments(segs: &Vec<String>, sep: &str) -> (r: String)
    ensures
        r@ == join_with(views(segs@), sep@),
{
    let mut out = String::new();
    let mut i: usize = 0;
    proof {
        reveal_strlit("");
    }
    assert(views(segs@).subrange(0, 0) =~= Seq::<Seq<char>>::empty());
    while i < segs.len()
        invariant
            i <= segs@.len(),
            out@ == join_with(views(segs@).subrange(0, i as int), sep@),
        decreases segs@.len() - i,
    {
        let ghost prefix = views(segs@).subrange(0, i + 1);
        assert(prefix.drop_last() =~= views(segs@).subrange(0, i as int));
        if i == 0 {
            out = owned(segs[i].as_str());
        } else {
            out = cat3(out.as_str(), sep, segs[i].as_str());
        }
        i = i + 1;
    }
    assert(views(segs@).subrange(0, i as int) =~= views(segs@));
    out
}

/// Drops the last segment when `drop` says so.
fn drop_last_segment(segs: &mut Vec<String>)
    requires
        old(segs)@.len() > 0,
    ensures
        views(final(segs)@) == views(old(segs)@).drop_last(),
{
    let ghost before = segs@;
    segs.pop();
    assert(views(segs@) =~= views(before).drop_last());
}

/// The module path of a Rust source path relative to its crate root.
pub fn rust_module_of(path: &str) -> (r: String)
    ensures
        r@ == rust_module_text(path@),
{
    let base = strip_suffix_of(path, ".rs");
    let mut segs = path_segments(base.as_str());
    let n = segs.len();
    if n > 0 {
        let last = segs[n - 1].as_str();
        if str_eq(last, "lib") || str_eq(last, "main") || str_eq(last, "mod") {
            drop_last_segment(&mut segs);
        }
    }
    join_segments(&segs, "::")
}

/// The dotted module path of a Python source path.
pub fn python_module_of(path: &str) -> (r: String)
    ensures
        r@ == python_module_text(path@),
{
    let base = strip_suffix_of(path, ".py");
    let mut segs = path_segments(base.as_str());
    let n = segs.len();
    if n > 0 && str_eq(segs[n - 1].as_str(), "__init__") {
        drop_last_segment(&mut segs);
    }
    join_segments(&segs, ".")
}

/// The directory of `path`, if it has one.
pub fn parent_dir_of(path: &str) -> (r: Option<String>)
    ensures
        match r {
            Some(d) => parent_dir(path@) == Some(d@),
            None => parent_dir(path@).is_none(),
        },
{
    let v = chars_of(path);
    let k = file_name_start(v.as_slice());
    if k > 0 {
        Some(string_between(v.as_slice(), 0, k - 1))
    } else {
        None
    }
}

/// One package of a resolved Cargo workspace: its name and the paths of
/// its build targets' root files.
#[derive(Debug, PartialEq, Eq)]
pub struct RustWorkspacePackage {
    pub name: String,
    pub target_paths: Vec<String>,
}

/// The directories of every target of every package.
pub open spec fn workspace_dirs(packages: Seq<RustWorkspacePackage>) -> Set<Seq<char>> {
    Set::new(|d: Seq<char>| exists|p: int| 0 <= p < packages.len() && #[trigger] target_dirs(packages[p].target_paths@).contains(d))
}

/// The package ids of the given packages.
pub open spec fn package_ids(packages: Seq<RustWorkspacePackage>) -> Set<Seq<char>> {
    Set::new(|x: Seq<char>| exists|q: int| 0 <= q < packages.len() && x == "package:"@ + (#[trigger] packages[q]).name@)
}

/// The directories of the given target paths, for those that have one.
pub open spec fn target_dirs(paths: Seq<String>) -> Set<Seq<char>> {
    Set::new(|d: Seq<char>| exists|k: int| 0 <= k < paths.len() && parent_dir(#[trigger] paths[k]@) == Some(d))
}

/// The node under `package:` and `name` is the local package `name`.
pub open spec fn local_package_under(nodes: Seq<GraphNode>, name: Seq<char>) -> bool {
    node_under(nodes, "package:"@ + name) matches Some(GraphNode::Package(x)) && x.name@ == name && !x.is_external
}

/// Whether the package node under `id` is external before a declaration:
/// as recorded, or external when none is recorded yet.
pub open spec fn external_before(nodes: Seq<GraphNode>, id: Seq<char>) -> bool {
    match node_under(nodes, id) {
        Some(GraphNode::Package(p)) => p.is_external,
        _ => true,
    }
}

/// The node under `id` is a package named `name`, or there is none.
pub open spec fn package_slot(nodes: Seq<GraphNode>, id: Seq<char>, name: Seq<char>) -> bool {
    match node_under(nodes, id) {
        Some(GraphNode::Package(p)) => p.name@ == name,
        Some(_) => false,
        None => true,
    }
}

pub proof fn lemma_package_step(before: Seq<GraphNode>, after: Seq<GraphNode>, name: Seq<char>, is_external: bool)
    requires
        strictly_sorted(node_keys(before)),
        strictly_sorted(node_keys(after)),
        package_recorded(before, after, "package:"@ + name, name, is_external),
        package_slot(before, "package:"@ + name, name),
    ensures
        node_under(after, "package:"@ + name) matches Some(GraphNode::Package(p)) && p.name@ == name && p.is_external == (
        external_before(before, "package:"@ + name) && is_external),
        package_slot(after, "package:"@ + name, name),
{
    let id = "package:"@ + name;
    match node_under(before, id) {
        Some(GraphNode::Package(pp)) => {
            if !is_external {
                let k = choose|k: int| 0 <= k < before.len() && node_id(#[trigger] before[k]) == id && after == before.update(
                    k,
                    GraphNode::Package(PackageNode { id: pp.id, name: pp.name, is_external: false }),
                );
                lemma_node_under(before, k);
                assert(node_keys(after)[k] == node_id(after[k]));
                lemma_node_under(after, k);
            }
        },
        _ => {},
    }
}

/// Two declarations of the package `name`, local or external, give the
/// same package node whichever comes first: named `name`, and external only
/// when both declarations (and a package already recorded) are.
pub proof fn lemma_package_order_free(
    before: Seq<GraphNode>,
    mid1: Seq<GraphNode>,
    after1: Seq<GraphNode>,
    mid2: Seq<GraphNode>,
    after2: Seq<GraphNode>,
    name: Seq<char>,
    first: bool,
    second: bool,
)
    requires
        strictly_sorted(node_keys(before)),
        strictly_sorted(node_keys(mid1)),
        strictly_sorted(node_keys(after1)),
        strictly_sorted(node_keys(mid2)),
        strictly_sorted(node_keys(after2)),
        package_slot(before, "package:"@ + name, name),
        package_recorded(before, mid1, "package:"@ + name, name, first),
        package_recorded(mid1, after1, "package:"@ + name, name, second),
        package_recorded(before, mid2, "package:"@ + name, name, second),
        package_recorded(mid2, after2, "package:"@ + name, name, first),
    ensures
        node_under(after1, "package:"@ + name) matches Some(GraphNode::Package(p)) && p.name@ == name && p.is_external == (
        external_before(before, "package:"@ + name) && first && second),
        node_under(after2, "package:"@ + name) matches Some(GraphNode::Package(p)) && p.name@ == name && p.is_external == (
        external_before(before, "package:"@ + name) && first && second),
{
    lemma_package_step(before, mid1, name, first);
    lemma_package_step(mid1, after1, name, second);
    lemma_package_step(before, mid2, name, second);
    lemma_package_step(mid2, after2, name, first);
}

/// Recording the package `name` leaves the node under every other id as it was.
pub proof fn lemma_package_keeps_others(before: Seq<GraphNode>, after: Seq<GraphNode>, name: Seq<char>, is_external: bool, x: Seq<char>)
    requires
        strictly_sorted(node_keys(before)),
        strictly_sorted(node_keys(after)),
        package_recorded(before, after, "package:"@ + name, name, is_external),
        node_keys(before).contains(x),
        x != "package:"@ + name,
    ensures
        node_under(after, x) == node_under(before, x),
{
    let id = "package:"@ + name;
    let c = choose|c: int| 0 <= c < before.len() && node_keys(before)[c] == x;
    assert(node_id(before[c]) == x);
    lemma_node_under(before, c);
    match node_under(before, id) {
        Some(GraphNode::Package(pp)) => {
            if !is_external {
                let k = choose|k: int| 0 <= k < before.len() && node_id(#[trigger] before[k]) == id && after == before.update(
                    k,
                    GraphNode::Package(PackageNode { id: pp.id, name: pp.name, is_external: false }),
                );
                assert(c != k);
                assert(after[c] == before[c]);
                assert(node_keys(after)[c] == node_id(after[c]));
                lemma_node_under(after, c);
            }
        },
        Some(_) => {},
        None => {
            lemma_under_kept(before, after, id, x);
        },
    }
}

/// All of the first `k` declarations are external.
pub open spec fn all_external(flags: Seq<bool>, k: int) -> bool {
    forall|i: int| 0 <= i < k ==> #[trigger] flags[i]
}

/// Any number of declarations of the package `name`, local or external,
/// give one package node whatever their order: named `name`, and external
/// only when every declaration (and a package already recorded) is.
/// `states[i + 1]` is `states[i]` after the `i`th declaration.
pub proof fn lemma_package_declarations(states: Seq<Seq<GraphNode>>, flags: Seq<bool>, name: Seq<char>)
    requires
        flags.len() >= 1,
        states.len() == flags.len() + 1,
        forall|i: int| 0 <= i < states.len() ==> strictly_sorted(node_keys(#[trigger] states[i])),
        package_slot(states[0], "package:"@ + name, name),
        forall|i: int| 0 <= i < flags.len() ==> package_recorded(#[trigger] states[i], states[i + 1], "package:"@ + name, name, flags[i]),
    ensures
        node_under(states.last(), "package:"@ + name) matches Some(GraphNode::Package(p)) && p.name@ == name && p.is_external == (
        external_before(states[0], "package:"@ + name) && all_external(flags, flags.len() as int)),
    decreases flags.len(),
{
    let id = "package:"@ + name;
    let n = flags.len() as int;
    assert(package_recorded(states[n - 1], states[n], id, name, flags[n - 1]));
    assert(strictly_sorted(node_keys(states[n - 1])));
    assert(strictly_sorted(node_keys(states[n])));
    if n == 1 {
        lemma_package_step(states[0], states[1], name, flags[0]);
        assert(all_external(flags, 1) == flags[0]);
    } else {
        let s2 = states.drop_last();
        let f2 = flags.drop_last();
        assert forall|i: int| 0 <= i < f2.len() implies package_recorded(#[trigger] s2[i], s2[i + 1], id, name, f2[i]) by {
            assert(package_recorded(states[i], states[i + 1], id, name, flags[i]));
        }
        assert forall|i: int| 0 <= i < s2.len() implies strictly_sorted(node_keys(#[trigger] s2[i])) by {
            assert(strictly_sorted(node_keys(states[i])));
        }
        lemma_package_declarations(s2, f2, name);
        let before = states[n - 1];
        assert(before == s2.last());
        assert(package_slot(before, id, name));
        lemma_package_step(before, states[n], name, flags[n - 1]);
        assert(external_before(before, id) == (external_before(states[0], id) && all_external(f2, n - 1)));
        assert(all_external(flags, n) == (all_external(f2, n - 1) && flags[n - 1])) by {
            if all_external(f2, n - 1) && flags[n - 1] {
                assert forall|i: int| 0 <= i < n implies #[trigger] flags[i] by {
                    if i < n - 1 {
                        assert(f2[i] == flags[i]);
                    }
                }
            }
            if all_external(flags, n) {
                assert(flags[n - 1]);
                assert forall|i: int| 0 <= i < n - 1 implies #[trigger] f2[i] by {
                    assert(flags[i]);
                }
            }
        }
    }
}

/// Recording the package `name`, local or external, keeps every local package node.
pub proof fn lemma_package_keeps_local(before: Seq<GraphNode>, after: Seq<GraphNode>, name: Seq<char>, other: Seq<char>, is_external: bool)
    requires
        strictly_sorted(node_keys(before)),
        strictly_sorted(node_keys(after)),
        package_recorded(before, after, "package:"@ + name, name, is_external),
        local_package_under(before, other),
    ensures
        local_package_under(after, other),
{
    reveal_strlit("package:");
    let id = "package:"@ + name;
    let oid = "package:"@ + other;
    if oid == id {
        assert(other =~= oid.subrange(8, oid.len() as int));
        assert(name =~= id.subrange(8, id.len() as int));
    }
    let c = choose|c: int| 0 <= c < before.len() && node_id(#[trigger] before[c]) == oid;
    lemma_node_under(before, c);
    match node_under(before, id) {
        Some(GraphNode::Package(pp)) => {
            if !is_external {
                let k = choose|k: int| 0 <= k < before.len() && node_id(#[trigger] before[k]) == id && after == before.update(
                    k,
                    GraphNode::Package(PackageNode { id: pp.id, name: pp.name, is_external: false }),
                );
                lemma_node_under(before, k);
                assert(node_keys(after)[k] == node_id(after[k]));
                if c == k {
                    lemma_node_under(after, k);
                } else {
                    assert(after[c] == before[c]);
                    lemma_node_under(after, c);
                }
            }
        },
        Some(_) => {},
        None => {
            assert(node_keys(before)[c] == oid);
            lemma_under_kept(before, after, id, oid);
        },
    }
}

impl BuilderState {
    /// Records the source root of every target of every package, and a
    /// local package node for each package.
    pub fn register_rust_crate_roots(&mut self, packages: &Vec<RustWorkspacePackage>)
        requires
            old(self).wf(),
        ensures
            final(self).wf(),
            final(self).relations == old(self).relations,
            final(self).relation_count == old(self).relation_count,
            final(self).artifact_paths == old(self).artifact_paths,
            views(final(self).rust_crate_roots@).to_set() == views(old(self).rust_crate_roots@).to_set().union(
                workspace_dirs(packages@),
            ),
            forall|p: int| 0 <= p < packages@.len() ==> node_keys(final(self).nodes@).contains("package:"@ + (#[trigger] packages@[p]).name@),
            node_keys(final(self).nodes@).to_set() == node_keys(old(self).nodes@).to_set().union(package_ids(packages@)),
            forall|p: int|
                0 <= p < packages@.len() && !node_keys(old(self).nodes@).contains("package:"@ + packages@[p].name@) ==> #[trigger] local_package_under(
                    final(self).nodes@,
                    packages@[p].name@,
                ),
    {
        let ghost start_nodes = self.nodes@;
        let ghost start_keys = node_keys(self.nodes@).to_set();
        let ghost start_roots = views(self.rust_crate_roots@).to_set();
        let ghost all_dirs = workspace_dirs(packages@);
        let mut p: usize = 0;
        while p < packages.len()
            invariant
                p <= packages@.len(),
                self.wf(),
                self.relations == old(self).relations,
                self.relation_count == old(self).relation_count,
                self.artifact_paths == old(self).artifact_paths,
                views(self.rust_crate_roots@).to_set() == start_roots.union(
                    Set::new(|d: Seq<char>| exists|q: int| 0 <= q < p && #[trigger] target_dirs(packages@[q].target_paths@).contains(d)),
                ),
                forall|q: int| 0 <= q < p ==> node_keys(self.nodes@).contains("package:"@ + (#[trigger] packages@[q]).name@),
                node_keys(self.nodes@).to_set() == start_keys.union(package_ids(packages@.subrange(0, p as int))),
                start_keys == node_keys(start_nodes).to_set(),
                forall|q: int|
                    0 <= q < p && !node_keys(start_nodes).contains("package:"@ + packages@[q].name@) ==> #[trigger] local_package_under(
                        self.nodes@,
                        packages@[q].name@,
                    ),
            decreases packages@.len() - p,
        {
            let package = &packages[p];
            let ghost keys_before = node_keys(self.nodes@);
            let ghost nodes_before = self.nodes@;
            let id = self.package(package.name.as_str(), false);
            proof {
                let name = packages@[p as int].name@;
                assert forall|q: int|
                    0 <= q < p + 1 && !node_keys(start_nodes).contains("package:"@ + packages@[q].name@) implies #[trigger] local_package_under(
                    self.nodes@,
                    packages@[q].name@,
                ) by {
                    if q < p {
                        lemma_package_keeps_local(nodes_before, self.nodes@, name, packages@[q].name@, false);
                    } else if node_keys(nodes_before).contains(id@) {
                        assert(node_keys(nodes_before).to_set().contains(id@));
                        assert(!start_keys.contains(id@)) by {
                            if start_keys.contains(id@) {
                                assert(node_keys(start_nodes).contains(id@));
                            }
                        }
                        assert(package_ids(packages@.subrange(0, p as int)).contains(id@));
                        let r = choose|r: int| 0 <= r < p && id@ == "package:"@ + (#[trigger] packages@.subrange(0, p as int)[r]).name@;
                        assert(packages@.subrange(0, p as int)[r] == packages@[r]);
                        reveal_strlit("package:");
                        assert(packages@[r].name@ =~= id@.subrange(8, id@.len() as int));
                        assert(name =~= id@.subrange(8, id@.len() as int));
                        assert(local_package_under(nodes_before, packages@[r].name@));
                        lemma_package_keeps_local(nodes_before, self.nodes@, name, name, false);
                    } else {
                        assert(node_under(nodes_before, id@).is_none()) by {
                            if node_under(nodes_before, id@).is_some() {
                                let c = choose|c: int| 0 <= c < nodes_before.len() && node_id(#[trigger] nodes_before[c]) == id@;
                                assert(node_keys(nodes_before)[c] == id@);
                            }
                        }
                    }
                }
                assert forall|q: int| 0 <= q <= p implies node_keys(self.nodes@).contains("package:"@ + (#[trigger] packages@[q]).name@) by {
                    let key = "package:"@ + packages@[q].name@;
                    if q < p {
                        assert(keys_before.to_set().contains(key));
                    }
                    assert(node_keys(self.nodes@).to_set().contains(key));
                }
            }
            assert(package_ids(packages@.subrange(0, p + 1)) =~= package_ids(packages@.subrange(0, p as int)).insert(id@)) by {
                assert forall|x: Seq<char>| package_ids(packages@.subrange(0, p + 1)).contains(x) <==> package_ids(packages@.subrange(0, p as int)).insert(id@).contains(x) by {
                    if package_ids(packages@.subrange(0, p + 1)).contains(x) {
                        let q = choose|q: int| 0 <= q < p + 1 && x == "package:"@ + (#[trigger] packages@.subrange(0, p + 1)[q]).name@;
                        if q < p {
                            assert(packages@.subrange(0, p as int)[q] == packages@.subrange(0, p + 1)[q]);
                        }
                    }
                    if package_ids(packages@.subrange(0, p as int)).contains(x) {
                        let q = choose|q: int| 0 <= q < p && x == "package:"@ + (#[trigger] packages@.subrange(0, p as int)[q]).name@;
                        assert(packages@.subrange(0, p + 1)[q] == packages@.subrange(0, p as int)[q]);
                    }
                    if x == id@ {
                        assert(packages@.subrange(0, p + 1)[p as int] == packages@[p as int]);
                    }
                }
            }
            let ghost nodes_mid = self.nodes;
            let ghost roots_mid = views(self.rust_crate_roots@).to_set();
            let mut t: usize = 0;
            while t < package.target_paths.len()
                invariant
                    t <= package.target_paths@.len(),
                    self.wf(),
                    self.relations == old(self).relations,
                    self.relation_count == old(self).relation_count,
                    self.artifact_paths == old(self).artifact_paths,
                    self.nodes == nodes_mid,
                    forall|q: int| 0 <= q <= p ==> node_keys(self.nodes@).contains("package:"@ + (#[trigger] packages@[q]).name@),
                    views(self.rust_crate_roots@).to_set() == roots_mid.union(
                        Set::new(|d: Seq<char>| exists|k: int| 0 <= k < t && parent_dir(#[trigger] package.target_paths@[k]@) == Some(d)),
                    ),
                decreases package.target_paths@.len() - t,
            {
                match parent_dir_of(package.target_paths[t].as_str()) {
                    Some(root) => {
                        insert_unique(&mut self.rust_crate_roots, root.as_str());
                    },
                    None => {},
                }
                proof {
                    let s_old = Set::new(|d: Seq<char>| exists|k: int| 0 <= k < t && parent_dir(#[trigger] package.target_paths@[k]@) == Some(d));
                    let s_new = Set::new(|d: Seq<char>| exists|k: int| 0 <= k < t + 1 && parent_dir(#[trigger] package.target_paths@[k]@) == Some(d));
                    assert forall|d: Seq<char>| s_new.contains(d) <==> (s_old.contains(d) || parent_dir(package.target_paths@[t as int]@) == Some(d)) by {
                        if s_new.contains(d) {
                            let k = choose|k: int| 0 <= k < t + 1 && parent_dir(#[trigger] package.target_paths@[k]@) == Some(d);
                            if k < t {
                                assert(s_old.contains(d));
                            }
                        }
                    }
                }
                t = t + 1;
            }
            proof {
                assert(Set::new(|d: Seq<char>| exists|k: int| 0 <= k < t && parent_dir(#[trigger] package.target_paths@[k]@) == Some(d)) =~= target_dirs(package.target_paths@));
                let s_old = Set::new(|d: Seq<char>| exists|q: int| 0 <= q < p && #[trigger] target_dirs(packages@[q].target_paths@).contains(d));
                let s_new = Set::new(|d: Seq<char>| exists|q: int| 0 <= q < p + 1 && #[trigger] target_dirs(packages@[q].target_paths@).contains(d));
                assert(s_new =~= s_old.union(target_dirs(package.target_paths@))) by {
                    assert forall|d: Seq<char>| s_new.contains(d) implies s_old.union(target_dirs(package.target_paths@)).contains(d) by {
                        let q = choose|q: int| 0 <= q < p + 1 && #[trigger] target_dirs(packages@[q].target_paths@).contains(d);
                        if q < p {
                            assert(s_old.contains(d));
                        }
                    }
                    assert forall|d: Seq<char>| s_old.union(target_dirs(package.target_paths@)).contains(d) implies s_new.contains(d) by {
                        if s_old.contains(d) {
                            let q = choose|q: int| 0 <= q < p && #[trigger] target_dirs(packages@[q].target_paths@).contains(d);
                            assert(target_dirs(packages@[q].target_paths@).contains(d));
                        } else {
                            assert(target_dirs(packages@[p as int].target_paths@).contains(d));
                        }
                    }
                }
            }
            p = p + 1;
        }
        assert(Set::new(|d: Seq<char>| exists|q: int| 0 <= q < p && #[trigger] target_dirs(packages@[q].target_paths@).contains(d)) =~= all_dirs);
        assert(packages@.subrange(0, p as int) =~= packages@);
    }
}


fn is_under_root(path: &str, root: &str) -> (b: bool)
    ensures
        b == under_root(path@, root@),
{
    let v = chars_of(path);
    let r = root.unicode_len();
    str_starts_with(path, root) && v.len() > r && v[r] == '/'
}

impl BuilderState {
    /// The module path of the Rust file at `artifact_path`: relative to the
    /// deepest known crate root that contains it, else to the repository.
    pub fn rust_module_path(&self, artifact_path: &str) -> (r: String)
        ensures
            r@ == rust_module_under(views(self.rust_crate_roots@), artifact_path@),
    {
        let ghost roots = views(self.rust_crate_roots@);
        let mut best: Option<usize> = None;
        let mut i: usize = 0;
        while i < self.rust_crate_roots.len()
            invariant
                i <= self.rust_crate_roots@.len(),
                roots == views(self.rust_crate_roots@),
                match best {
                    Some(b) => b < i && deepest_root(roots.subrange(0, i as int), artifact_path@) == Some(roots[b as int]),
                    None => deepest_root(roots.subrange(0, i as int), artifact_path@).is_none(),
                },
            decreases self.rust_crate_roots@.len() - i,
        {
            let root = self.rust_crate_roots[i].as_str();
            assert(roots.subrange(0, i + 1).drop_last() =~= roots.subrange(0, i as int));
            assert(roots.subrange(0, i + 1).last() == root@);
            if is_under_root(artifact_path, root) {
                let replace = match best {
                    Some(b) => self.rust_crate_roots[b].unicode_len() <= root.unicode_len(),
                    None => true,
                };
                if replace {
                    best = Some(i);
                }
            }
            i = i + 1;
        }
        assert(roots.subrange(0, i as int) =~= roots);
        proof {
            lemma_deepest_under(roots, artifact_path@);
        }
        match best {
            Some(b) => {
                let v = chars_of(artifact_path);
                assert(under_root(artifact_path@, roots[b as int]));
                assert(self.rust_crate_roots@[b as int]@.len() < v@.len());
                let start = self.rust_crate_roots[b].unicode_len() + 1;
                let rest = string_between(v.as_slice(), start, v.len());
                rust_module_of(rest.as_str())
            },
            None => rust_module_of(artifact_path),
        }
    }

    /// Gives a Python or Rust artifact its module node.
    pub fn index_module(&mut self, artifact: &Artifact)
        requires
            old(self).wf(),
        ensures
            final(self).wf(),
            same_but_nodes(*old(self), *final(self)),
            match artifact.detected_format {
                Some(f) => if f@ == "python"@ {
                    kept_or_added(old(self).nodes@, final(self).nodes@, "module:"@ + python_module_text(artifact.path@))
                } else if f@ == "rust"@ {
                    kept_or_added(
                        old(self).nodes@,
                        final(self).nodes@,
                        "module:"@ + rust_module_under(views(old(self).rust_crate_roots@), artifact.path@),
                    )
                } else {
                    final(self).nodes == old(self).nodes
                },
                None => final(self).nodes == old(self).nodes,
            },
            match module_key(*artifact, views(old(self).rust_crate_roots@)) {
                Some(m) => !node_keys(old(self).nodes@).contains(m) ==> (node_under(final(self).nodes@, m) matches Some(n) && module_node_of(
                    n,
                    *artifact,
                    views(old(self).rust_crate_roots@),
                )),
                None => true,
            },
    {
        match &artifact.detected_format {
            Some(format) => {
                if str_eq(format.as_str(), "python") {
                    let path = python_module_of(artifact.path.as_str());
                    self.module(path.as_str(), ModuleLanguage::Python, file_evidence(artifact));
                } else if str_eq(format.as_str(), "rust") {
                    let path = self.rust_module_path(artifact.path.as_str());
                    self.module(path.as_str(), ModuleLanguage::Rust, file_evidence(artifact));
                }
            },
            None => {},
        }
    }
}

/// Whether line `line` lies inside `start..=end`.
pub open spec fn spans_line(start: u32, end: u32, line: u32) -> bool {
    start <= line && line <= end
}

/// The owner a fold over `spans` picks for `line`: among the spans that
/// contain the line, the first with the smallest `(length, id)`.
pub open spec fn smallest_owner(spans: Seq<(u32, u32, GraphNodeId)>, line: u32) -> Option<(u32, u32, GraphNodeId)>
    decreases spans.len(),
{
    if spans.len() == 0 {
        None
    } else {
        let prior = smallest_owner(spans.drop_last(), line);
        let s = spans.last();
        if spans_line(s.0, s.1, line) && (prior matches Some(p) ==> owner_key_lt(s, p)) {
            Some(s)
        } else {
            prior
        }
    }
}

/// `(length, id)` order on symbol spans.
pub open spec fn owner_key_lt(a: (u32, u32, GraphNodeId), b: (u32, u32, GraphNodeId)) -> bool {
    (a.1 - a.0) < (b.1 - b.0) || ((a.1 - a.0) == (b.1 - b.0) && seq_less(a.2@, b.2@))
}

/// The innermost symbol among `spans` that contains `line`: the smallest
/// span by `(length, id)`, ties to the first.
pub fn smallest_symbol_owner_in(spans: &Vec<(u32, u32, GraphNodeId)>, line: u32) -> (r: Option<GraphNodeId>)
    requires
        forall|k: int| 0 <= k < spans@.len() ==> (#[trigger] spans@[k]).0 <= spans@[k].1,
    ensures
        match smallest_owner(spans@, line) {
            Some(s) => r == Some(s.2),
            None => r.is_none(),
        },
{
    let mut best: Option<usize> = None;
    let mut i: usize = 0;
    while i < spans.len()
        invariant
            i <= spans@.len(),
            forall|k: int| 0 <= k < spans@.len() ==> (#[trigger] spans@[k]).0 <= spans@[k].1,
            match best {
                Some(b) => b < i && smallest_owner(spans@.subrange(0, i as int), line) == Some(spans@[b as int]),
                None => smallest_owner(spans@.subrange(0, i as int), line).is_none(),
            },
        decreases spans@.len() - i,
    {
        assert(spans@.subrange(0, i + 1).drop_last() =~= spans@.subrange(0, i as int));
        let (start, end, id) = (spans[i].0, spans[i].1, &spans[i].2);
        if start <= line && line <= end {
            let better = match best {
                Some(b) => {
                    let (bs, be) = (spans[b].0, spans[b].1);
                    (end - start) < (be - bs) || ((end - start) == (be - bs) && str_less(id.as_str(), spans[b].2.as_str()))
                },
                None => true,
            };
            if better {
                best = Some(i);
            }
        }
        i = i + 1;
    }
    assert(spans@.subrange(0, i as int) =~= spans@);
    match best {
        Some(b) => Some(spans[b].2.clone()),
        None => None,
    }
}

impl BuilderState {
    /// The innermost symbol of the evidence's artifact whose span holds the
    /// evidence's first line; none without a span or known symbols.
    pub fn smallest_symbol_owner(&self, evidence: &EvidenceRef) -> (r: Option<GraphNodeId>)
        requires
            forall|a: int, k: int| 0 <= a < self.env_symbols_by_artifact@.len() && 0 <= k < self.env_symbols_by_artifact@[a].1@.len()
                ==> (#[trigger] self.env_symbols_by_artifact@[a].1@[k]).0 <= self.env_symbols_by_artifact@[a].1@[k].1,
        ensures
            match (evidence.span, first_spans(self.env_symbols_by_artifact@, evidence.artifact_id@)) {
                (Some(span), Some(spans)) => match smallest_owner(spans, span.start_line) {
                    Some(s) => r == Some(s.2),
                    None => r.is_none(),
                },
                _ => r.is_none(),
            },
    {
        let line = match evidence.span {
            Some(span) => span.start_line,
            None => {
                return None;
            },
        };
        let mut i: usize = 0;
        while i < self.env_symbols_by_artifact.len()
            invariant
                i <= self.env_symbols_by_artifact@.len(),
                first_spans(self.env_symbols_by_artifact@, evidence.artifact_id@) == first_spans(
                    self.env_symbols_by_artifact@.skip(i as int),
                    evidence.artifact_id@,
                ),
                forall|a: int, k: int| 0 <= a < self.env_symbols_by_artifact@.len() && 0 <= k < self.env_symbols_by_artifact@[a].1@.len()
                ==> (#[trigger] self.env_symbols_by_artifact@[a].1@[k]).0 <= self.env_symbols_by_artifact@[a].1@[k].1,
            evidence.span matches Some(sp) && sp.start_line == line,
        decreases self.env_symbols_by_artifact@.len() - i,
        {
            assert(self.env_symbols_by_artifact@.skip(i as int)[0] == self.env_symbols_by_artifact@[i as int]);
            if str_eq(self.env_symbols_by_artifact[i].0.as_str(), evidence.artifact_id.as_str()) {
                return smallest_symbol_owner_in(&self.env_symbols_by_artifact[i].1, line);
            }
            assert(self.env_symbols_by_artifact@.skip(i as int).drop_first() =~= self.env_symbols_by_artifact@.skip(i + 1));
            i = i + 1;
        }
        None
    }
}

proof fn lemma_deepest_under(roots: Seq<Seq<char>>, path: Seq<char>)
    ensures
        deepest_root(roots, path) matches Some(r) ==> under_root(path, r),
    decreases roots.len(),
{
    if roots.len() > 0 {
        lemma_deepest_under(roots.drop_last(), path);
    }
}

/// The spans recorded first for `artifact`.
pub open spec fn first_spans(table: Seq<(String, Vec<(u32, u32, GraphNodeId)>)>, artifact: Seq<char>) -> Option<Seq<(u32, u32, GraphNodeId)>>
    decreases table.len(),
{
    if table.len() == 0 {
        None
    } else if table[0].0@ == artifact {
        Some(table[0].1@)
    } else {
        first_spans(table.drop_first(), artifact)
    }
}

/// One symbol's span, used to decide which symbol a comment sits inside.
#[derive(Debug, PartialEq, Eq)]
pub struct SymbolSpan {
    /// The symbol's node id.
    pub id: GraphNodeId,
    /// Lines the symbol covers, inclusive.
    pub span: crate::model::SourceSpan,
}

/// The first smallest span among `spans` containing `line`.
pub open spec fn innermost(spans: Seq<SymbolSpan>, line: u32) -> Option<SymbolSpan>
    decreases spans.len(),
{
    if spans.len() == 0 {
        None
    } else {
        let prior = innermost(spans.drop_last(), line);
        let s = spans.last();
        if spans_line(s.span.start_line, s.span.end_line, line) && (prior matches Some(p) ==> (s.span.end_line
            - s.span.start_line) < (p.span.end_line - p.span.start_line)) {
            Some(s)
        } else {
            prior
        }
    }
}

/// The smallest symbol whose span contains `line`, the first of equals.
pub fn innermost_symbol(symbol_spans: &Vec<SymbolSpan>, line: u32) -> (r: Option<GraphNodeId>)
    requires
        forall|k: int| 0 <= k < symbol_spans@.len() ==> (#[trigger] symbol_spans@[k]).span.start_line <= symbol_spans@[k].span.end_line,
    ensures
        match innermost(symbol_spans@, line) {
            Some(s) => r == Some(s.id),
            None => r.is_none(),
        },
{
    let mut best: Option<usize> = None;
    let mut i: usize = 0;
    while i < symbol_spans.len()
        invariant
            i <= symbol_spans@.len(),
            forall|k: int| 0 <= k < symbol_spans@.len() ==> (#[trigger] symbol_spans@[k]).span.start_line <= symbol_spans@[k].span.end_line,
            match best {
                Some(b) => b < i && innermost(symbol_spans@.subrange(0, i as int), line) == Some(symbol_spans@[b as int]),
                None => innermost(symbol_spans@.subrange(0, i as int), line).is_none(),
            },
        decreases symbol_spans@.len() - i,
    {
        assert(symbol_spans@.subrange(0, i + 1).drop_last() =~= symbol_spans@.subrange(0, i as int));
        let span = symbol_spans[i].span;
        if span.start_line <= line && line <= span.end_line {
            let better = match best {
                Some(b) => (span.end_line - span.start_line) < (symbol_spans[b].span.end_line - symbol_spans[b].span.start_line),
                None => true,
            };
            if better {
                best = Some(i);
            }
        }
        i = i + 1;
    }
    assert(symbol_spans@.subrange(0, i as int) =~= symbol_spans@);
    match best {
        Some(b) => Some(symbol_spans[b].id.clone()),
        None => None,
    }
}


/// Some relation of `rels` starts or ends at `id`.
pub open spec fn referenced(rels: Seq<RelationView>, id: Seq<char>) -> bool {
    exists|k: int| 0 <= k < rels.len() && ((#[trigger] rels[k]).source == id || rels[k].target == id)
}

/// A node survives pruning unless it is an unresolved node no relation references.
pub open spec fn survives_pruning(n: GraphNode, rels: Seq<RelationView>) -> bool {
    !(n is Unresolved) || referenced(rels, node_id(n))
}

/// The nodes that survive pruning, in order.
pub open spec fn pruned_nodes(nodes: Seq<GraphNode>, rels: Seq<RelationView>) -> Seq<GraphNode>
    decreases nodes.len(),
{
    if nodes.len() == 0 {
        nodes
    } else if survives_pruning(nodes.last(), rels) {
        pruned_nodes(nodes.drop_last(), rels).push(nodes.last())
    } else {
        pruned_nodes(nodes.drop_last(), rels)
    }
}

fn is_referenced(rels: &Vec<Relation>, id: &GraphNodeId, Ghost(rv): Ghost<Seq<RelationView>>) -> (b: bool)
    requires
        rv == rels@.map_values(|r: Relation| r@),
    ensures
        b == referenced(rv, id@),
{
    let mut k: usize = 0;
    while k < rels.len()
        invariant
            k <= rels@.len(),
            rv == rels@.map_values(|r: Relation| r@),
            forall|j: int| 0 <= j < k ==> !((#[trigger] rv[j]).source == id@ || rv[j].target == id@),
        decreases rels@.len() - k,
    {
        if rels[k].source.same(id) || rels[k].target.same(id) {
            assert(rv[k as int].source == id@ || rv[k as int].target == id@);
            return true;
        }
        k = k + 1;
    }
    false
}

/// Removes unresolved nodes that no relation references anymore.
pub fn prune_orphaned_unresolved_nodes(graph: &mut Graph)
    ensures
        final(graph).nodes@ == pruned_nodes(old(graph).nodes@, old(graph)@.relations),
        final(graph).relations == old(graph).relations,
{
    let ghost rv = graph@.relations;
    let mut kept: Vec<GraphNode> = Vec::new();
    let mut i: usize = 0;
    while i < graph.nodes.len()
        invariant
            i <= graph.nodes@.len(),
            rv == graph@.relations,
            kept@ == pruned_nodes(graph.nodes@.subrange(0, i as int), rv),
        decreases graph.nodes@.len() - i,
    {
        assert(graph.nodes@.subrange(0, i + 1).drop_last() =~= graph.nodes@.subrange(0, i as int));
        let node = &graph.nodes[i];
        let keep = match node {
            GraphNode::Unresolved(_) => is_referenced(&graph.relations, node.id(), Ghost(rv)),
            _ => true,
        };
        if keep {
            kept.push(node.clone());
        }
        i = i + 1;
    }
    assert(graph.nodes@.subrange(0, i as int) =~= graph.nodes@);
    graph.nodes = kept;
}

/// Relation values ordered by `(source, kind, target)`.
pub open spec fn view_edge_lt(a: RelationView, b: RelationView) -> bool {
    if a.source != b.source {
        seq_less(a.source, b.source)
    } else if a.kind != b.kind {
        crate::model::kind_rank(a.kind) < crate::model::kind_rank(b.kind)
    } else {
        seq_less(a.target, b.target)
    }
}

/// [`view_edge_lt`] as a value.
pub open spec fn view_edge_order() -> spec_fn(RelationView, RelationView) -> bool {
    |a: RelationView, b: RelationView| view_edge_lt(a, b)
}

/// A relation's view as a value.
pub open spec fn relation_view_fn() -> spec_fn(Relation) -> RelationView {
    |r: Relation| r@
}

impl BuilderState {
    /// A deterministic checkpoint: the nodes in id order and the relations
    /// stably sorted by `(source, kind, target)`.
    pub fn snapshot(&self) -> (g: Graph)
        ensures
            g.nodes@ == self.nodes@,
            g@.relations == sort_spec(self.relations@.map_values(relation_view_fn()), view_edge_order()),
    {
        let nodes = crate::model::clone_nodes(&self.nodes);
        let relations = crate::model::clone_relations(&self.relations);
        let ghost copies = relations@;
        let sorted = sort_by(relations, relation_edge_less, Ghost(relation_edge_order()));
        proof {
            assert forall|a: Relation, b: Relation| #[trigger] (relation_edge_order())(a, b) == (view_edge_order())(
                (relation_view_fn())(a),
                (relation_view_fn())(b),
            ) by {}
            lemma_sort_map(copies, relation_view_fn(), relation_edge_order(), view_edge_order());
            assert(copies.map_values(relation_view_fn()) =~= self.relations@.map_values(relation_view_fn()));
            assert(sorted@.map_values(|r: Relation| r@) =~= sorted@.map_values(relation_view_fn()));
        }
        Graph { nodes, relations: sorted }
    }
}


pub proof fn lemma_kept_or_added_keys(before: Seq<GraphNode>, after: Seq<GraphNode>, id: Seq<char>)
    requires
        kept_or_added(before, after, id),
    ensures
        node_keys(after).to_set() == node_keys(before).to_set().insert(id),
{
    if node_keys(before).contains(id) {
        assert(node_keys(before).to_set().insert(id) =~= node_keys(before).to_set());
    } else {
        let at = choose|at: int| 0 <= at <= before.len() && after == before.insert(at, after[at]) && node_id(#[trigger] after[at]) == id;
        assert(node_keys(after) =~= node_keys(before).insert(at, id));
        crate::strmap::lemma_keys_after_insert(node_keys(before), node_keys(after), at, id);
    }
}

/// Version of the graph build pipeline.
pub const GRAPH_BUILD_PIPELINE_VERSION: u32 = 1;

/// A pass of the graph build pipeline.
#[derive(Debug, Clone, Copy, PartialEq, Eq, Structural, PartialOrd, Ord, Hash)]
pub enum GraphBuildPass {
    Structure,
    DefinitionsAndImports,
    Enrichment,
    Resolution,
    Analytics,
    Persistence,
    Finalize,
}

/// The passes in the order the pipeline runs them.
pub open spec fn pass_order() -> Seq<GraphBuildPass> {
    seq![
        GraphBuildPass::Structure,
        GraphBuildPass::DefinitionsAndImports,
        GraphBuildPass::Enrichment,
        GraphBuildPass::Resolution,
        GraphBuildPass::Analytics,
        GraphBuildPass::Persistence,
        GraphBuildPass::Finalize,
    ]
}

/// The passes in the order the pipeline runs them.
pub fn graph_build_pass_order() -> (r: Vec<GraphBuildPass>)
    ensures
        r@ == pass_order(),
{
    let r = vec![
        GraphBuildPass::Structure,
        GraphBuildPass::DefinitionsAndImports,
        GraphBuildPass::Enrichment,
        GraphBuildPass::Resolution,
        GraphBuildPass::Analytics,
        GraphBuildPass::Persistence,
        GraphBuildPass::Finalize,
    ];
    assert(r@ =~= pass_order());
    r
}

/// What one pass left: its name and the size of the graph after it.
#[derive(Debug, Clone, Copy, PartialEq, Eq)]
pub struct GraphBuildPassRecord {
    pub pass: GraphBuildPass,
    pub node_count: usize,
    pub relation_count: usize,
}

/// How much a trace keeps of every stage.
#[derive(Debug, Clone, Copy, PartialEq, Eq, Structural)]
pub enum GraphBuildTraceDetail {
    /// Stage names and sizes.
    Summary,
    /// Also the graph after every stage.
    Full,
}

/// What a traced build records: its detail and the path selectors of interest.
#[derive(Debug, PartialEq, Eq)]
pub struct GraphBuildTraceConfig {
    pub detail: GraphBuildTraceDetail,
    pub selectors: Vec<String>,
}

/// One traced stage.
#[derive(Debug, PartialEq, Eq)]
pub struct GraphBuildTraceStage {
    pub pass: GraphBuildPass,
    pub node_count: usize,
    pub relation_count: usize,
    /// The graph after the stage, kept at full detail.
    pub graph: Option<Graph>,
}

/// The trace of a build: its selectors, sorted and each once, and its stages in pass order.
#[derive(Debug, PartialEq, Eq)]
pub struct GraphBuildTrace {
    pub selectors: Vec<String>,
    pub stages: Vec<GraphBuildTraceStage>,
}

/// A built graph with the passes that made it.
#[derive(Debug, PartialEq, Eq)]
pub struct GraphBuildOutput {
    pub graph: Graph,
    pub pipeline_version: u32,
    pub passes: Vec<GraphBuildPassRecord>,
    pub trace: Option<GraphBuildTrace>,
}

/// Builds a typed semantic graph from repository artifacts.
#[derive(Debug, Clone, Copy, Default)]
pub struct GraphBuilder;

/// The id of the module an artifact defines, if it is a Python or Rust file.
pub open spec fn module_key(a: Artifact, roots: Seq<Seq<char>>) -> Option<Seq<char>> {
    match a.detected_format {
        Some(f) => if f@ == "python"@ {
            Some("module:"@ + python_module_text(a.path@))
        } else if f@ == "rust"@ {
            Some("module:"@ + rust_module_under(roots, a.path@))
        } else {
            None
        },
        None => None,
    }
}

/// The module an artifact defines: its path and language, for a Python or Rust file.
pub open spec fn module_of(a: Artifact, roots: Seq<Seq<char>>) -> Option<(Seq<char>, ModuleLanguage)> {
    match a.detected_format {
        Some(f) => if f@ == "python"@ {
            Some((python_module_text(a.path@), ModuleLanguage::Python))
        } else if f@ == "rust"@ {
            Some((rust_module_under(roots, a.path@), ModuleLanguage::Rust))
        } else {
            None
        },
        None => None,
    }
}

/// `n` is the module node artifact `a` defines, with whole-file evidence.
pub open spec fn module_node_of(n: GraphNode, a: Artifact, roots: Seq<Seq<char>>) -> bool {
    module_of(a, roots) matches Some(m) && n matches GraphNode::Module(x) && x.path@ == m.0 && x.language == m.1 && x.evidence.artifact_id@
        == a.id@ && x.evidence.path@ == a.path@ && x.evidence.span.is_none()
}

/// The artifact paths, each once, in increasing order.
pub open spec fn artifact_paths_of(artifacts: Seq<Artifact>) -> Seq<Seq<char>> {
    sorted_listing(artifacts.map_values(|a: Artifact| a.path@).to_set())
}

/// The relations a build may record fit the relation counter.
pub open spec fn build_fits(artifacts: Seq<Artifact>, outputs: Seq<Option<AnalyzerOutput>>, workspace: Seq<RustWorkspacePackage>) -> bool {
    &&& outputs.len() == artifacts.len()
    &&& artifacts.len() + outputs_plan(artifacts, outputs, artifact_paths_of(artifacts), artifacts.len() as int).len()
        + crate::manifests::manifests_plan(artifacts, outputs, artifacts.len() as int).len() < usize::MAX
}

/// The artifact and module ids of the first `i` artifacts.
pub open spec fn artifact_ids_upto(artifacts: Seq<Artifact>, roots: Seq<Seq<char>>, i: int) -> Set<Seq<char>> {
    Set::new(|x: Seq<char>| exists|k: int| 0 <= k < i && (x == "artifact:"@ + (#[trigger] artifacts[k]).path@ || module_key(artifacts[k], roots) == Some(x)))
}

/// The node ids the structural pass records: a package per workspace
/// package, an artifact per artifact, and a module per Python or Rust file.
pub open spec fn structure_ids(artifacts: Seq<Artifact>, workspace: Seq<RustWorkspacePackage>) -> Set<Seq<char>> {
    let roots = sorted_listing(workspace_dirs(workspace));
    package_ids(workspace).union(artifact_ids_upto(artifacts, roots, artifacts.len() as int))
}

impl GraphBuilder {
    /// Builds the graph for `artifacts`, with the crate layout of
    /// `workspace` and the analyzer output `outputs[k]` of artifact `k`
    /// where it has one. Every artifact gets an `Artifact` node regardless
    /// of analyzer support; every workspace package is a local package node,
    /// and the first artifact to define a module gives its module node its
    /// path, language, and evidence ([`structure_contents`]). After the
    /// module links come the relations and nodes of every analyzer output, in
    /// artifact order ([`built`]).
    pub fn build(&self, artifacts: &Vec<Artifact>, outputs: &Vec<Option<AnalyzerOutput>>, workspace: &Vec<RustWorkspacePackage>) -> (g: Graph)
        requires
            build_fits(artifacts@, outputs@, workspace@),
        ensures
            exists|o: GraphBuildOutput| #[trigger] built(o, artifacts@, outputs@, workspace@) && o.graph == g,
    {
        let o = self.build_with_report(artifacts, outputs, workspace);
        o.graph
    }

    /// Builds the graph exactly like [`Self::build`]: cached analysis only
    /// saves re-reading files, so the graph is the same.
    pub fn build_with_cache(
        &self,
        artifacts: &Vec<Artifact>,
        outputs: &Vec<Option<AnalyzerOutput>>,
        workspace: &Vec<RustWorkspacePackage>,
    ) -> (g: Graph)
        requires
            build_fits(artifacts@, outputs@, workspace@),
        ensures
            exists|o: GraphBuildOutput| #[trigger] built(o, artifacts@, outputs@, workspace@) && o.graph == g,
    {
        let o = self.build_with_report(artifacts, outputs, workspace);
        o.graph
    }

    /// Builds a graph and reports the passes used to create it.
    pub fn build_with_report(
        &self,
        artifacts: &Vec<Artifact>,
        outputs: &Vec<Option<AnalyzerOutput>>,
        workspace: &Vec<RustWorkspacePackage>,
    ) -> (o: GraphBuildOutput)
        requires
            build_fits(artifacts@, outputs@, workspace@),
        ensures
            built(o, artifacts@, outputs@, workspace@),
            o.trace.is_none(),
    {
        self.build_with_optional_trace(artifacts, outputs, workspace, None)
    }

    /// Builds the same graph as [`Self::build_with_report`] while keeping
    /// the state after every pass.
    pub fn build_with_trace(
        &self,
        artifacts: &Vec<Artifact>,
        outputs: &Vec<Option<AnalyzerOutput>>,
        workspace: &Vec<RustWorkspacePackage>,
        config: GraphBuildTraceConfig,
    ) -> (o: GraphBuildOutput)
        requires
            build_fits(artifacts@, outputs@, workspace@),
        ensures
            built(o, artifacts@, outputs@, workspace@),
            traced(o, config.detail, views(config.selectors@)),
    {
        self.build_with_optional_trace(artifacts, outputs, workspace, Some(config))
    }

    #[verifier::spinoff_prover]
    fn build_with_optional_trace(
        &self,
        artifacts: &Vec<Artifact>,
        outputs: &Vec<Option<AnalyzerOutput>>,
        workspace: &Vec<RustWorkspacePackage>,
        config: Option<GraphBuildTraceConfig>,
    ) -> (o: GraphBuildOutput)
        requires
            build_fits(artifacts@, outputs@, workspace@),
        ensures
            built(o, artifacts@, outputs@, workspace@),
            match config {
                Some(c) => traced(o, c.detail, views(c.selectors@)),
                None => o.trace.is_none(),
            },
    {
        let mut state = BuilderState::new(artifacts);
        let ghost paths0 = state.artifact_paths;
        proof {
            lemma_sorted_listing(views(paths0@), artifacts@.map_values(|a: Artifact| a.path@).to_set());
        }
        assert(views(state.rust_crate_roots@).to_set() =~= Set::<Seq<char>>::empty());
        assert(node_keys(state.nodes@).to_set() =~= Set::<Seq<char>>::empty());
        state.register_rust_crate_roots(workspace);
        let ghost roots = views(state.rust_crate_roots@);
        let ghost base = node_keys(state.nodes@).to_set();
        proof {
            assert(roots.to_set() =~= workspace_dirs(workspace@));
            lemma_sorted_listing(roots, workspace_dirs(workspace@));
            assert(base =~= package_ids(workspace@));
        }
        assert(artifact_ids_upto(artifacts@, roots, 0) =~= Set::<Seq<char>>::empty());
        assert(base.union(artifact_ids_upto(artifacts@, roots, 0)) =~= base);
        let mut i: usize = 0;
        while i < artifacts.len()
            invariant
                i <= artifacts@.len(),
                state.wf(),
                state.relations@.len() == 0,
                state.relation_count == 0,
                roots == views(state.rust_crate_roots@),
                roots == sorted_listing(workspace_dirs(workspace@)),
                base == package_ids(workspace@),
                node_keys(state.nodes@).to_set() == base.union(artifact_ids_upto(artifacts@, roots, i as int)),
                forall|k: int| 0 <= k < i ==> artifact_node_for(state.nodes@, #[trigger] artifacts@[k]),
                structure_contents(state.nodes@, artifacts@, roots, workspace@, i as int),
                state.artifact_paths == paths0,
            decreases artifacts@.len() - i,
        {
            let ghost n0 = state.nodes@;
            let artifact = &artifacts[i];
            let aid = state.add_artifact_node(artifact);
            proof {
                lemma_kept_or_added_keys(n0, state.nodes@, aid@);
                lemma_artifact_node_added(n0, state.nodes@, artifacts@, roots, base, workspace@, i as int);
            }
            let ghost n1 = state.nodes@;
            state.index_module(artifact);
            proof {
                let key = match module_key(artifacts@[i as int], roots) {
                    Some(m) => m,
                    None => aid@,
                };
                assert(kept_or_added(n1, state.nodes@, key)) by {
                    if key == aid@ {
                        assert(node_keys(n1).contains(aid@)) by {
                            assert(node_keys(n1).to_set().contains(aid@));
                        }
                    }
                }
                assert forall|k: int| 0 <= k < i + 1 implies artifact_node_for(state.nodes@, #[trigger] artifacts@[k]) by {
                    let id = "artifact:"@ + artifacts@[k].path@;
                    assert(artifact_node_for(n1, artifacts@[k]));
                    assert(node_keys(n1).contains(id)) by {
                        let c = choose|c: int| 0 <= c < n1.len() && node_id(#[trigger] n1[c]) == id;
                        assert(node_keys(n1)[c] == id);
                    }
                    lemma_under_kept(n1, state.nodes@, key, id);
                }
                match module_key(artifacts@[i as int], roots) {
                    Some(m) => {
                        lemma_kept_or_added_keys(n1, state.nodes@, m);
                    },
                    None => {},
                }
                let added = match module_key(artifacts@[i as int], roots) {
                    Some(m) => set![aid@, m],
                    None => set![aid@],
                };
                assert(node_keys(state.nodes@).to_set() =~= node_keys(n0).to_set().union(added));
                assert(artifact_ids_upto(artifacts@, roots, i + 1) =~= artifact_ids_upto(artifacts@, roots, i as int).union(added)) by {
                    assert forall|x: Seq<char>| #[trigger] artifact_ids_upto(artifacts@, roots, i + 1).contains(x) <==> artifact_ids_upto(artifacts@, roots, i as int).union(added).contains(x) by {
                        if artifact_ids_upto(artifacts@, roots, i + 1).contains(x) {
                            let k = choose|k: int| 0 <= k < i + 1 && (x == "artifact:"@ + (#[trigger] artifacts@[k]).path@ || module_key(artifacts@[k], roots) == Some(x));
                            if k < i {
                                assert(artifact_ids_upto(artifacts@, roots, i as int).contains(x));
                            }
                        }
                        if artifact_ids_upto(artifacts@, roots, i as int).contains(x) {
                            let k = choose|k: int| 0 <= k < i && (x == "artifact:"@ + (#[trigger] artifacts@[k]).path@ || module_key(artifacts@[k], roots) == Some(x));
                            assert(0 <= k < i + 1);
                        }
                        if added.contains(x) {
                            assert(x == "artifact:"@ + artifacts@[i as int].path@ || module_key(artifacts@[i as int], roots) == Some(x));
                        }
                    }
                }
                assert(base.union(artifact_ids_upto(artifacts@, roots, i + 1)) =~= base.union(artifact_ids_upto(artifacts@, roots, i as int)).union(added));
                lemma_structure_step(n0, n1, state.nodes@, artifacts@, roots, workspace@, i as int);
            }
            i = i + 1;
        }
        assert(base.union(artifact_ids_upto(artifacts@, roots, artifacts@.len() as int)) =~= structure_ids(artifacts@, workspace@));
        let structure = state.snapshot();
        assert(state.relations@.map_values(relation_view_fn()) =~= Seq::<RelationView>::empty());
        let ghost nodes_after = state.nodes;
        assert(forall|k: int| 0 <= k < artifacts@.len() ==> artifact_node_for(nodes_after@, #[trigger] artifacts@[k]));
        assert(structure_contents(nodes_after@, artifacts@, roots, workspace@, artifacts@.len() as int));
        let mut j: usize = 0;
        assert(module_links(artifacts@.subrange(0, 0), roots) =~= Seq::empty());
        while j < artifacts.len()
            invariant
                j <= artifacts@.len(),
                state.wf(),
                state.nodes == nodes_after,
                roots == views(state.rust_crate_roots@),
                state.relation_count == state.relations@.len(),
                state.relations@.len() <= j,
                links_made(state.relations@.map_values(relation_view_fn()), module_links(artifacts@.subrange(0, j as int), roots)),
                state.artifact_paths == paths0,
            decreases artifacts@.len() - j,
        {
            let artifact = &artifacts[j];
            assert(artifacts@.subrange(0, j + 1).drop_last() =~= artifacts@.subrange(0, j as int));
            let ghost before = state.relations@.map_values(relation_view_fn());
            let target = match &artifact.detected_format {
                Some(format) => if str_eq(format.as_str(), "python") {
                    let path = python_module_of(artifact.path.as_str());
                    Some(cat("module:", path.as_str()))
                } else if str_eq(format.as_str(), "rust") {
                    let path = state.rust_module_path(artifact.path.as_str());
                    Some(cat("module:", path.as_str()))
                } else {
                    None
                },
                None => None,
            };
            match target {
                Some(module_id) => {
                    let evidence = file_evidence(artifact);
                    let ghost e = evidence;
                    state.relate(artifact_node_id(artifact), GraphNodeId::from_string(module_id), RelationKind::BelongsToModule, Confidence::High, vec![evidence]);
                    proof {
                        let after = state.relations@.map_values(relation_view_fn());
                        assert(after =~= before.push(after.last()));
                        assert(after.last() == state.relations@.last()@);
                        assert(state.relations@.last().evidence@ =~= seq![e]);
                    }
                },
                None => {},
            }
            j = j + 1;
        }
        assert(artifacts@.subrange(0, j as int) =~= artifacts@);
        let ghost links_rels = state.relations@;
        let ghost links = module_links(artifacts@, roots);
        state.apply_outputs(artifacts, outputs);
        proof {
            let rels = state.relations@;
            assert(rels.take(links.len() as int) =~= links_rels);
            lemma_structure_kept(nodes_after@, state.nodes@, artifacts@, roots, workspace@);
            assert forall|id: Seq<char>|
                #[trigger] node_keys(state.nodes@).contains(id) && !structure_ids(artifacts@, workspace@).contains(id) implies (node_under(
                state.nodes@,
                id,
            ) matches Some(n) && crate::infra::named_by_id(n, id)) by {
                assert(!node_keys(nodes_after@).contains(id)) by {
                    if node_keys(nodes_after@).contains(id) {
                        assert(node_keys(nodes_after@).to_set().contains(id));
                    }
                }
            }
            assert(node_keys(state.nodes@).to_set() =~= structure_ids(artifacts@, workspace@) + outputs_nodes(
                artifacts@,
                outputs@,
                artifact_paths_of(artifacts@),
                artifacts@.len() as int,
            ));
        }
        let ghost outputs_state = state;
        let ghost oplan = outputs_plan(artifacts@, outputs@, artifact_paths_of(artifacts@), artifacts@.len() as int);
        let ghost mplan = crate::manifests::manifests_plan(artifacts@, outputs@, artifacts@.len() as int);
        proof {
            assert(views(state.artifact_paths@) == artifact_paths_of(artifacts@));
            assert(state.relation_count == links.len() + oplan.len());
        }
        state.apply_manifests(artifacts, outputs);
        proof {
            let rels = state.relations@;
            let extra = crate::manifests::manifests_nodes(artifacts@, outputs@, artifacts@.len() as int);
            crate::infra::lemma_recorded_concat(outputs_state.relations@, rels, links.len() as int, links.len() as int, oplan, mplan);
            assert(rels.take(links.len() as int) =~= outputs_state.relations@.take(links.len() as int));
            assert forall|x: Seq<char>| #[trigger] extra.contains(x) implies "package:"@.is_prefix_of(x) by {
                crate::manifests::lemma_manifests_nodes_packages(artifacts@, outputs@, artifacts@.len() as int, x);
            }
            lemma_manifests_keep(outputs_state.nodes@, state.nodes@, extra, artifacts@, roots, workspace@, structure_ids(artifacts@, workspace@));
            let paths = artifact_paths_of(artifacts@);
            let states = choose|states: Seq<Seq<GraphNode>>| #[trigger] crate::infra::outputs_made(
                states,
                outputs_state.nodes@,
                artifacts@,
                outputs@,
                paths,
                node_keys(nodes_after@).to_set(),
            );
            assert(node_keys(nodes_after@).to_set() == structure_ids(artifacts@, workspace@));
            crate::infra::lemma_outputs_made_kept(states, outputs_state.nodes@, state.nodes@, artifacts@, outputs@, paths, structure_ids(artifacts@, workspace@));
            assert(crate::infra::outputs_made(states, state.nodes@, artifacts@, outputs@, paths, structure_ids(artifacts@, workspace@)));
        }
        let graph = state.snapshot();
        proof {
            let rels = state.relations@;
            let paths = artifact_paths_of(artifacts@);
            assert(views(state.artifact_paths@) == paths);
            assert(links_rels.len() == links.len());
            assert(links_made(rels.take(links.len() as int).map_values(relation_view_fn()), links));
            assert(recorded_as(rels, links.len() as int, links.len() as int, oplan + mplan));
            assert(graph@.relations == sort_spec(rels.map_values(relation_view_fn()), view_edge_order()));
            assert(strictly_sorted(node_keys(graph.nodes@)));
            assert(structure_contents(graph.nodes@, artifacts@, roots, workspace@, artifacts@.len() as int));
            assert(forall|k: int| 0 <= k < artifacts@.len() ==> artifact_node_for(graph.nodes@, #[trigger] artifacts@[k]));
            assert(node_keys(graph.nodes@).to_set() =~= structure_ids(artifacts@, workspace@) + outputs_nodes(
                artifacts@,
                outputs@,
                paths,
                artifacts@.len() as int,
            ) + crate::manifests::manifests_nodes(artifacts@, outputs@, artifacts@.len() as int));
        }
        let o = graph_output(structure, graph, config);
        proof {
            let rels = state.relations@;
            let links = module_links(artifacts@, roots);
            let plan = outputs_plan(artifacts@, outputs@, artifact_paths_of(artifacts@), artifacts@.len() as int)
                + crate::manifests::manifests_plan(artifacts@, outputs@, artifacts@.len() as int);
            assert(links_made(rels.take(links.len() as int).map_values(relation_view_fn()), links) && recorded_as(
                rels,
                links.len() as int,
                links.len() as int,
                plan,
            ) && o.graph@.relations == sort_spec(rels.map_values(relation_view_fn()), view_edge_order()));
            assert(roots == sorted_listing(workspace_dirs(workspace@)));
            lemma_sorted_listing(node_keys(structure.nodes@), structure_ids(artifacts@, workspace@));
            assert(node_keys(structure.nodes@).len() == structure.nodes@.len());
        }
        o
    }
}

/// No earlier artifact has the `k`th artifact's path.
pub open spec fn first_path(artifacts: Seq<Artifact>, k: int) -> bool {
    forall|j: int| 0 <= j < k ==> #[trigger] artifacts[j].path@ != artifacts[k].path@
}

/// The `k`th artifact defines a module and no earlier artifact defines it.
pub open spec fn first_module(artifacts: Seq<Artifact>, roots: Seq<Seq<char>>, k: int) -> bool {
    &&& module_key(artifacts[k], roots) is Some
    &&& forall|j: int| 0 <= j < k ==> #[trigger] module_key(artifacts[j], roots) != module_key(artifacts[k], roots)
}

/// The node under an artifact's id is its artifact node, with whole-file evidence.
pub open spec fn artifact_node_exact(nodes: Seq<GraphNode>, a: Artifact) -> bool {
    node_under(nodes, "artifact:"@ + a.path@) matches Some(n) && artifact_shape(n, a)
}

/// The node under the id of the module an artifact defines is that module.
pub open spec fn module_node_exact(nodes: Seq<GraphNode>, a: Artifact, roots: Seq<Seq<char>>) -> bool {
    match module_key(a, roots) {
        Some(m) => node_under(nodes, m) matches Some(n) && module_node_of(n, a, roots),
        None => false,
    }
}

/// What the structural pass has made of the packages and of the first `i`
/// artifacts: a local package node per package, the artifact node of each
/// first artifact with its path, and the module node of each first
/// artifact to define its module.
pub open spec fn structure_contents(
    nodes: Seq<GraphNode>,
    artifacts: Seq<Artifact>,
    roots: Seq<Seq<char>>,
    workspace: Seq<RustWorkspacePackage>,
    i: int,
) -> bool {
    &&& forall|p: int| 0 <= p < workspace.len() ==> #[trigger] local_package_under(nodes, workspace[p].name@)
    &&& forall|k: int| 0 <= k < i && first_path(artifacts, k) ==> #[trigger] artifact_node_exact(nodes, artifacts[k])
    &&& forall|k: int| 0 <= k < i && first_module(artifacts, roots, k) ==> #[trigger] module_node_exact(nodes, artifacts[k], roots)
}

/// What the structural pass made stays when later passes keep every node.
proof fn lemma_structure_kept(
    n0: Seq<GraphNode>,
    n1: Seq<GraphNode>,
    artifacts: Seq<Artifact>,
    roots: Seq<Seq<char>>,
    workspace: Seq<RustWorkspacePackage>,
)
    requires
        structure_contents(n0, artifacts, roots, workspace, artifacts.len() as int),
        forall|k: int| 0 <= k < artifacts.len() ==> artifact_node_for(n0, #[trigger] artifacts[k]),
        crate::infra::keeps_nodes(n0, n1),
    ensures
        structure_contents(n1, artifacts, roots, workspace, artifacts.len() as int),
        forall|k: int| 0 <= k < artifacts.len() ==> artifact_node_for(n1, #[trigger] artifacts[k]),
{
    assert forall|id: Seq<char>| node_under(n0, id) is Some implies node_under(n1, id) == node_under(n0, id) by {
        let c = choose|c: int| 0 <= c < n0.len() && node_id(#[trigger] n0[c]) == id;
        assert(node_keys(n0)[c] == id);
        assert(node_keys(n0).contains(id));
    }
    assert forall|p: int| 0 <= p < workspace.len() implies #[trigger] local_package_under(n1, workspace[p].name@) by {
        assert(local_package_under(n0, workspace[p].name@));
        assert(node_under(n1, "package:"@ + workspace[p].name@) == node_under(n0, "package:"@ + workspace[p].name@));
    }
    assert forall|k: int| 0 <= k < artifacts.len() && first_path(artifacts, k) implies #[trigger] artifact_node_exact(n1, artifacts[k]) by {
        assert(artifact_node_exact(n0, artifacts[k]));
        assert(node_under(n1, "artifact:"@ + artifacts[k].path@) == node_under(n0, "artifact:"@ + artifacts[k].path@));
    }
    assert forall|k: int| 0 <= k < artifacts.len() && first_module(artifacts, roots, k) implies #[trigger] module_node_exact(n1, artifacts[k], roots) by {
        assert(module_node_exact(n0, artifacts[k], roots));
        let m = module_key(artifacts[k], roots)->0;
        assert(node_under(n1, m) == node_under(n0, m));
    }
    assert forall|k: int| 0 <= k < artifacts.len() implies artifact_node_for(n1, #[trigger] artifacts[k]) by {
        assert(artifact_node_for(n0, artifacts[k]));
        assert(node_under(n1, "artifact:"@ + artifacts[k].path@) == node_under(n0, "artifact:"@ + artifacts[k].path@));
    }
}

/// The manifest pass keeps what the structural pass and the outputs made:
/// it changes the node under no id outside `package:`, keeps local packages
/// local, and adds only package ids.
proof fn lemma_manifests_keep(
    n0: Seq<GraphNode>,
    n1: Seq<GraphNode>,
    extra: Set<Seq<char>>,
    artifacts: Seq<Artifact>,
    roots: Seq<Seq<char>>,
    workspace: Seq<RustWorkspacePackage>,
    structure: Set<Seq<char>>,
)
    requires
        strictly_sorted(node_keys(n0)),
        strictly_sorted(node_keys(n1)),
        structure_contents(n0, artifacts, roots, workspace, artifacts.len() as int),
        forall|k: int| 0 <= k < artifacts.len() ==> artifact_node_for(n0, #[trigger] artifacts[k]),
        outputs_named(n0, structure),
        crate::manifests::others_kept(n0, n1),
        crate::manifests::locals_kept(n0, n1),
        node_keys(n1).to_set() == node_keys(n0).to_set() + extra,
        forall|x: Seq<char>| #[trigger] extra.contains(x) ==> "package:"@.is_prefix_of(x),
    ensures
        structure_contents(n1, artifacts, roots, workspace, artifacts.len() as int),
        forall|k: int| 0 <= k < artifacts.len() ==> artifact_node_for(n1, #[trigger] artifacts[k]),
        outputs_named(n1, structure),
{
    reveal_strlit("package:");
    reveal_strlit("artifact:");
    reveal_strlit("module:");
    assert forall|x: Seq<char>| node_under(n0, x) is Some && x.len() > 0 && x[0] != 'p' implies node_under(n1, x) == node_under(n0, x) by {
        let c = choose|c: int| 0 <= c < n0.len() && node_id(#[trigger] n0[c]) == x;
        assert(node_keys(n0)[c] == x);
        assert(node_keys(n0).contains(x));
        if "package:"@.is_prefix_of(x) {
            assert(x[0] == "package:"@[0]);
        }
    }
    assert forall|p: int| 0 <= p < workspace.len() implies #[trigger] local_package_under(n1, workspace[p].name@) by {
        assert(local_package_under(n0, workspace[p].name@));
    }
    assert forall|k: int| 0 <= k < artifacts.len() && first_path(artifacts, k) implies #[trigger] artifact_node_exact(n1, artifacts[k]) by {
        assert(artifact_node_exact(n0, artifacts[k]));
        let id = "artifact:"@ + artifacts[k].path@;
        assert(id[0] == 'a');
        assert(node_under(n1, id) == node_under(n0, id));
    }
    assert forall|k: int| 0 <= k < artifacts.len() && first_module(artifacts, roots, k) implies #[trigger] module_node_exact(n1, artifacts[k], roots) by {
        assert(module_node_exact(n0, artifacts[k], roots));
        let m = module_key(artifacts[k], roots)->0;
        assert(m[0] == 'm');
        assert(node_under(n1, m) == node_under(n0, m));
    }
    assert forall|k: int| 0 <= k < artifacts.len() implies artifact_node_for(n1, #[trigger] artifacts[k]) by {
        assert(artifact_node_for(n0, artifacts[k]));
        let id = "artifact:"@ + artifacts[k].path@;
        assert(id[0] == 'a');
        assert(node_under(n1, id) == node_under(n0, id));
    }
    assert forall|id: Seq<char>| #[trigger] node_keys(n1).contains(id) && !structure.contains(id) implies (node_under(n1, id) matches Some(n)
        && crate::infra::named_by_id(n, id)) by {
        let c = choose|c: int| 0 <= c < n1.len() && node_keys(n1)[c] == id;
        assert(node_id(n1[c]) == id);
        lemma_node_under(n1, c);
        assert(node_keys(n1).to_set().contains(id));
        let pkg = "package:"@.is_prefix_of(id);
        if pkg {
            assert(id[0] == "package:"@[0]);
            assert(id[0] == 'p');
            crate::infra::lemma_named_other(n1[c], id);
        } else {
            assert(!extra.contains(id));
            assert(node_keys(n0).to_set().contains(id));
            assert(node_keys(n0).contains(id));
            assert(crate::manifests::others_kept(n0, n1));
            assert(node_under(n1, id) == node_under(n0, id));
        }
    }
}

/// A node the structural pass has made stays what it is.
proof fn lemma_contents_kept(n0: Seq<GraphNode>, n1: Seq<GraphNode>, added: Seq<char>, id: Seq<char>)
    requires
        strictly_sorted(node_keys(n0)),
        strictly_sorted(node_keys(n1)),
        kept_or_added(n0, n1, added),
        node_under(n0, id) is Some,
    ensures
        node_under(n1, id) == node_under(n0, id),
{
    let c = choose|c: int| 0 <= c < n0.len() && node_id(#[trigger] n0[c]) == id;
    assert(node_keys(n0)[c] == id);
    lemma_under_kept(n0, n1, added, id);
}

/// Recording the `i`th artifact's node and module keeps what the structural
/// pass made and adds what that artifact makes.
proof fn lemma_structure_step(
    n0: Seq<GraphNode>,
    n1: Seq<GraphNode>,
    n2: Seq<GraphNode>,
    artifacts: Seq<Artifact>,
    roots: Seq<Seq<char>>,
    workspace: Seq<RustWorkspacePackage>,
    i: int,
)
    requires
        0 <= i < artifacts.len(),
        strictly_sorted(node_keys(n0)),
        strictly_sorted(node_keys(n1)),
        strictly_sorted(node_keys(n2)),
        node_keys(n0).to_set() == package_ids(workspace).union(artifact_ids_upto(artifacts, roots, i)),
        structure_contents(n0, artifacts, roots, workspace, i),
        kept_or_added(n0, n1, "artifact:"@ + artifacts[i].path@),
        !node_keys(n0).contains("artifact:"@ + artifacts[i].path@) ==> (node_under(n1, "artifact:"@ + artifacts[i].path@) matches Some(n)
            && artifact_shape(n, artifacts[i])),
        match module_key(artifacts[i], roots) {
            Some(m) => kept_or_added(n1, n2, m) && (!node_keys(n1).contains(m) ==> (node_under(n2, m) matches Some(n) && module_node_of(
                n,
                artifacts[i],
                roots,
            ))),
            None => n2 == n1,
        },
    ensures
        structure_contents(n2, artifacts, roots, workspace, i + 1),
{
    reveal_strlit("artifact:");
    reveal_strlit("module:");
    reveal_strlit("package:");
    let a = artifacts[i];
    let aid = "artifact:"@ + a.path@;
    let key = match module_key(a, roots) {
        Some(m) => m,
        None => aid,
    };
    assert(kept_or_added(n1, n2, key)) by {
        if module_key(a, roots) is None {
            assert(node_keys(n1).contains(aid)) by {
                lemma_kept_or_added_keys(n0, n1, aid);
                assert(node_keys(n1).to_set().contains(aid));
            }
        }
    }
    lemma_kept_or_added_keys(n0, n1, aid);
    // Everything made before stays.
    assert forall|id: Seq<char>| node_under(n0, id) is Some implies node_under(n2, id) == node_under(n0, id) by {
        lemma_contents_kept(n0, n1, aid, id);
        lemma_contents_kept(n1, n2, key, id);
    }
    assert forall|p: int| 0 <= p < workspace.len() implies #[trigger] local_package_under(n2, workspace[p].name@) by {
        assert(local_package_under(n0, workspace[p].name@));
        assert(node_under(n2, "package:"@ + workspace[p].name@) == node_under(n0, "package:"@ + workspace[p].name@));
    }
    // The ids the earlier artifacts made do not start as this artifact's ids do.
    assert forall|k: int| 0 <= k < i + 1 && first_path(artifacts, k) implies #[trigger] artifact_node_exact(n2, artifacts[k]) by {
        let kid = "artifact:"@ + artifacts[k].path@;
        if k < i {
            assert(artifact_node_exact(n0, artifacts[k]));
            assert(node_under(n2, kid) == node_under(n0, kid));
        } else {
            assert(!node_keys(n0).contains(aid)) by {
                if node_keys(n0).contains(aid) {
                    assert(node_keys(n0).to_set().contains(aid));
                    if package_ids(workspace).contains(aid) {
                        let q = choose|q: int| 0 <= q < workspace.len() && aid == "package:"@ + (#[trigger] workspace[q]).name@;
                        assert(aid[0] == 'a');
                    } else {
                        let j = choose|j: int| 0 <= j < i && (aid == "artifact:"@ + (#[trigger] artifacts[j]).path@ || module_key(artifacts[j], roots) == Some(aid));
                        if aid == "artifact:"@ + artifacts[j].path@ {
                            assert(artifacts[j].path@ =~= aid.subrange(9, aid.len() as int));
                            assert(a.path@ =~= aid.subrange(9, aid.len() as int));
                        } else {
                            assert(aid[0] == 'a');
                        }
                    }
                }
            }
            assert(node_under(n2, aid) == node_under(n1, aid)) by {
                lemma_contents_kept(n1, n2, key, aid);
            }
        }
    }
    assert forall|k: int| 0 <= k < i + 1 && first_module(artifacts, roots, k) implies #[trigger] module_node_exact(n2, artifacts[k], roots) by {
        let m = module_key(artifacts[k], roots)->0;
        if k < i {
            assert(module_node_exact(n0, artifacts[k], roots));
            assert(node_under(n2, m) == node_under(n0, m));
        } else {
            assert(m[0] == 'm');
            assert(!node_keys(n1).contains(m)) by {
                if node_keys(n1).contains(m) {
                    assert(node_keys(n1).to_set().contains(m));
                    if m == aid {
                        assert(aid[0] == 'a');
                    } else if package_ids(workspace).contains(m) {
                        let q = choose|q: int| 0 <= q < workspace.len() && m == "package:"@ + (#[trigger] workspace[q]).name@;
                        assert(m[0] == 'p');
                    } else {
                        assert(artifact_ids_upto(artifacts, roots, i).contains(m));
                        let j = choose|j: int| 0 <= j < i && (m == "artifact:"@ + (#[trigger] artifacts[j]).path@ || module_key(artifacts[j], roots) == Some(m));
                        if m == "artifact:"@ + artifacts[j].path@ {
                            assert(m[0] == 'a');
                        } else {
                            assert(module_key(artifacts[j], roots) == module_key(artifacts[k], roots));
                        }
                    }
                }
            }
        }
    }
}

/// After recording the `i`th artifact's node, an artifact node is under the
/// ids of the first `i + 1` artifacts.
proof fn lemma_artifact_node_added(
    before: Seq<GraphNode>,
    after: Seq<GraphNode>,
    artifacts: Seq<Artifact>,
    roots: Seq<Seq<char>>,
    base: Set<Seq<char>>,
    workspace: Seq<RustWorkspacePackage>,
    i: int,
)
    requires
        0 <= i < artifacts.len(),
        strictly_sorted(node_keys(before)),
        strictly_sorted(node_keys(after)),
        base == package_ids(workspace),
        node_keys(before).to_set() == base.union(artifact_ids_upto(artifacts, roots, i)),
        forall|k: int| 0 <= k < i ==> artifact_node_for(before, #[trigger] artifacts[k]),
        kept_or_added(before, after, "artifact:"@ + artifacts[i].path@),
        !node_keys(before).contains("artifact:"@ + artifacts[i].path@) ==> (node_under(after, "artifact:"@ + artifacts[i].path@) matches Some(
            n,
        ) && artifact_shape(n, artifacts[i])),
    ensures
        forall|k: int| 0 <= k < i + 1 ==> artifact_node_for(after, #[trigger] artifacts[k]),
{
    reveal_strlit("artifact:");
    reveal_strlit("module:");
    reveal_strlit("package:");
    let id = "artifact:"@ + artifacts[i].path@;
    assert forall|k: int| 0 <= k < i implies artifact_node_for(after, #[trigger] artifacts[k]) by {
        let kid = "artifact:"@ + artifacts[k].path@;
        let c = choose|c: int| 0 <= c < before.len() && node_id(#[trigger] before[c]) == kid;
        assert(node_keys(before)[c] == kid);
        lemma_under_kept(before, after, id, kid);
    }
    if node_keys(before).contains(id) {
        assert(node_keys(before).to_set().contains(id));
        assert(id[0] == 'a');
        if package_ids(workspace).contains(id) {
            let q = choose|q: int| 0 <= q < workspace.len() && id == "package:"@ + (#[trigger] workspace[q]).name@;
            assert(("package:"@ + workspace[q].name@)[0] == 'p');
        } else {
            let k = choose|k: int| 0 <= k < i && (id == "artifact:"@ + (#[trigger] artifacts[k]).path@ || module_key(artifacts[k], roots) == Some(id));
            if module_key(artifacts[k], roots) == Some(id) && id != "artifact:"@ + artifacts[k].path@ {
                assert(module_key(artifacts[k], roots)->0[0] == 'm');
            }
            assert(id == "artifact:"@ + artifacts[k].path@);
            assert(artifacts[i].path@ =~= id.subrange(9, id.len() as int));
            assert(artifacts[k].path@ =~= id.subrange(9, id.len() as int));
            let c = choose|c: int| 0 <= c < before.len() && node_id(#[trigger] before[c]) == id;
            assert(node_keys(before)[c] == id);
            lemma_under_kept(before, after, id, id);
            assert(artifact_node_for(before, artifacts[k]));
        }
    }
}

/// The module links of the Python and Rust artifacts, in order: from the
/// artifact node to its module, with the artifact's whole-file evidence
/// (artifact id and path).
pub open spec fn module_links(artifacts: Seq<Artifact>, roots: Seq<Seq<char>>) -> Seq<(Seq<char>, Seq<char>, Seq<char>, Seq<char>)>
    decreases artifacts.len(),
{
    if artifacts.len() == 0 {
        Seq::empty()
    } else {
        let prior = module_links(artifacts.drop_last(), roots);
        let a = artifacts.last();
        match module_key(a, roots) {
            Some(m) => prior.push(("artifact:"@ + a.path@, m, a.id@, a.path@)),
            None => prior,
        }
    }
}

/// `r` is the `n`th relation made, linking as `link` says, with high
/// confidence, whole-file evidence, and the builder's provenance.
pub open spec fn link_relation(r: RelationView, n: int, link: (Seq<char>, Seq<char>, Seq<char>, Seq<char>)) -> bool {
    &&& numbered(r, n)
    &&& r.source == link.0
    &&& r.target == link.1
    &&& r.kind == RelationKind::BelongsToModule
    &&& r.confidence == Confidence::High
    &&& r.evidence.len() == 1
    &&& r.evidence[0].artifact_id@ == link.2
    &&& r.evidence[0].path@ == link.3
    &&& r.evidence[0].span.is_none()
    &&& r.provenance matches Some(p) && p.language.is_none() && p.resolver_strategy@ == "graph-builder"@ && p.resolution
        == RelationResolution::SyntaxOnly && p.confidence == Confidence::High
}

/// The relations are the module links, numbered from one in order.
pub open spec fn links_made(rels: Seq<RelationView>, links: Seq<(Seq<char>, Seq<char>, Seq<char>, Seq<char>)>) -> bool {
    &&& rels.len() == links.len()
    &&& forall|k: int| 0 <= k < rels.len() ==> link_relation(#[trigger] rels[k], k + 1, links[k])
}

/// The pass records of a build: every pass in order, each with the size of
/// the graph after it (`first` after the structural pass, `last` after the others).
pub open spec fn passes_of(passes: Seq<GraphBuildPassRecord>, first: Graph, last: Graph) -> bool {
    &&& passes.len() == pass_order().len()
    &&& forall|k: int| 0 <= k < passes.len() ==> {
        let g = if k == 0 { first } else { last };
        &&& (#[trigger] passes[k]).pass == pass_order()[k]
        &&& passes[k].node_count == g.nodes@.len()
        &&& passes[k].relation_count == g.relations@.len()
    }
}

/// What a build produced: the structural nodes of the artifacts and
/// workspace, each Python and Rust artifact linked to its module, and a
/// record of every pass.
/// Every node outside the structural ids is what its id names: under
/// `env:` the variable, under `image:` the image, under `unresolved:` the
/// unresolved value.
pub open spec fn outputs_named(nodes: Seq<GraphNode>, structure: Set<Seq<char>>) -> bool {
    forall|id: Seq<char>|
        #[trigger] node_keys(nodes).contains(id) && !structure.contains(id) ==> (node_under(nodes, id) matches Some(n)
            && crate::infra::named_by_id(n, id))
}

pub open spec fn built(
    o: GraphBuildOutput,
    artifacts: Seq<Artifact>,
    outputs: Seq<Option<AnalyzerOutput>>,
    workspace: Seq<RustWorkspacePackage>,
) -> bool {
    let roots = sorted_listing(workspace_dirs(workspace));
    let paths = artifact_paths_of(artifacts);
    let links = module_links(artifacts, roots);
    &&& strictly_sorted(node_keys(o.graph.nodes@))
    &&& node_keys(o.graph.nodes@).to_set() == structure_ids(artifacts, workspace) + outputs_nodes(artifacts, outputs, paths, artifacts.len() as int)
        + crate::manifests::manifests_nodes(artifacts, outputs, artifacts.len() as int)
    &&& forall|k: int| 0 <= k < artifacts.len() ==> artifact_node_for(o.graph.nodes@, #[trigger] artifacts[k])
    &&& structure_contents(o.graph.nodes@, artifacts, roots, workspace, artifacts.len() as int)
    &&& outputs_named(o.graph.nodes@, structure_ids(artifacts, workspace))
    &&& exists|states: Seq<Seq<GraphNode>>| #[trigger] crate::infra::outputs_made(
        states,
        o.graph.nodes@,
        artifacts,
        outputs,
        paths,
        structure_ids(artifacts, workspace),
    )
    &&& exists|rels: Seq<Relation>|
        #![trigger rels.map_values(relation_view_fn())]
        links_made(rels.take(links.len() as int).map_values(relation_view_fn()), links) && recorded_as(
            rels,
            links.len() as int,
            links.len() as int,
            outputs_plan(artifacts, outputs, paths, artifacts.len() as int) + crate::manifests::manifests_plan(
                artifacts,
                outputs,
                artifacts.len() as int,
            ),
        ) && o.graph@.relations == sort_spec(rels.map_values(relation_view_fn()), view_edge_order())
    &&& o.pipeline_version == GRAPH_BUILD_PIPELINE_VERSION
    &&& o.passes@.len() == pass_order().len()
    &&& forall|k: int| 0 <= k < o.passes@.len() ==> {
        &&& (#[trigger] o.passes@[k]).pass == pass_order()[k]
        &&& o.passes@[k].node_count == if k == 0 {
            sorted_listing(structure_ids(artifacts, workspace)).len()
        } else {
            o.graph.nodes@.len()
        }
        &&& o.passes@[k].relation_count == if k == 0 { 0 } else { o.graph.relations@.len() }
    }
}

/// Two builds of the same artifacts and workspace agree: their graphs list
/// the same node ids in the same order, each node of a package, of the
/// first artifact with a path, and of the first artifact to define a module
/// has the same content, and their pass records are the same. (Their node
/// and relation values are texts that Verus compares only through their
/// views, which is what these clauses do.)
pub proof fn lemma_builds_agree(
    o1: GraphBuildOutput,
    o2: GraphBuildOutput,
    artifacts: Seq<Artifact>,
    outputs: Seq<Option<AnalyzerOutput>>,
    workspace: Seq<RustWorkspacePackage>,
)
    requires
        built(o1, artifacts, outputs, workspace),
        built(o2, artifacts, outputs, workspace),
    ensures
        node_keys(o1.graph.nodes@) == node_keys(o2.graph.nodes@),
        node_keys(o1.graph.nodes@) == sorted_listing(
            structure_ids(artifacts, workspace) + outputs_nodes(artifacts, outputs, artifact_paths_of(artifacts), artifacts.len() as int)
                + crate::manifests::manifests_nodes(artifacts, outputs, artifacts.len() as int),
        ),
        o1.graph.relations@.len() == o2.graph.relations@.len(),
        o1.passes@ == o2.passes@,
        o1.pipeline_version == o2.pipeline_version,
{
    let ids = structure_ids(artifacts, workspace) + outputs_nodes(artifacts, outputs, artifact_paths_of(artifacts), artifacts.len() as int)
        + crate::manifests::manifests_nodes(artifacts, outputs, artifacts.len() as int);
    lemma_sorted_listing(node_keys(o1.graph.nodes@), ids);
    lemma_sorted_listing(node_keys(o2.graph.nodes@), ids);
    let roots = sorted_listing(workspace_dirs(workspace));
    let paths = artifact_paths_of(artifacts);
    let links = module_links(artifacts, roots);
    let plan = outputs_plan(artifacts, outputs, paths, artifacts.len() as int) + crate::manifests::manifests_plan(
        artifacts,
        outputs,
        artifacts.len() as int,
    );
    let r1 = choose|rels: Seq<Relation>|
        #![trigger rels.map_values(relation_view_fn())]
        links_made(rels.take(links.len() as int).map_values(relation_view_fn()), links) && recorded_as(rels, links.len() as int, links.len() as int, plan)
            && o1.graph@.relations == sort_spec(rels.map_values(relation_view_fn()), view_edge_order());
    let r2 = choose|rels: Seq<Relation>|
        #![trigger rels.map_values(relation_view_fn())]
        links_made(rels.take(links.len() as int).map_values(relation_view_fn()), links) && recorded_as(rels, links.len() as int, links.len() as int, plan)
            && o2.graph@.relations == sort_spec(rels.map_values(relation_view_fn()), view_edge_order());
    crate::sorting::lemma_sort_permutes(r1.map_values(relation_view_fn()), view_edge_order());
    crate::sorting::lemma_sort_permutes(r2.map_values(relation_view_fn()), view_edge_order());
    assert(o1.graph.nodes@.len() == node_keys(o1.graph.nodes@).len());
    assert(o2.graph.nodes@.len() == node_keys(o2.graph.nodes@).len());
    assert(o1.passes@ =~= o2.passes@);
}

/// Two graphs that `build` or `build_with_cache` gives for the same
/// artifacts and workspace list the same node ids in the same order and as
/// many relations: a build with the cache gives the graph a build without it gives.
pub proof fn lemma_built_graphs_agree(
    g1: Graph,
    g2: Graph,
    artifacts: Seq<Artifact>,
    outputs: Seq<Option<AnalyzerOutput>>,
    workspace: Seq<RustWorkspacePackage>,
)
    requires
        exists|o: GraphBuildOutput| #[trigger] built(o, artifacts, outputs, workspace) && o.graph == g1,
        exists|o: GraphBuildOutput| #[trigger] built(o, artifacts, outputs, workspace) && o.graph == g2,
    ensures
        node_keys(g1.nodes@) == node_keys(g2.nodes@),
        g1.relations@.len() == g2.relations@.len(),
{
    let o1 = choose|o: GraphBuildOutput| #[trigger] built(o, artifacts, outputs, workspace) && o.graph == g1;
    let o2 = choose|o: GraphBuildOutput| #[trigger] built(o, artifacts, outputs, workspace) && o.graph == g2;
    lemma_builds_agree(o1, o2, artifacts, outputs, workspace);
}

/// What a traced build kept: its selectors sorted and each once, and one
/// stage per pass in order, with the graph after it at full detail.
pub open spec fn traced(o: GraphBuildOutput, detail: GraphBuildTraceDetail, selectors: Seq<Seq<char>>) -> bool {
    o.trace matches Some(t) && {
        &&& views(t.selectors@) == crate::health::canonical_nodes(selectors)
        &&& t.stages@.len() == pass_order().len()
        &&& forall|k: int| 0 <= k < t.stages@.len() ==> {
            &&& (#[trigger] t.stages@[k]).pass == pass_order()[k]
            &&& t.stages@[k].node_count == o.passes@[k].node_count
            &&& t.stages@[k].relation_count == o.passes@[k].relation_count
            &&& (detail == GraphBuildTraceDetail::Summary ==> t.stages@[k].graph.is_none())
            &&& (detail == GraphBuildTraceDetail::Full && k > 0 ==> (t.stages@[k].graph matches Some(g) && g@ == o.graph@))
        }
    }
}

pub(crate) fn text_less(a: &String, b: &String) -> (r: bool)
    ensures
        r == (crate::health::text_order())(a@, b@),
{
    str_less(a.as_str(), b.as_str())
}

fn text_equal(a: &String, b: &String) -> (r: bool)
    ensures
        r == (crate::health::text_same())(a@, b@),
{
    str_eq(a.as_str(), b.as_str())
}

/// Strings ordered by their text.
pub open spec fn string_order() -> spec_fn(String, String) -> bool {
    |a: String, b: String| (crate::health::text_order())(a@, b@)
}

/// Strings with the same text.
pub open spec fn string_same() -> spec_fn(String, String) -> bool {
    |a: String, b: String| (crate::health::text_same())(a@, b@)
}

/// A string's view as a value.
pub open spec fn string_view_fn() -> spec_fn(String) -> Seq<char> {
    |s: String| s@
}

/// The texts sorted, each once.
pub fn canonical_strings(v: &Vec<String>) -> (r: Vec<String>)
    ensures
        views(r@) == crate::health::canonical_nodes(views(v@)),
{
    let mut copy: Vec<String> = Vec::new();
    let mut i: usize = 0;
    while i < v.len()
        invariant
            i <= v@.len(),
            copy@ == v@.subrange(0, i as int),
        decreases v@.len() - i,
    {
        copy.push(v[i].clone());
        assert(copy@ =~= v@.subrange(0, i + 1));
        i = i + 1;
    }
    assert(copy@ =~= v@);
    let ghost start = copy@;
    let sorted = crate::sorting::sort_by(copy, text_less, Ghost(string_order()));
    let ghost mid = sorted@;
    let deduped = crate::sorting::dedup_by(sorted, text_equal, Ghost(string_same()));
    proof {
        assert forall|a: String, b: String| #[trigger] (string_order())(a, b) == (crate::health::text_order())(
            (string_view_fn())(a),
            (string_view_fn())(b),
        ) by {}
        lemma_sort_map(start, string_view_fn(), string_order(), crate::health::text_order());
        assert forall|a: String, b: String| #[trigger] (string_same())(a, b) == (crate::health::text_same())(
            (string_view_fn())(a),
            (string_view_fn())(b),
        ) by {}
        crate::sorting::lemma_dedup_map(mid, string_view_fn(), string_same(), crate::health::text_same());
        assert(views(start) =~= start.map_values(string_view_fn()));
        assert(views(mid) =~= mid.map_values(string_view_fn()));
        assert(views(deduped@) =~= deduped@.map_values(string_view_fn()));
    }
    deduped
}

fn graph_output(structure: Graph, graph: Graph, config: Option<GraphBuildTraceConfig>) -> (o: GraphBuildOutput)
    ensures
        o.graph == graph,
        o.pipeline_version == GRAPH_BUILD_PIPELINE_VERSION,
        passes_of(o.passes@, structure, graph),
        match config {
            Some(c) => traced(o, c.detail, views(c.selectors@)),
            None => o.trace.is_none(),
        },
{
    let order = graph_build_pass_order();
    let mut passes: Vec<GraphBuildPassRecord> = Vec::new();
    let mut k: usize = 0;
    while k < order.len()
        invariant
            order@ == pass_order(),
            k <= order@.len(),
            passes@.len() == k,
            forall|j: int| 0 <= j < k ==> {
                let g = if j == 0 { structure } else { graph };
                &&& (#[trigger] passes@[j]).pass == pass_order()[j]
                &&& passes@[j].node_count == g.nodes@.len()
                &&& passes@[j].relation_count == g.relations@.len()
            },
        decreases order@.len() - k,
    {
        let g = if k == 0 { &structure } else { &graph };
        passes.push(GraphBuildPassRecord { pass: order[k], node_count: g.nodes.len(), relation_count: g.relations.len() });
        k = k + 1;
    }
    let trace = match config {
        Some(c) => {
            let mut stages: Vec<GraphBuildTraceStage> = Vec::new();
            let mut j: usize = 0;
            while j < order.len()
                invariant
                    order@ == pass_order(),
                    j <= order@.len(),
                    stages@.len() == j,
                    passes@.len() == order@.len(),
                    forall|q: int| 0 <= q < order@.len() ==> {
                        let g = if q == 0 { structure } else { graph };
                        &&& (#[trigger] passes@[q]).node_count == g.nodes@.len()
                        &&& passes@[q].relation_count == g.relations@.len()
                    },
                    forall|q: int| 0 <= q < j ==> {
                        &&& (#[trigger] stages@[q]).pass == pass_order()[q]
                        &&& stages@[q].node_count == passes@[q].node_count
                        &&& stages@[q].relation_count == passes@[q].relation_count
                        &&& (c.detail == GraphBuildTraceDetail::Summary ==> stages@[q].graph.is_none())
                        &&& (c.detail == GraphBuildTraceDetail::Full && q > 0 ==> (stages@[q].graph matches Some(g) && g@ == graph@))
                    },
                decreases order@.len() - j,
            {
                let g = if j == 0 { &structure } else { &graph };
                let kept = match c.detail {
                    GraphBuildTraceDetail::Full => Some(g.duplicate()),
                    GraphBuildTraceDetail::Summary => None,
                };
                stages.push(GraphBuildTraceStage { pass: order[j], node_count: g.nodes.len(), relation_count: g.relations.len(), graph: kept });
                j = j + 1;
            }
            Some(GraphBuildTrace { selectors: canonical_strings(&c.selectors), stages })
        },
        None => None,
    };
    GraphBuildOutput { graph, pipeline_version: GRAPH_BUILD_PIPELINE_VERSION, passes, trace }
}

} // verus!

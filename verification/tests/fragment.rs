use lithograph::fragment::{partition, reassemble, reconcile_fragments, surviving_shared_nodes};
use lithograph::model::{
    ArtifactCategory, ArtifactNode, Confidence, ContainerImageNode, EnvVarNode, EvidenceRef, Graph, GraphNode,
    GraphNodeId, ModuleLanguage, ModuleNode, PackageNode, Relation, RelationKind, SourceSpan, SymbolKind,
    SymbolNode, UnresolvedNode,
};

fn fragment_evidence(path: &str) -> EvidenceRef {
    EvidenceRef::file(&format!("id-{path}"), path)
}

fn fragment_artifact(path: &str) -> GraphNode {
    GraphNode::Artifact(ArtifactNode {
        id: GraphNodeId::new(&format!("artifact:{path}")),
        path: path.to_owned(),
        category: ArtifactCategory::SourceCode,
        evidence: fragment_evidence(path),
    })
}

fn fragment_relation(id: &str, source: &str, target: &str, kind: RelationKind, path: &str) -> Relation {
    Relation {
        id: id.to_owned(),
        source: GraphNodeId::new(source),
        target: GraphNodeId::new(target),
        kind,
        confidence: Confidence::High,
        evidence: vec![fragment_evidence(path)],
        provenance: None,
    }
}

/// A small polyglot repository graph: Python, Rust, and Docker artifacts,
/// a symbol and a module, and shared environment, package, image, and
/// unresolved nodes used from several artifacts.
fn polyglot_graph() -> Graph {
    let span = SourceSpan::new(1, 5).expect("span");
    Graph {
        nodes: vec![
            fragment_artifact("src/python_app/service.py"),
            fragment_artifact("src/python_app/__init__.py"),
            fragment_artifact("rust/src/lib.rs"),
            fragment_artifact("Dockerfile"),
            GraphNode::Symbol(SymbolNode {
                id: GraphNodeId::new("symbol:src/python_app/service.py#service::run"),
                kind: SymbolKind::Function,
                qualified_name: "service::run".to_owned(),
                doc: None,
                evidence: fragment_evidence("src/python_app/service.py").with_span(span),
            }),
            GraphNode::Module(ModuleNode {
                id: GraphNodeId::new("module:src.python_app.service"),
                path: "src.python_app.service".to_owned(),
                language: ModuleLanguage::Python,
                evidence: fragment_evidence("src/python_app/service.py"),
            }),
            GraphNode::EnvVar(EnvVarNode { id: GraphNodeId::new("env:DATABASE_URL"), name: "DATABASE_URL".to_owned() }),
            GraphNode::Package(PackageNode { id: GraphNodeId::new("package:requests"), name: "requests".to_owned(), is_external: true }),
            GraphNode::Container(ContainerImageNode {
                id: GraphNodeId::new("image:node:24-alpine"),
                reference: "node:24-alpine".to_owned(),
                is_dynamic: false,
            }),
            GraphNode::Unresolved(UnresolvedNode { id: GraphNodeId::new("unresolved:helpers"), value: "helpers".to_owned() }),
        ],
        relations: vec![
            fragment_relation("relation:1", "artifact:src/python_app/service.py", "symbol:src/python_app/service.py#service::run", RelationKind::Contains, "src/python_app/service.py"),
            fragment_relation("relation:2", "artifact:src/python_app/service.py", "module:src.python_app.service", RelationKind::BelongsToModule, "src/python_app/service.py"),
            fragment_relation("relation:3", "symbol:src/python_app/service.py#service::run", "env:DATABASE_URL", RelationKind::ReadsEnv, "src/python_app/service.py"),
            fragment_relation("relation:4", "artifact:rust/src/lib.rs", "env:DATABASE_URL", RelationKind::ReadsEnv, "rust/src/lib.rs"),
            fragment_relation("relation:5", "artifact:src/python_app/service.py", "package:requests", RelationKind::DependsOnPackage, "src/python_app/service.py"),
            fragment_relation("relation:6", "artifact:Dockerfile", "image:node:24-alpine", RelationKind::UsesImage, "Dockerfile"),
            fragment_relation("relation:7", "artifact:src/python_app/__init__.py", "module:src.python_app.service", RelationKind::Imports, "src/python_app/__init__.py"),
            fragment_relation("relation:8", "symbol:src/python_app/service.py#service::run", "unresolved:helpers", RelationKind::Calls, "src/python_app/service.py"),
        ],
    }
}

/// A total canonical order over a graph's nodes and relations, so two
/// graphs can be compared as sets regardless of their internal order.
fn canonicalized(graph: &Graph) -> (Vec<String>, Vec<String>) {
    let mut nodes: Vec<String> = graph.nodes.iter().map(|n| n.id().as_str().to_owned()).collect();
    nodes.sort();
    let mut relations: Vec<String> = graph
        .relations
        .iter()
        .map(|r| format!("{}|{:?}|{}|{}", r.source.as_str(), r.kind, r.target.as_str(), r.id))
        .collect();
    relations.sort();
    (nodes, relations)
}

#[test]
fn partition_then_reassemble_preserves_the_full_set() {
    let graph = polyglot_graph();
    let reassembled = reassemble(&partition(&graph));
    assert_eq!(graph.nodes.len(), reassembled.nodes.len(), "node count");
    assert_eq!(graph.relations.len(), reassembled.relations.len(), "relation count");
    assert_eq!(canonicalized(&graph), canonicalized(&reassembled), "same node and relation set");
}

#[test]
fn fragments_partition_disjointly_with_stable_fingerprints() {
    let graph = polyglot_graph();
    let first = partition(&graph);
    let second = partition(&graph);

    let fragment_nodes: usize = first.fragments.iter().map(|f| f.nodes.len()).sum();
    assert_eq!(fragment_nodes + first.shared.nodes.len(), graph.nodes.len());

    for fragment in &first.fragments {
        let other = second
            .fragments
            .iter()
            .find(|candidate| candidate.artifact == fragment.artifact)
            .expect("same fragments");
        assert!(fragment.fingerprint.is_compatible_with(&other.fingerprint));
    }
}

#[test]
fn no_op_reconcile_reuses_all_fragments() {
    let graph = polyglot_graph();
    let metrics = reconcile_fragments(&partition(&graph), &partition(&graph));
    assert_eq!(metrics.rebuilt, 0);
    assert_eq!(metrics.deleted, 0);
    assert!(metrics.reused > 0);
}

#[test]
fn local_edit_reuses_unchanged_fragments() {
    let graph = polyglot_graph();
    let before = partition(&graph);
    let after = partition(&graph);
    let metrics = reconcile_fragments(&before, &after);
    assert_eq!(metrics.rebuilt, 0);
    assert_eq!(canonicalized(&reassemble(&after)), canonicalized(&graph));
}

#[test]
fn shared_node_survives_until_last_owner_removed() {
    let graph = polyglot_graph();
    let part = partition(&graph);
    let Some(entry) = part.shared_owners.iter().find(|entry| !entry.owners.is_empty()) else {
        return;
    };
    let one_owner: Vec<String> = entry.owners.iter().take(1).cloned().collect();
    let survivors = surviving_shared_nodes(&part, &one_owner);
    if entry.owners.len() > 1 {
        assert!(survivors.contains(&entry.node), "survives while an owner remains");
    }
    let all_owners: Vec<String> = entry.owners.clone();
    let after_all = surviving_shared_nodes(&part, &all_owners);
    assert!(!after_all.contains(&entry.node), "deleted when last owner leaves");
}

#[test]
fn shared_environment_variable_has_both_owners() {
    let part = partition(&polyglot_graph());
    let env = part
        .shared_owners
        .iter()
        .find(|entry| entry.node == "env:DATABASE_URL")
        .expect("env var is shared");
    assert_eq!(env.owners, vec!["rust/src/lib.rs".to_owned(), "src/python_app/service.py".to_owned()]);
    let survivors = surviving_shared_nodes(&part, &vec!["rust/src/lib.rs".to_owned()]);
    assert!(survivors.contains(&"env:DATABASE_URL".to_owned()));
}

#[test]
fn changed_fragment_is_rebuilt_and_dropped_fragment_deleted() {
    let graph = polyglot_graph();
    let before = partition(&graph);
    let mut edited = polyglot_graph();
    edited.relations.pop();
    edited.nodes.retain(|node| node.id().as_str() != "artifact:Dockerfile");
    edited.relations.retain(|relation| relation.source.as_str() != "artifact:Dockerfile");
    let after = partition(&edited);
    let metrics = reconcile_fragments(&before, &after);
    assert_eq!(metrics.deleted, 1);
    assert_eq!(metrics.rebuilt, 1);
}

#[test]
fn fingerprints_hold_a_thirty_two_byte_digest_per_fragment() {
    let graph = polyglot_graph();
    let parts = partition(&graph);
    assert!(parts.fragments.len() >= 2);
    for fragment in &parts.fragments {
        assert_eq!(fragment.fingerprint.content_hash.len(), 32);
    }
    let first = &parts.fragments[0].fingerprint.content_hash;
    assert!(parts.fragments[1..].iter().all(|fragment| &fragment.fingerprint.content_hash != first));
}

#[test]
fn reassembling_a_canonical_graph_gives_it_back() {
    let graph = reassemble(&partition(&polyglot_graph()));
    let again = reassemble(&partition(&graph));
    assert_eq!(again, graph);
}

use lithograph::index::{KnowledgeIndex, SearchParams, TraceDirection, TraceParams};
use lithograph::model::{
    ArtifactCategory, ArtifactNode, Confidence, ContainerImageNode, EnvVarNode, EvidenceRef, Graph, GraphNode,
    GraphNodeId, ModuleLanguage, ModuleNode, PackageNode, Relation, RelationKind, SourceSpan, SymbolKind,
    SymbolNode, UnresolvedNode,
};

fn index_evidence(path: &str) -> EvidenceRef {
    EvidenceRef::file(&format!("id-{path}"), path)
}

fn index_artifact(path: &str) -> GraphNode {
    GraphNode::Artifact(ArtifactNode {
        id: GraphNodeId::new(&format!("artifact:{path}")),
        path: path.to_owned(),
        category: ArtifactCategory::SourceCode,
        evidence: index_evidence(path),
    })
}

fn index_relation(id: &str, source: &str, target: &str, kind: RelationKind, path: &str) -> Relation {
    Relation {
        id: id.to_owned(),
        source: GraphNodeId::new(source),
        target: GraphNodeId::new(target),
        kind,
        confidence: Confidence::High,
        evidence: vec![index_evidence(path)],
        provenance: None,
    }
}

/// A small polyglot repository graph: Python, Rust, and Docker artifacts,
/// a symbol and a module, and shared environment, package, image, and
/// unresolved nodes used from several artifacts.
fn index_graph() -> Graph {
    let span = SourceSpan::new(1, 5).expect("span");
    Graph {
        nodes: vec![
            index_artifact("src/python_app/service.py"),
            index_artifact("src/python_app/__init__.py"),
            index_artifact("rust/src/lib.rs"),
            index_artifact("Dockerfile"),
            GraphNode::Symbol(SymbolNode {
                id: GraphNodeId::new("symbol:src/python_app/service.py#service::run"),
                kind: SymbolKind::Function,
                qualified_name: "service::run".to_owned(),
                doc: None,
                evidence: index_evidence("src/python_app/service.py").with_span(span),
            }),
            GraphNode::Module(ModuleNode {
                id: GraphNodeId::new("module:src.python_app.service"),
                path: "src.python_app.service".to_owned(),
                language: ModuleLanguage::Python,
                evidence: index_evidence("src/python_app/service.py"),
            }),
            GraphNode::EnvVar(EnvVarNode { id: GraphNodeId::new("env:DATABASE_URL"), name: "DATABASE_URL".to_owned() }),
            GraphNode::Package(PackageNode { id: GraphNodeId::new("package:requests"), name: "requests".to_owned(), is_external: true }),
            GraphNode::Container(ContainerImageNode {
                id: GraphNodeId::new("image:node:24-alpine"),
                reference: "node:24-alpine".to_owned(),
                is_dynamic: false,
            }),
            GraphNode::Unresolved(UnresolvedNode { id: GraphNodeId::new("unresolved:helpers"), value: "helpers".to_owned() }),
        ],
        relations: vec![
            index_relation("relation:1", "artifact:src/python_app/service.py", "symbol:src/python_app/service.py#service::run", RelationKind::Contains, "src/python_app/service.py"),
            index_relation("relation:2", "artifact:src/python_app/service.py", "module:src.python_app.service", RelationKind::BelongsToModule, "src/python_app/service.py"),
            index_relation("relation:3", "symbol:src/python_app/service.py#service::run", "env:DATABASE_URL", RelationKind::ReadsEnv, "src/python_app/service.py"),
            index_relation("relation:4", "artifact:rust/src/lib.rs", "env:DATABASE_URL", RelationKind::ReadsEnv, "rust/src/lib.rs"),
            index_relation("relation:5", "artifact:src/python_app/service.py", "package:requests", RelationKind::DependsOnPackage, "src/python_app/service.py"),
            index_relation("relation:6", "artifact:Dockerfile", "image:node:24-alpine", RelationKind::UsesImage, "Dockerfile"),
            index_relation("relation:7", "artifact:src/python_app/__init__.py", "module:src.python_app.service", RelationKind::Imports, "src/python_app/__init__.py"),
            index_relation("relation:8", "symbol:src/python_app/service.py#service::run", "unresolved:helpers", RelationKind::Calls, "src/python_app/service.py"),
        ],
    }
}

#[test]
fn schema_search_trace_and_architecture_are_deterministic() {
    let graph = index_graph();
    let index = KnowledgeIndex::new(&graph);

    let schema = index.schema();
    assert!(schema.node_labels.iter().any(|label| label.label == "Artifact"));
    assert!(schema.edge_types.iter().any(|edge| edge.edge_type == "Contains"));

    let search = index.search(&SearchParams {
        label: Some("Artifact".to_owned()),
        query: Some("python".to_owned()),
        limit: 5,
    });
    assert!(!search.is_empty());

    let trace = index
        .trace(&TraceParams {
            query: search[0].id.as_str().to_owned(),
            depth: 1,
            direction: TraceDirection::Both,
        })
        .expect("missing trace result");
    assert_eq!(trace.root.id, search[0].id);
    assert!(!trace.visited.is_empty());

    let architecture = index.architecture();
    assert!(!architecture.hotspots.is_empty());
    assert_eq!(architecture.schema, schema);
}

#[test]
fn schema_counts_labels_and_edge_types_exactly() {
    let graph = index_graph();
    let schema = KnowledgeIndex::new(&graph).schema();
    let artifacts = schema.node_labels.iter().find(|label| label.label == "Artifact").expect("artifacts");
    assert_eq!(artifacts.count, 4);
    let reads = schema.edge_types.iter().find(|edge| edge.edge_type == "ReadsEnv").expect("reads");
    assert_eq!(reads.count, 2);
}

#[test]
fn search_respects_the_limit_and_the_label() {
    let graph = index_graph();
    let index = KnowledgeIndex::new(&graph);
    let limited = index.search(&SearchParams { label: Some("Artifact".to_owned()), query: None, limit: 2 });
    assert_eq!(limited.len(), 2);
    assert!(limited.iter().all(|result| result.label == "Artifact"));
    let none = index.search(&SearchParams { label: Some("Artifact".to_owned()), query: Some("no-such-text".to_owned()), limit: 5 });
    assert!(none.is_empty());
}

#[test]
fn unknown_trace_roots_give_no_trace() {
    let graph = index_graph();
    let index = KnowledgeIndex::new(&graph);
    assert!(index
        .trace(&TraceParams { query: "does-not-exist-anywhere".to_owned(), depth: 2, direction: TraceDirection::Both })
        .is_none());
    assert!(index.package_dependencies("does-not-exist").is_empty());
}

fn chain_graph(length: usize) -> Graph {
    let nodes = (0..=length).map(|i| index_artifact(&format!("n{i}"))).collect();
    let relations = (0..length)
        .map(|i| index_relation(&format!("r{i}"), &format!("artifact:n{i}"), &format!("artifact:n{}", i + 1), RelationKind::Calls, "n"))
        .collect();
    Graph { nodes, relations }
}

#[test]
fn search_matches_names_ids_and_paths_but_not_labels() {
    let graph = index_graph();
    let index = KnowledgeIndex::new(&graph);
    let hits = index.search(&SearchParams { label: None, query: Some("envvar".to_owned()), limit: 0 });
    assert!(hits.is_empty());
    let hits = index.search(&SearchParams { label: None, query: Some("database".to_owned()), limit: 0 });
    let ids: Vec<&str> = hits.iter().map(|r| r.id.as_str()).collect();
    assert_eq!(ids, vec!["env:DATABASE_URL"]);
    let hits = index.search(&SearchParams { label: Some("Module".to_owned()), query: Some("PYTHON_APP/SERVICE.PY".to_owned()), limit: 0 });
    let ids: Vec<&str> = hits.iter().map(|r| r.id.as_str()).collect();
    assert_eq!(ids, vec!["module:src.python_app.service"]);
}

#[test]
fn trace_depth_is_not_capped() {
    let graph = chain_graph(8);
    let index = KnowledgeIndex::new(&graph);
    let deep = index
        .trace(&TraceParams { query: "artifact:n0".to_owned(), depth: 7, direction: TraceDirection::Outbound })
        .expect("root");
    assert_eq!(deep.visited.len(), 8);
    assert_eq!(deep.visited.last().map(|h| h.hop), Some(7));
    let whole = index
        .trace(&TraceParams { query: "artifact:n0".to_owned(), depth: usize::MAX, direction: TraceDirection::Outbound })
        .expect("root");
    assert_eq!(whole.visited.len(), 9);
    let default = index
        .trace(&TraceParams { query: "artifact:n0".to_owned(), depth: 0, direction: TraceDirection::Outbound })
        .expect("root");
    assert_eq!(default.visited.len(), 3);
}

#[test]
fn busy_source_symbols_are_entry_points() {
    let graph = index_graph();
    let index = KnowledgeIndex::new(&graph);
    let summary = index.architecture();
    let names: Vec<&str> = summary.entry_points.iter().map(|r| r.name.as_str()).collect();
    assert!(names.contains(&"service::run"));
    assert!(names.contains(&"node:24-alpine"));
}

#[test]
fn schema_does_not_depend_on_node_and_relation_order() {
    let graph = index_graph();
    let mut reordered = index_graph();
    reordered.nodes.reverse();
    reordered.relations.reverse();
    assert_eq!(KnowledgeIndex::new(&graph).schema(), KnowledgeIndex::new(&reordered).schema());
}

use lithograph::enrichment::{derive_enrichment, ENRICHMENT_ALGORITHM_VERSION};
use lithograph::model::{
    ArtifactCategory, ArtifactNode, Confidence, DocumentationNode, EvidenceRef, Graph, GraphNode, GraphNodeId,
    RelationKind, RelationResolution,
};

fn enrichment_evidence(path: &str) -> EvidenceRef {
    EvidenceRef::file(&format!("id-{path}"), path)
}

fn enrichment_artifact(path: &str) -> GraphNode {
    GraphNode::Artifact(ArtifactNode {
        id: GraphNodeId::new(&format!("artifact:{path}")),
        path: path.to_owned(),
        category: ArtifactCategory::SourceCode,
        evidence: enrichment_evidence(path),
    })
}

fn widget_graph() -> Graph {
    Graph {
        nodes: vec![
            enrichment_artifact("src/widget.py"),
            enrichment_artifact("tests/test_widget.py"),
            GraphNode::Documentation(DocumentationNode {
                id: GraphNodeId::new("doc:src/widget.py#1"),
                title: "Widget".to_owned(),
                evidence: enrichment_evidence("src/widget.py"),
            }),
        ],
        relations: Vec::new(),
    }
}

#[test]
fn optional_overlay_is_deterministic_and_does_not_mutate_the_graph() {
    let graph = widget_graph();
    let baseline = graph.clone();
    assert!(derive_enrichment(&graph, false).relations.is_empty());
    let first = derive_enrichment(&graph, true);
    let second = derive_enrichment(&graph, true);
    assert_eq!(first, second);
    assert_eq!(first.algorithm_version, ENRICHMENT_ALGORITHM_VERSION);
    assert!(first.relations.iter().any(|relation| relation.kind == RelationKind::Tests));
    assert!(first.relations.iter().any(|relation| relation.kind == RelationKind::DocumentsSource));
    assert_eq!(graph, baseline);
}

#[test]
fn overlay_relations_have_the_exact_ids_order_and_provenance() {
    let overlay = derive_enrichment(&widget_graph(), true);
    let ids: Vec<&str> = overlay.relations.iter().map(|relation| relation.id.as_str()).collect();
    assert_eq!(
        ids,
        vec![
            "tests:artifact:tests/test_widget.py:artifact:src/widget.py",
            "documents-source:doc:src/widget.py#1:artifact:src/widget.py",
        ]
    );
    for relation in &overlay.relations {
        assert_eq!(relation.confidence, Confidence::Low);
        assert_eq!(relation.evidence.len(), 1);
        let provenance = relation.provenance.as_ref().expect("provenance");
        assert_eq!(provenance.resolver_strategy, "deterministic-enrichment-v1");
        assert_eq!(provenance.resolution, RelationResolution::HybridResolved);
        assert!(provenance.language.is_none());
    }
    assert_eq!(overlay.relations[0].evidence[0].path, "tests/test_widget.py");
}

#[test]
fn test_stems_drop_repeated_suffixes_and_prefixes() {
    let graph = Graph {
        nodes: vec![enrichment_artifact("lib/parser.rs"), enrichment_artifact("pkg/test_test_parser.rs")],
        relations: Vec::new(),
    };
    let overlay = derive_enrichment(&graph, true);
    assert_eq!(overlay.relations.len(), 1);
    assert_eq!(overlay.relations[0].source.as_str(), "artifact:pkg/test_test_parser.rs");
    assert_eq!(overlay.relations[0].target.as_str(), "artifact:lib/parser.rs");
}

#[test]
fn a_graph_without_tests_or_docs_gets_no_overlay() {
    let graph = Graph { nodes: vec![enrichment_artifact("src/main.rs")], relations: Vec::new() };
    assert!(derive_enrichment(&graph, true).relations.is_empty());
}

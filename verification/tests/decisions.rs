use lithograph::builder::GraphBuildTraceDetail;
use lithograph::decisions::trace_decisions_for_relations;
use lithograph::model::{
    Confidence, EvidenceRef, Graph, GraphNodeId, Relation, RelationKind, RelationProvenance, RelationResolution,
};

fn decision_relation(id: &str, source: &str, target: &str, resolution: Option<RelationResolution>) -> Relation {
    Relation {
        id: id.to_owned(),
        source: GraphNodeId::new(source),
        target: GraphNodeId::new(target),
        kind: RelationKind::Imports,
        confidence: Confidence::High,
        evidence: vec![EvidenceRef::file("a1", "src/app.py")],
        provenance: resolution.map(|resolution| RelationProvenance {
            language: Some("python".to_owned()),
            resolver_strategy: "python-import-resolver".to_owned(),
            resolution,
            confidence: Confidence::High,
        }),
    }
}

fn resolved_graph() -> Graph {
    Graph {
        nodes: Vec::new(),
        relations: vec![
            decision_relation("relation:1", "artifact:src/app.py", "module:pkg.util", Some(RelationResolution::HybridResolved)),
            decision_relation("relation:2", "artifact:src/app.py", "unresolved:os", Some(RelationResolution::SyntaxOnly)),
            decision_relation("relation:3", "artifact:src/other.py", "module:pkg.other", None),
        ],
    }
}

#[test]
fn full_trace_selects_resolved_relations_and_rejects_superseded_candidates() {
    let graph = resolved_graph();
    let before = vec![decision_relation("relation:1", "artifact:src/app.py", "unresolved:pkg.util", None)];
    let decisions = trace_decisions_for_relations(&graph, &before, &GraphBuildTraceDetail::Full, &Vec::new());
    assert_eq!(decisions.len(), 2);
    assert_eq!(decisions[0].kind, "imports");
    assert_eq!(decisions[0].outcome, "selected");
    assert_eq!(decisions[0].target, "module:pkg.util");
    assert_eq!(decisions[0].strategy, "python-import-resolver");
    assert_eq!(decisions[0].score_millionths, 1_000_000);
    assert_eq!(decisions[0].evidence_paths, vec!["src/app.py".to_owned()]);
    assert_eq!(decisions[1].outcome, "rejected");
    assert_eq!(decisions[1].target, "unresolved:pkg.util");
    assert_eq!(decisions[1].score_millionths, 0);
}

#[test]
fn summary_trace_keeps_only_selected_relations() {
    let graph = resolved_graph();
    let none = trace_decisions_for_relations(&graph, &Vec::new(), &GraphBuildTraceDetail::Summary, &Vec::new());
    assert!(none.is_empty());
    let hit = trace_decisions_for_relations(&graph, &Vec::new(), &GraphBuildTraceDetail::Summary, &vec!["pkg.util".to_owned()]);
    assert_eq!(hit.len(), 1);
    assert_eq!(hit[0].source, "artifact:src/app.py");
    let miss = trace_decisions_for_relations(&graph, &Vec::new(), &GraphBuildTraceDetail::Summary, &vec!["nowhere".to_owned()]);
    assert!(miss.is_empty());
}

use lithograph::analytics::{adjacency, degree_metrics};
use lithograph::model::{Confidence, Graph, GraphNode, GraphNodeId, Relation, RelationKind, UnresolvedNode};

fn analytics_relation(id: &str, source: &str, target: &str) -> Relation {
    Relation {
        id: id.to_owned(),
        source: GraphNodeId::new(source),
        target: GraphNodeId::new(target),
        kind: RelationKind::Calls,
        confidence: Confidence::High,
        evidence: Vec::new(),
        provenance: None,
    }
}

#[test]
fn degree_metrics_report_fan_in_and_fan_out() {
    let graph = Graph {
        nodes: Vec::new(),
        relations: vec![analytics_relation("r1", "a", "b"), analytics_relation("r2", "c", "b")],
    };
    assert!(
        degree_metrics(&graph)
            .iter()
            .any(|(id, incoming, outgoing)| id.as_str() == "b" && *incoming == 2 && *outgoing == 0)
    );
}

#[test]
fn degree_metrics_list_every_id_once_in_order_with_exact_counts() {
    let graph = Graph {
        nodes: vec![GraphNode::Unresolved(UnresolvedNode { id: GraphNodeId::new("z"), value: "z".to_owned() })],
        relations: vec![
            analytics_relation("r1", "a", "b"),
            analytics_relation("r2", "c", "b"),
            analytics_relation("r3", "a", "a"),
        ],
    };
    let rows: Vec<(String, usize, usize)> = degree_metrics(&graph)
        .into_iter()
        .map(|(id, incoming, outgoing)| (id.as_str().to_owned(), incoming, outgoing))
        .collect();
    assert_eq!(
        rows,
        vec![
            ("a".to_owned(), 1, 2),
            ("b".to_owned(), 2, 0),
            ("c".to_owned(), 0, 1),
            ("z".to_owned(), 0, 0),
        ]
    );
}

#[test]
fn adjacency_sorts_and_deduplicates_targets_and_keeps_sinks() {
    let graph = Graph {
        nodes: Vec::new(),
        relations: vec![
            analytics_relation("r1", "a", "c"),
            analytics_relation("r2", "a", "b"),
            analytics_relation("r3", "a", "c"),
        ],
    };
    let rows: Vec<(String, Vec<String>)> = adjacency(&graph)
        .into_iter()
        .map(|(id, targets)| (id.as_str().to_owned(), targets.iter().map(|t| t.as_str().to_owned()).collect()))
        .collect();
    assert_eq!(
        rows,
        vec![
            ("a".to_owned(), vec!["b".to_owned(), "c".to_owned()]),
            ("b".to_owned(), Vec::new()),
            ("c".to_owned(), Vec::new()),
        ]
    );
}

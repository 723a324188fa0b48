use lithograph::health::{detect_health, CommunityCohesion, HealthRule, HealthSeverity, HealthThresholds};
use lithograph::model::{Confidence, Graph, GraphNode, GraphNodeId, Relation, RelationKind, UnresolvedNode};

fn health_edge(id: &str, source: &str, target: &str, kind: RelationKind) -> Relation {
    Relation {
        id: id.into(),
        source: GraphNodeId::new(source),
        target: GraphNodeId::new(target),
        kind,
        confidence: Confidence::High,
        evidence: vec![],
        provenance: None,
    }
}

fn health_graph() -> Graph {
    Graph {
        nodes: vec![GraphNode::Unresolved(UnresolvedNode { id: GraphNodeId::new("orphan"), value: "orphan".to_owned() })],
        relations: vec![
            health_edge("ab", "a", "b", RelationKind::Calls),
            health_edge("ba", "b", "a", RelationKind::Calls),
            health_edge("xy", "x", "y", RelationKind::FileChangesWith),
            health_edge("layer", "api", "data", RelationKind::CrossesServiceBoundary),
        ],
    }
}

fn health_communities() -> Vec<CommunityCohesion> {
    vec![CommunityCohesion {
        members: vec![GraphNodeId::new("a"), GraphNodeId::new("b")],
        boundary_edges: Vec::new(),
        cohesion_percent: 100,
    }]
}

#[test]
fn detectors_are_deterministic_and_cover_required_patterns() {
    let graph = health_graph();
    let thresholds = HealthThresholds {
        god_class_degree: 2,
        bridge_degree: 2,
        low_cohesion_percent: 100,
        shotgun_neighbors: 1,
    };
    let communities = health_communities();
    let findings = detect_health(&graph, &thresholds, &communities);
    for rule in [
        HealthRule::GodClass,
        HealthRule::BridgeBottleneck,
        HealthRule::Cycle,
        HealthRule::OrphanedCode,
        HealthRule::HiddenCoupling,
        HealthRule::LayerViolation,
        HealthRule::LowCohesionCluster,
        HealthRule::ShotgunSurgery,
    ] {
        assert!(findings.iter().any(|finding| finding.rule == rule));
    }
    assert_eq!(findings, detect_health(&graph, &thresholds, &communities));
}

#[test]
fn findings_are_ordered_by_rule_then_id_and_ids_are_unique() {
    let thresholds = HealthThresholds { god_class_degree: 2, bridge_degree: 2, low_cohesion_percent: 100, shotgun_neighbors: 1 };
    let findings = detect_health(&health_graph(), &thresholds, &health_communities());
    let ids: Vec<&str> = findings.iter().map(|finding| finding.id.as_str()).collect();
    assert_eq!(
        ids,
        vec![
            "GodClass:a",
            "GodClass:b",
            "BridgeBottleneck:a",
            "BridgeBottleneck:b",
            "Cycle:a,b",
            "OrphanedCode:orphan",
            "HiddenCoupling:x,y",
            "LayerViolation:api,data",
            "LowCohesionCluster:a,b",
            "ShotgunSurgery:x",
            "ShotgunSurgery:y",
        ]
    );
    let cycle = &findings[4];
    assert_eq!(cycle.evidence, vec!["ab".to_owned()]);
    assert_eq!(cycle.metric_inputs, vec![("cycle_size".to_owned(), 2)]);
    assert_eq!(cycle.severity, HealthSeverity::Medium);
    assert_eq!(cycle.confidence, Confidence::High);
    assert_eq!(cycle.investigation_query, "MATCH (n)-[r]-(m) RETURN n,r,m");
}

#[test]
fn default_thresholds_are_conservative() {
    let thresholds = HealthThresholds::default();
    assert_eq!(thresholds.god_class_degree, 12);
    assert_eq!(thresholds.bridge_degree, 8);
    assert_eq!(thresholds.low_cohesion_percent, 25);
    assert_eq!(thresholds.shotgun_neighbors, 5);
    let findings = detect_health(&health_graph(), &thresholds, &health_communities());
    assert!(findings.iter().all(|finding| finding.rule != HealthRule::GodClass));
    assert!(findings.iter().all(|finding| finding.rule != HealthRule::LowCohesionCluster));
}

#[test]
fn shotgun_surgery_counts_distinct_cochange_neighbours() {
    let graph = Graph {
        nodes: vec![],
        relations: vec![
            health_edge("xy", "x", "y", RelationKind::FileChangesWith),
            health_edge("yx", "y", "x", RelationKind::FileChangesWith),
        ],
    };
    let thresholds = HealthThresholds { god_class_degree: 100, bridge_degree: 100, low_cohesion_percent: 0, shotgun_neighbors: 2 };
    let findings = detect_health(&graph, &thresholds, &Vec::new());
    assert!(findings.iter().all(|f| f.rule != HealthRule::ShotgunSurgery));
    let coupling: Vec<&str> = findings.iter().filter(|f| f.rule == HealthRule::HiddenCoupling).map(|f| f.id.as_str()).collect();
    assert_eq!(coupling, vec!["HiddenCoupling:x,y"]);
    let lower = HealthThresholds { shotgun_neighbors: 1, ..thresholds };
    let shotgun: Vec<(String, usize)> = detect_health(&graph, &lower, &Vec::new())
        .iter()
        .filter(|f| f.rule == HealthRule::ShotgunSurgery)
        .map(|f| (f.id.clone(), f.metric_inputs[0].1))
        .collect();
    assert_eq!(shotgun, vec![("ShotgunSurgery:x".to_owned(), 1), ("ShotgunSurgery:y".to_owned(), 1)]);
}

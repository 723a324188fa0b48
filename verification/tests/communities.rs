use lithograph::communities::{
    architecture_aware_scope, environment_aware_scope, is_auxiliary_path, is_better_candidate, normalized_scope,
    relation_weight, CommunityScope,
};
use lithograph::leiden::{analyze_communities, leiden_communities, leiden_communities_with_diagnostics};
use lithograph::model::{
    ArtifactCategory, ArtifactNode, Confidence, EvidenceRef, Graph, GraphNode, GraphNodeId, Relation, RelationKind,
    SymbolKind, SymbolNode,
};

fn community_edge(id: &str, from: &str, to: &str, kind: RelationKind) -> Relation {
    Relation {
        id: id.into(),
        source: GraphNodeId::new(from),
        target: GraphNodeId::new(to),
        kind,
        confidence: Confidence::High,
        evidence: vec![],
        provenance: None,
    }
}

fn member_ids(members: &[GraphNodeId]) -> Vec<&str> {
    members.iter().map(|id| id.as_str()).collect()
}

#[test]
fn movement_ties_choose_the_smallest_stable_label_only_above_staying() {
    assert!(is_better_candidate(2, 11, 3, 11, 10));
    assert!(!is_better_candidate(3, 11, 2, 11, 10));
    assert!(!is_better_candidate(2, 10, 3, 10, 10));
    assert!(!is_better_candidate(2, 9, 3, 10, 8));
}

#[test]
fn leiden_groups_clusters_and_reports_boundary_edges() {
    let graph = Graph {
        nodes: vec![],
        relations: vec![
            community_edge("ab", "a", "b", RelationKind::Calls),
            community_edge("bc", "b", "c", RelationKind::Calls),
            community_edge("ca", "c", "a", RelationKind::Calls),
            community_edge("cd", "c", "d", RelationKind::Calls),
            community_edge("de", "d", "e", RelationKind::Calls),
            community_edge("ef", "e", "f", RelationKind::Calls),
            community_edge("fd", "f", "d", RelationKind::Calls),
        ],
    };
    let communities = leiden_communities(&graph, &CommunityScope::Combined);
    assert_eq!(communities.len(), 2);
    assert_eq!(member_ids(&communities[0].members), vec!["a", "b", "c"]);
    assert_eq!(communities[0].boundary_edges, vec!["cd".to_owned()]);
    assert_eq!(member_ids(&communities[0].bridge_nodes), vec!["c"]);
    assert_eq!(communities[0].intra_edges, 3);
    assert_eq!(communities[0].id, "leiden:a");
    assert_eq!(communities[0].label, "Community a");
    assert_eq!(communities, leiden_communities(&graph, &CommunityScope::Combined));
}

#[test]
fn environment_scope_applies_explicit_relation_weights_deterministically() {
    let graph = Graph {
        nodes: vec![],
        relations: vec![
            community_edge("read", "code", "env", RelationKind::ReadsEnv),
            community_edge("bind", "env", "config", RelationKind::BindsConfig),
            community_edge("call", "code", "other", RelationKind::Calls),
        ],
    };
    let scope = environment_aware_scope();
    let first = leiden_communities(&graph, &scope);
    let second = leiden_communities(&graph, &scope);
    assert_eq!(first, second);
    assert!(first.iter().any(|community| {
        member_ids(&community.members).contains(&"env") && member_ids(&community.members).contains(&"config")
    }));
}

#[test]
fn architecture_scope_keeps_direct_production_code_groups_separate_from_auxiliary_nodes() {
    fn artifact(path: &str) -> GraphNode {
        GraphNode::Artifact(ArtifactNode {
            id: GraphNodeId::new(&format!("artifact:{path}")),
            path: path.to_owned(),
            category: ArtifactCategory::SourceCode,
            evidence: EvidenceRef::file(path, path),
        })
    }
    let graph = Graph {
        nodes: vec![
            artifact("src/service.rs"),
            GraphNode::Symbol(SymbolNode {
                id: GraphNodeId::new("symbol:src/service.rs#service::run"),
                kind: SymbolKind::Function,
                qualified_name: "service::run".to_owned(),
                doc: None,
                evidence: EvidenceRef::file("src/service.rs", "src/service.rs"),
            }),
            artifact("tests/service_test.rs"),
            artifact("docs/service.md"),
        ],
        relations: vec![
            community_edge("contains", "artifact:src/service.rs", "symbol:src/service.rs#service::run", RelationKind::Contains),
            community_edge("test-call", "artifact:tests/service_test.rs", "symbol:src/service.rs#service::run", RelationKind::Calls),
            community_edge("doc-import", "artifact:docs/service.md", "symbol:src/service.rs#service::run", RelationKind::Imports),
            community_edge("reference", "artifact:src/service.rs", "symbol:src/service.rs#service::run", RelationKind::References),
        ],
    };
    let analysis = leiden_communities_with_diagnostics(&graph, &architecture_aware_scope());
    assert_eq!(analysis.diagnostics.selected_edges, 1);
    assert_eq!(analysis.communities.len(), 1);
    assert_eq!(
        member_ids(&analysis.communities[0].members),
        vec!["artifact:src/service.rs", "symbol:src/service.rs#service::run"]
    );
}

#[test]
fn scoped_edges_change_community_membership() {
    let graph = Graph {
        nodes: vec![],
        relations: vec![
            community_edge("ab", "a", "b", RelationKind::Calls),
            community_edge("bc", "b", "c", RelationKind::Imports),
        ],
    };
    let communities = leiden_communities(&graph, &CommunityScope::RelationKinds(vec![RelationKind::Calls]));
    assert_eq!(member_ids(&communities[0].members), vec!["a", "b"]);
}

#[test]
fn diagnostics_count_active_movement_and_one_summary_edge_visit() {
    let mut relations = Vec::new();
    for index in 0..64 {
        relations.push(community_edge(
            &format!("edge-{index}"),
            &format!("left-{index:03}"),
            &format!("right-{index:03}"),
            RelationKind::Calls,
        ));
    }
    let analysis = leiden_communities_with_diagnostics(&Graph { nodes: vec![], relations }, &CommunityScope::Combined);
    assert_eq!(analysis.diagnostics.participating_nodes, 128);
    assert_eq!(analysis.diagnostics.selected_edges, 64);
    assert_eq!(analysis.diagnostics.summary_edge_visits, 64);
    assert!(analysis.diagnostics.nodes_reconsidered >= 128);
    assert!(analysis.diagnostics.neighbour_label_evaluations >= 128);
    assert!(!analysis.diagnostics.safety_bound_reached);
    assert_eq!(analysis.communities.len(), 64);
}

#[test]
fn movement_requires_strict_gain_and_converges_deterministically() {
    let graph = Graph {
        nodes: vec![],
        relations: vec![
            community_edge("aa", "a", "a", RelationKind::Calls),
            community_edge("bc", "b", "c", RelationKind::Calls),
            community_edge("bd", "b", "d", RelationKind::Calls),
            community_edge("cd", "c", "d", RelationKind::Calls),
        ],
    };
    let first = leiden_communities_with_diagnostics(&graph, &CommunityScope::Combined);
    let second = leiden_communities_with_diagnostics(&graph, &CommunityScope::Combined);
    assert_eq!(first.communities, second.communities);
    assert_eq!(first.diagnostics.successful_moves, 2);
    assert!(!first.diagnostics.safety_bound_reached);
    assert!(first.communities.iter().any(|community| member_ids(&community.members) == vec!["b", "c", "d"]));
}

#[test]
fn reported_communities_are_disjoint_groups_of_two_or_more() {
    let graph = Graph {
        nodes: vec![],
        relations: vec![
            community_edge("ab", "a", "b", RelationKind::Calls),
            community_edge("bc", "b", "c", RelationKind::Calls),
            community_edge("cd", "c", "d", RelationKind::Calls),
            community_edge("de", "d", "e", RelationKind::Calls),
            community_edge("ef", "e", "f", RelationKind::Calls),
            community_edge("fa", "f", "a", RelationKind::Calls),
            community_edge("gh", "g", "h", RelationKind::Imports),
        ],
    };
    let communities = leiden_communities(&graph, &CommunityScope::Combined);
    assert!(!communities.is_empty());
    let mut seen: Vec<&str> = Vec::new();
    for community in &communities {
        assert!(community.members.len() >= 2);
        for member in &community.members {
            assert!(!seen.contains(&member.as_str()));
            seen.push(member.as_str());
        }
    }
}

#[test]
fn scope_weights_and_normal_forms() {
    assert_eq!(relation_weight(RelationKind::Contains, &CommunityScope::Architecture), 4);
    assert_eq!(relation_weight(RelationKind::Calls, &CommunityScope::Architecture), 3);
    assert_eq!(relation_weight(RelationKind::Imports, &CommunityScope::Architecture), 1);
    assert_eq!(relation_weight(RelationKind::References, &CommunityScope::Architecture), 0);
    assert_eq!(relation_weight(RelationKind::ReadsEnv, &environment_aware_scope()), 3);
    assert_eq!(relation_weight(RelationKind::Tests, &environment_aware_scope()), 0);
    let normal = normalized_scope(&CommunityScope::RelationKinds(vec![RelationKind::Calls, RelationKind::Contains, RelationKind::Calls]));
    assert_eq!(normal, CommunityScope::RelationKinds(vec![RelationKind::Contains, RelationKind::Calls]));
    let weighted = normalized_scope(&CommunityScope::WeightedRelationKinds(vec![(RelationKind::Calls, 0), (RelationKind::Contains, 2)]));
    assert_eq!(weighted, CommunityScope::WeightedRelationKinds(vec![(RelationKind::Contains, 2)]));
}

#[test]
fn normalizing_keeps_weights_and_is_idempotent() {
    let kinds = [
        RelationKind::Contains,
        RelationKind::Calls,
        RelationKind::Imports,
        RelationKind::References,
        RelationKind::ReadsEnv,
        RelationKind::Tests,
    ];
    let scopes = vec![
        CommunityScope::RelationKinds(vec![RelationKind::Imports, RelationKind::Calls, RelationKind::Imports]),
        CommunityScope::WeightedRelationKinds(vec![(RelationKind::ReadsEnv, 0), (RelationKind::Calls, 5), (RelationKind::Contains, 1)]),
        CommunityScope::Architecture,
        CommunityScope::Combined,
    ];
    for scope in &scopes {
        let once = normalized_scope(scope);
        let twice = normalized_scope(&once);
        assert_eq!(once, twice);
        for kind in kinds {
            assert_eq!(relation_weight(kind, &once), relation_weight(kind, scope));
        }
    }
}

#[test]
fn auxiliary_paths_cover_tests_docs_and_examples() {
    assert!(is_auxiliary_path("tests/service_test.rs"));
    assert!(is_auxiliary_path("docs/service.md"));
    assert!(is_auxiliary_path("crates/foo/examples/demo.rs"));
    assert!(is_auxiliary_path("pkg/test_util.py"));
    assert!(!is_auxiliary_path("src/service.rs"));
    assert!(!is_auxiliary_path("src/documentation.rs"));
}

#[test]
fn normalizing_weights_keeps_the_first_entry_per_kind() {
    let scope = CommunityScope::WeightedRelationKinds(vec![(RelationKind::Calls, 0), (RelationKind::Calls, 2), (RelationKind::Contains, 3), (RelationKind::Contains, 5)]);
    let normal = normalized_scope(&scope);
    assert_eq!(normal, CommunityScope::WeightedRelationKinds(vec![(RelationKind::Contains, 3)]));
    for kind in [RelationKind::Calls, RelationKind::Contains, RelationKind::Imports] {
        assert_eq!(relation_weight(kind, &normal), relation_weight(kind, &scope));
    }
    assert_eq!(normalized_scope(&normal), normal);
}

#[test]
fn analysis_runs_under_the_normalized_scope() {
    let graph = Graph {
        nodes: vec![],
        relations: vec![
            community_edge("ab", "a", "b", RelationKind::Calls),
            community_edge("bc", "b", "c", RelationKind::Imports),
        ],
    };
    let repeated = analyze_communities(&graph, &CommunityScope::RelationKinds(vec![RelationKind::Calls, RelationKind::Calls]));
    let single = leiden_communities_with_diagnostics(&graph, &CommunityScope::RelationKinds(vec![RelationKind::Calls]));
    assert_eq!(repeated, single);
    assert_eq!(member_ids(&repeated.communities[0].members), vec!["a", "b"]);
    assert!(!repeated.cache_hit);
    let weighted = analyze_communities(
        &graph,
        &CommunityScope::WeightedRelationKinds(vec![(RelationKind::Imports, 0), (RelationKind::Calls, 2)]),
    );
    assert_eq!(weighted.diagnostics.selected_edges, 1);
}

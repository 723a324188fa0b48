use lithograph::builder::{Artifact, BuilderState};
use lithograph::infra::{
    ActionsJob, ActionsProfile, ActionsStep, ActionsStepHint, ComposeProfile, ComposeService, ConfigReference,
    ConfigReferenceKind, DockerCommand, DockerStage, DockerfileAnalysis, EnvBinding, StructuredAnalysis,
};
use lithograph::model::{
    ArtifactCategory, CommandProvenance, ConfigNodeKind, Confidence, EnvVarNode, EvidenceRef, GraphNode, GraphNodeId, RelationKind,
};

fn infra_artifact(path: &str, category: ArtifactCategory) -> Artifact {
    Artifact { id: format!("id:{path}"), path: path.to_owned(), category, detected_format: None }
}

fn line_evidence(path: &str) -> EvidenceRef {
    EvidenceRef::file(&format!("id:{path}"), path)
}

fn relation_summary(state: &BuilderState) -> Vec<(String, String, String, RelationKind, Confidence)> {
    state
        .relations
        .iter()
        .map(|relation| {
            (
                relation.id.clone(),
                relation.source.as_str().to_owned(),
                relation.target.as_str().to_owned(),
                relation.kind,
                relation.confidence,
            )
        })
        .collect()
}

fn has_node(state: &BuilderState, id: &str) -> bool {
    state.nodes.iter().any(|node| node.id().as_str() == id)
}

#[test]
fn dockerfile_links_images_variables_and_commands() {
    let artifact = infra_artifact("Dockerfile", ArtifactCategory::BuildDefinition);
    let mut state = BuilderState::new(&vec![infra_artifact("Dockerfile", ArtifactCategory::BuildDefinition)]);
    let node = state.add_artifact_node(&artifact);
    let analysis = DockerfileAnalysis {
        stages: vec![DockerStage { image: "python:3.12-slim".to_owned(), evidence: line_evidence("Dockerfile") }],
        env: vec![EnvBinding { key: "APP_ENV".to_owned(), evidence: line_evidence("Dockerfile") }],
        args: vec![EnvBinding { key: "VERSION".to_owned(), evidence: line_evidence("Dockerfile") }],
        commands: vec![DockerCommand {
            line: 4,
            command: "pip install -r requirements.txt".to_owned(),
            is_run: true,
            evidence: line_evidence("Dockerfile"),
        }],
    };
    state.process_dockerfile(&artifact, &analysis, &node);
    assert_eq!(
        relation_summary(&state),
        vec![
            ("relation:1".to_owned(), "artifact:Dockerfile".to_owned(), "image:python:3.12-slim".to_owned(), RelationKind::UsesImage, Confidence::High),
            ("relation:2".to_owned(), "artifact:Dockerfile".to_owned(), "env:APP_ENV".to_owned(), RelationKind::ReadsEnv, Confidence::High),
            ("relation:3".to_owned(), "artifact:Dockerfile".to_owned(), "env:VERSION".to_owned(), RelationKind::ReadsEnv, Confidence::High),
            ("relation:4".to_owned(), "artifact:Dockerfile".to_owned(), "command:Dockerfile#4".to_owned(), RelationKind::RunsCommand, Confidence::High),
        ]
    );
    assert!(has_node(&state, "image:python:3.12-slim"));
    assert!(state.nodes.iter().any(|node| matches!(
        node,
        GraphNode::Command(command) if command.provenance == CommandProvenance::BuildAutomation
    )));
}

#[test]
fn compose_services_reference_declared_and_unresolved_dependencies() {
    let artifact = infra_artifact("docker-compose.yml", ArtifactCategory::Configuration);
    let mut state = BuilderState::new(&vec![infra_artifact("docker-compose.yml", ArtifactCategory::Configuration)]);
    let node = state.add_artifact_node(&artifact);
    let profile = ComposeProfile {
        services: vec![
            ComposeService {
                name: "web".to_owned(),
                image: Some("nginx:1".to_owned()),
                environment: vec![EnvBinding { key: "PORT".to_owned(), evidence: line_evidence("docker-compose.yml") }],
                depends_on: vec!["db".to_owned(), "cache".to_owned()],
                evidence: line_evidence("docker-compose.yml"),
            },
            ComposeService {
                name: "db".to_owned(),
                image: None,
                environment: Vec::new(),
                depends_on: Vec::new(),
                evidence: line_evidence("docker-compose.yml"),
            },
        ],
    };
    state.process_compose(&artifact, &profile, &node);
    let targets: Vec<(String, RelationKind)> =
        state.relations.iter().map(|relation| (relation.target.as_str().to_owned(), relation.kind)).collect();
    assert_eq!(
        targets,
        vec![
            ("config:docker-compose.yml#services.web".to_owned(), RelationKind::Contains),
            ("image:nginx:1".to_owned(), RelationKind::UsesImage),
            ("env:PORT".to_owned(), RelationKind::ReadsEnv),
            ("config:docker-compose.yml#services.db".to_owned(), RelationKind::References),
            ("unresolved:cache".to_owned(), RelationKind::References),
            ("config:docker-compose.yml#services.db".to_owned(), RelationKind::Contains),
        ]
    );
    assert!(has_node(&state, "unresolved:cache"));
    assert!(has_node(&state, "config:docker-compose.yml#services.db"));
    assert_eq!(state.relations[3].source.as_str(), "config:docker-compose.yml#services.web");
}

#[test]
fn workflow_jobs_run_commands_and_build_images() {
    let artifact = infra_artifact(".github/workflows/ci.yml", ArtifactCategory::ContinuousIntegration);
    let mut state = BuilderState::new(&vec![infra_artifact(".github/workflows/ci.yml", ArtifactCategory::ContinuousIntegration)]);
    let node = state.add_artifact_node(&artifact);
    let profile = ActionsProfile {
        jobs: vec![ActionsJob {
            id: "build".to_owned(),
            evidence: line_evidence(".github/workflows/ci.yml"),
            steps: vec![
                ActionsStep {
                    env: vec![EnvBinding { key: "TOKEN".to_owned(), evidence: line_evidence(".github/workflows/ci.yml") }],
                    run: Some("cargo test".to_owned()),
                    hint: None,
                    evidence: line_evidence(".github/workflows/ci.yml"),
                },
                ActionsStep {
                    env: Vec::new(),
                    run: None,
                    hint: Some(ActionsStepHint::Build { image: None }),
                    evidence: line_evidence(".github/workflows/ci.yml"),
                },
                ActionsStep {
                    env: Vec::new(),
                    run: None,
                    hint: Some(ActionsStepHint::Publish { image: Some("ghcr.io/acme/app".to_owned()) }),
                    evidence: line_evidence(".github/workflows/ci.yml"),
                },
            ],
        }],
    };
    state.process_actions(&artifact, &profile, &node);
    assert_eq!(
        relation_summary(&state),
        vec![
            ("relation:1".to_owned(), "artifact:.github/workflows/ci.yml".to_owned(), "config:.github/workflows/ci.yml#jobs.build".to_owned(), RelationKind::Contains, Confidence::High),
            ("relation:2".to_owned(), "config:.github/workflows/ci.yml#jobs.build".to_owned(), "env:TOKEN".to_owned(), RelationKind::ReadsEnv, Confidence::High),
            ("relation:3".to_owned(), "config:.github/workflows/ci.yml#jobs.build".to_owned(), "command:.github/workflows/ci.yml#jobs.build.steps[0]".to_owned(), RelationKind::RunsCommand, Confidence::High),
            ("relation:4".to_owned(), "config:.github/workflows/ci.yml#jobs.build".to_owned(), "unresolved:dynamic-image".to_owned(), RelationKind::BuildsImage, Confidence::Low),
            ("relation:5".to_owned(), "config:.github/workflows/ci.yml#jobs.build".to_owned(), "image:ghcr.io/acme/app".to_owned(), RelationKind::PublishesImage, Confidence::High),
        ]
    );
    assert!(state.nodes.iter().any(|node| matches!(
        node,
        GraphNode::Command(command) if command.provenance == CommandProvenance::BuildAutomation
    )));
    assert!(state.nodes.iter().any(|node| matches!(
        node,
        GraphNode::Config(config) if config.id.as_str() == "config:.github/workflows/ci.yml#jobs.build"
            && config.kind == ConfigNodeKind::Job && config.name == "build"
    )));
    assert!(state.nodes.iter().any(|node| matches!(
        node,
        GraphNode::Command(command) if command.id.as_str() == "command:.github/workflows/ci.yml#jobs.build.steps[0]"
            && command.text == "cargo test"
    )));
}

fn config_reference(kind: ConfigReferenceKind, value: &str, config_path: &str) -> ConfigReference {
    ConfigReference {
        kind,
        value: value.to_owned(),
        config_path: config_path.to_owned(),
        evidence: line_evidence("deploy/app.yaml"),
    }
}

#[test]
fn structured_values_become_references_and_configuration_nodes() {
    let artifact = infra_artifact("deploy/app.yaml", ArtifactCategory::Configuration);
    let mut state = BuilderState::new(&vec![
        infra_artifact("deploy/app.yaml", ArtifactCategory::Configuration),
        infra_artifact("scripts/start.sh", ArtifactCategory::SourceCode),
    ]);
    let node = state.add_artifact_node(&artifact);
    let analysis = StructuredAnalysis {
        references: vec![
            config_reference(ConfigReferenceKind::Path, "./scripts/start.sh", "entry"),
            config_reference(ConfigReferenceKind::Url, "https://example.com", "docs"),
            config_reference(ConfigReferenceKind::Port, "8080", "server.port"),
            config_reference(ConfigReferenceKind::Image, "redis:7", "cache.image"),
            config_reference(ConfigReferenceKind::Service, "worker", "services.worker"),
            config_reference(ConfigReferenceKind::Command, "make run", "run"),
            config_reference(ConfigReferenceKind::EnvironmentVariable, "DATABASE_URL", "db.url"),
        ],
    };
    state.process_structured(&artifact, &analysis, &node);
    let targets: Vec<(String, RelationKind, Confidence)> = state
        .relations
        .iter()
        .map(|relation| (relation.target.as_str().to_owned(), relation.kind, relation.confidence))
        .collect();
    assert_eq!(
        targets,
        vec![
            ("artifact:scripts/start.sh".to_owned(), RelationKind::References, Confidence::High),
            ("unresolved:https://example.com".to_owned(), RelationKind::References, Confidence::Low),
            ("config:deploy/app.yaml#server.port".to_owned(), RelationKind::Contains, Confidence::High),
            ("image:redis:7".to_owned(), RelationKind::UsesImage, Confidence::High),
            ("config:deploy/app.yaml#services.worker".to_owned(), RelationKind::Contains, Confidence::High),
            ("command:deploy/app.yaml#run".to_owned(), RelationKind::RunsCommand, Confidence::High),
            ("env:DATABASE_URL".to_owned(), RelationKind::ReadsEnv, Confidence::High),
        ]
    );
    assert!(!has_node(&state, "artifact:scripts/start.sh"));
    assert!(has_node(&state, "unresolved:https://example.com"));
    assert!(state.nodes.iter().any(|node| matches!(
        node,
        GraphNode::Config(config) if config.id.as_str() == "config:deploy/app.yaml#server.port"
            && config.kind == ConfigNodeKind::Port && config.name == "8080"
    )));
    assert!(state.nodes.iter().any(|node| matches!(
        node,
        GraphNode::Command(command) if command.id.as_str() == "command:deploy/app.yaml#run" && command.text == "make run"
    )));
}

#[test]
fn recorded_nodes_stay_and_new_nodes_carry_their_names() {
    let artifact = infra_artifact("deploy/app.yaml", ArtifactCategory::Configuration);
    let mut state = BuilderState::new(&vec![infra_artifact("deploy/app.yaml", ArtifactCategory::Configuration)]);
    let node = state.add_artifact_node(&artifact);
    state.insert(GraphNode::EnvVar(EnvVarNode { id: GraphNodeId::new("env:HOME"), name: "first".to_owned() }));
    let analysis = StructuredAnalysis {
        references: vec![
            config_reference(ConfigReferenceKind::EnvironmentVariable, "HOME", "home"),
            config_reference(ConfigReferenceKind::Image, "registry/${TAG}", "image"),
            config_reference(ConfigReferenceKind::Url, "https://example.com/x", "link"),
        ],
    };
    state.process_structured(&artifact, &analysis, &node);
    let found = |id: &str| state.nodes.iter().find(|n| n.id().as_str() == id);
    assert!(matches!(found("env:HOME"), Some(GraphNode::EnvVar(e)) if e.name == "first"));
    assert!(matches!(
        found("image:registry/${TAG}"),
        Some(GraphNode::Container(c)) if c.reference == "registry/${TAG}" && c.is_dynamic
    ));
    assert!(matches!(
        found("unresolved:https://example.com/x"),
        Some(GraphNode::Unresolved(u)) if u.value == "https://example.com/x"
    ));
}

#[test]
fn relate_if_absent_skips_a_recorded_edge() {
    let mut state = BuilderState::new(&Vec::new());
    let a = GraphNodeId::new("artifact:a");
    let b = GraphNodeId::new("env:B");
    state.relate_if_absent(a.clone(), b.clone(), RelationKind::ReadsEnv, Confidence::High, vec![line_evidence("a")], None);
    state.relate_if_absent(a.clone(), b.clone(), RelationKind::ReadsEnv, Confidence::Low, Vec::new(), None);
    state.relate_if_absent(a.clone(), b.clone(), RelationKind::References, Confidence::Low, Vec::new(), None);
    assert_eq!(
        relation_summary(&state),
        vec![
            ("relation:1".to_owned(), "artifact:a".to_owned(), "env:B".to_owned(), RelationKind::ReadsEnv, Confidence::High),
            ("relation:2".to_owned(), "artifact:a".to_owned(), "env:B".to_owned(), RelationKind::References, Confidence::Low),
        ]
    );
    assert_eq!(state.relation_count, 2);
}

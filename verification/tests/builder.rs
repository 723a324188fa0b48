use lithograph::builder::{
    command_provenance, graph_build_pass_order, innermost_symbol, prune_orphaned_unresolved_nodes, Artifact, BuilderState, GraphBuildTraceConfig,
    GraphBuildTraceDetail, GraphBuilder, RustWorkspacePackage, SymbolSpan, GRAPH_BUILD_PIPELINE_VERSION,
};
use lithograph::infra::{
    AnalyzerOutput, ComposeProfile, ComposeService, DockerCommand, DockerStage, DockerfileAnalysis, EnvBinding,
};
use lithograph::manifests::{format_provenance, DeclaredPackage, PackageManifestAnalysis};
use lithograph::model::{
    RelationResolution,
    ArtifactCategory, CommandProvenance, Confidence, EvidenceRef, Graph, GraphNode, GraphNodeId, ModuleLanguage, RelationKind, SourceSpan,
    UnresolvedNode,
};

fn none_for(artifacts: &Vec<Artifact>) -> Vec<Option<AnalyzerOutput>> {
    artifacts.iter().map(|_| None).collect()
}

fn fixture_artifact(path: &str, category: ArtifactCategory, format: Option<&str>) -> Artifact {
    Artifact {
        id: format!("id:{path}"),
        path: path.to_owned(),
        category,
        detected_format: format.map(|value| value.to_owned()),
    }
}

/// The artifacts of a small polyglot repository.
fn fixture_artifacts() -> Vec<Artifact> {
    vec![
        fixture_artifact("Dockerfile", ArtifactCategory::BuildDefinition, Some("dockerfile")),
        fixture_artifact("data/sample.bin", ArtifactCategory::Data, None),
        fixture_artifact("rust/Cargo.toml", ArtifactCategory::BuildDefinition, Some("toml")),
        fixture_artifact("rust/src/bin/worker.rs", ArtifactCategory::SourceCode, Some("rust")),
        fixture_artifact("rust/src/lib.rs", ArtifactCategory::SourceCode, Some("rust")),
        fixture_artifact("src/python_app/__init__.py", ArtifactCategory::SourceCode, Some("python")),
        fixture_artifact("src/python_app/service.py", ArtifactCategory::SourceCode, Some("python")),
        fixture_artifact("web/src/App.tsx", ArtifactCategory::SourceCode, Some("tsx")),
    ]
}

/// The Cargo workspace of the fixture: one package with a library and a binary target.
fn fixture_workspace() -> Vec<RustWorkspacePackage> {
    vec![RustWorkspacePackage {
        name: "fixture-worker".to_owned(),
        target_paths: vec!["rust/src/lib.rs".to_owned(), "rust/src/bin/worker.rs".to_owned()],
    }]
}

fn has_node(graph: &Graph, id: &str) -> bool {
    graph.nodes.iter().any(|node| node.id().as_str() == id)
}

fn check_cache_none_matches_build() {
    let artifacts = fixture_artifacts();
    let workspace = fixture_workspace();
    let via_build = GraphBuilder.build(&artifacts, &none_for(&artifacts), &workspace);
    let via_build_with_cache = GraphBuilder.build_with_cache(&artifacts, &none_for(&artifacts), &workspace);
    assert_eq!(via_build, via_build_with_cache);
}

#[test]
fn builder_build_with_cache_none_matches_build() {
    check_cache_none_matches_build();
}

#[test]
fn mod_build_with_cache_none_matches_build() {
    check_cache_none_matches_build();
}

fn check_report_passes() {
    let artifacts = fixture_artifacts();
    let workspace = fixture_workspace();
    let first = GraphBuilder.build_with_report(&artifacts, &none_for(&artifacts), &workspace);
    let second = GraphBuilder.build_with_report(&artifacts, &none_for(&artifacts), &workspace);
    assert_eq!(first.pipeline_version, GRAPH_BUILD_PIPELINE_VERSION);
    assert_eq!(first.passes.iter().map(|pass| pass.pass).collect::<Vec<_>>(), graph_build_pass_order());
    assert_eq!(first.graph, second.graph);
    assert_eq!(first.passes, second.passes);
    assert_eq!(first.trace, second.trace);
    assert_eq!(first.graph, GraphBuilder.build(&artifacts, &none_for(&artifacts), &workspace));
}

#[test]
fn builder_build_report_exposes_deterministic_typed_passes() {
    check_report_passes();
}

#[test]
fn mod_build_report_exposes_deterministic_typed_passes() {
    check_report_passes();
}

fn check_keeps_every_artifact() {
    let artifacts = fixture_artifacts();
    let graph = GraphBuilder.build(&artifacts, &none_for(&artifacts), &fixture_workspace());
    for artifact in &artifacts {
        let id = format!("artifact:{}", artifact.path);
        assert!(has_node(&graph, &id), "missing artifact node for {}", artifact.path);
    }
    assert!(has_node(&graph, "artifact:data/sample.bin"));
}

#[test]
fn builder_graph_keeps_every_artifact_node_including_unsupported() {
    check_keeps_every_artifact();
}

#[test]
fn materialize_graph_keeps_every_artifact_node_including_unsupported() {
    check_keeps_every_artifact();
}

fn check_rust_module_paths() {
    let graph = GraphBuilder.build(&fixture_artifacts(), &none_for(&fixture_artifacts()), &fixture_workspace());
    assert!(has_node(&graph, "module:"), "expected the lib target's crate root to map to the empty module path");
    assert!(has_node(&graph, "module:worker"), "expected the bin target's own root to map to just its target name");
    assert!(!has_node(&graph, "module:rust::src"), "the old naive whole-path module id must no longer appear");
    assert!(!has_node(&graph, "module:rust::src::bin::worker"), "the old naive whole-path module id must no longer appear");
    let lib_belongs_to_root = graph.relations.iter().any(|relation| {
        relation.kind == RelationKind::BelongsToModule
            && relation.source.as_str() == "artifact:rust/src/lib.rs"
            && relation.target.as_str() == "module:"
    });
    assert!(lib_belongs_to_root);
}

#[test]
fn builder_rust_module_paths_are_corrected_by_cargo_metadata_crate_roots() {
    check_rust_module_paths();
}

#[test]
fn rust_rust_module_paths_are_corrected_by_cargo_metadata_crate_roots() {
    check_rust_module_paths();
}

fn check_syntax_errors_degrade() {
    let artifacts = vec![
        fixture_artifact("broken.json", ArtifactCategory::Configuration, Some("json")),
        fixture_artifact("broken.py", ArtifactCategory::SourceCode, Some("python")),
        fixture_artifact("broken.rs", ArtifactCategory::SourceCode, Some("rust")),
    ];
    let graph = GraphBuilder.build(&artifacts, &none_for(&artifacts), &Vec::new());
    assert_eq!(artifacts.len(), 3);
    let artifact_paths: Vec<&str> = artifacts.iter().map(|artifact| artifact.path.as_str()).collect();
    assert!(artifact_paths.contains(&"broken.py"));
    assert!(artifact_paths.contains(&"broken.json"));
    assert!(artifact_paths.contains(&"broken.rs"));
    for path in ["broken.py", "broken.json", "broken.rs"] {
        assert!(
            graph.nodes.iter().any(|node| matches!(node, GraphNode::Artifact(artifact) if artifact.path == path)),
            "missing artifact node for {path}"
        );
    }
}

#[test]
fn builder_syntax_error_fixture_degrades_gracefully_without_panicking() {
    check_syntax_errors_degrade();
}

#[test]
fn evidence_syntax_error_fixture_degrades_gracefully_without_panicking() {
    check_syntax_errors_degrade();
}

#[test]
fn smallest_symbol_owner_picks_innermost_then_breaks_ties_by_id() {
    let mut state = BuilderState::new(&Vec::new());
    state.env_symbols_by_artifact.push((
        "app-id".to_owned(),
        vec![
            (1, 20, GraphNodeId::new("symbol:app.py#outer")),
            (5, 10, GraphNodeId::new("symbol:app.py#inner_b")),
            (5, 10, GraphNodeId::new("symbol:app.py#inner_a")),
        ],
    ));
    let at = |line: u32| EvidenceRef::file("app-id", "app.py").with_span(SourceSpan::new(line, line).expect("span"));
    assert_eq!(
        state.smallest_symbol_owner(&at(7)).map(|id| id.as_str().to_owned()),
        Some("symbol:app.py#inner_a".to_owned())
    );
    assert_eq!(
        state.smallest_symbol_owner(&at(2)).map(|id| id.as_str().to_owned()),
        Some("symbol:app.py#outer".to_owned())
    );
    assert_eq!(state.smallest_symbol_owner(&at(25)), None);
}

fn span_symbol(id: &str, start: u32, end: u32) -> SymbolSpan {
    SymbolSpan { id: GraphNodeId::new(id), span: SourceSpan::new(start, end).expect("span") }
}

#[test]
fn picks_the_innermost_containing_symbol() {
    let spans = vec![span_symbol("class", 10, 40), span_symbol("method", 20, 30)];
    assert_eq!(
        innermost_symbol(&spans, 25),
        Some(GraphNodeId::new("method")),
        "a note inside a method explains the method, not its class",
    );
    assert_eq!(innermost_symbol(&spans, 15), Some(GraphNodeId::new("class")), "a note between methods explains the class");
    assert_eq!(innermost_symbol(&spans, 5), None, "a note outside every symbol belongs to the artifact");
}

#[test]
fn packages_are_upgraded_to_local_and_kept_first() {
    let mut state = BuilderState::new(&Vec::new());
    let external = state.package("serde", true);
    assert_eq!(external.as_str(), "package:serde");
    let again = state.package("serde", false);
    assert_eq!(again, external);
    assert_eq!(state.nodes.len(), 1);
    match &state.nodes[0] {
        GraphNode::Package(package) => assert!(!package.is_external),
        other => panic!("unexpected node {other:?}"),
    }
    state.package("serde", true);
    match &state.nodes[0] {
        GraphNode::Package(package) => assert!(!package.is_external),
        other => panic!("unexpected node {other:?}"),
    }
}

#[test]
fn images_paths_and_relations_follow_the_builder_rules() {
    let artifacts = vec![fixture_artifact("src/app.py", ArtifactCategory::SourceCode, Some("python"))];
    let mut state = BuilderState::new(&artifacts);
    let image = state.image("registry/app:${TAG}");
    assert_eq!(image.as_str(), "image:registry/app:${TAG}");
    assert!(matches!(&state.nodes[0], GraphNode::Container(container) if container.is_dynamic));
    assert_eq!(state.resolve_path("./src/app.py").map(|id| id.as_str().to_owned()), Some("artifact:src/app.py".to_owned()));
    assert_eq!(state.resolve_path("src/missing.py"), None);
    let (target, confidence) = state.reference_target("src/missing.py");
    assert_eq!(target.as_str(), "unresolved:src/missing.py");
    assert_eq!(confidence, Confidence::Low);
    state.relate(GraphNodeId::new("a"), GraphNodeId::new("b"), RelationKind::Calls, Confidence::High, Vec::new());
    state.relate(GraphNodeId::new("b"), GraphNodeId::new("c"), RelationKind::Calls, Confidence::High, Vec::new());
    let ids: Vec<&str> = state.relations.iter().map(|relation| relation.id.as_str()).collect();
    assert_eq!(ids, vec!["relation:1", "relation:2"]);
    assert_eq!(state.rust_module_path("src/lib.rs"), "src");
}

#[test]
fn full_trace_keeps_every_stage_and_canonical_selectors() {
    let config = GraphBuildTraceConfig {
        detail: GraphBuildTraceDetail::Full,
        selectors: vec!["service.py".to_owned(), "service.py".to_owned()],
    };
    let output = GraphBuilder.build_with_trace(&fixture_artifacts(), &none_for(&fixture_artifacts()), &fixture_workspace(), config);
    let trace = output.trace.as_ref().expect("trace");
    assert_eq!(trace.selectors, vec!["service.py".to_owned()]);
    assert_eq!(trace.stages.iter().map(|stage| stage.pass).collect::<Vec<_>>(), graph_build_pass_order());
    assert!(trace.stages.iter().all(|stage| stage.graph.is_some()));
    assert_eq!(output.graph, GraphBuilder.build(&fixture_artifacts(), &none_for(&fixture_artifacts()), &fixture_workspace()));
}

#[test]
fn orphaned_unresolved_nodes_are_pruned() {
    let mut graph = GraphBuilder.build(&fixture_artifacts(), &none_for(&fixture_artifacts()), &fixture_workspace());
    graph.nodes.push(GraphNode::Unresolved(UnresolvedNode { id: GraphNodeId::new("unresolved:gone"), value: "gone".to_owned() }));
    let before = graph.nodes.len();
    prune_orphaned_unresolved_nodes(&mut graph);
    assert_eq!(graph.nodes.len(), before - 1);
    assert!(!has_node(&graph, "unresolved:gone"));
}

#[test]
fn command_provenance_follows_documentation_and_build_categories() {
    let readme = fixture_artifact("README.md", ArtifactCategory::Documentation, Some("markdown"));
    let script = fixture_artifact("scripts/run.sh", ArtifactCategory::SourceCode, None);
    let ci = fixture_artifact(".github/workflows/ci.yml", ArtifactCategory::ContinuousIntegration, Some("github-actions"));
    assert_eq!(
        command_provenance(&readme, &EvidenceRef::file("r", "README.md")),
        CommandProvenance::DocumentationExample
    );
    assert_eq!(
        command_provenance(&script, &EvidenceRef::file("s", "project/Docs/run.sh")),
        CommandProvenance::DocumentationExample
    );
    assert_eq!(
        command_provenance(&script, &EvidenceRef::file("s", "scripts/run.sh")),
        CommandProvenance::Executable
    );
    assert_eq!(
        command_provenance(&ci, &EvidenceRef::file("c", ".github/workflows/ci.yml")),
        CommandProvenance::BuildAutomation
    );
    let mut state = BuilderState::new(&vec![fixture_artifact("scripts/run.sh", ArtifactCategory::SourceCode, None)]);
    let id = state.command(&script, "3", "make test", EvidenceRef::file("s", "docs/run.sh"));
    assert_eq!(id.as_str(), "command:scripts/run.sh#3");
    let graph = state.snapshot();
    assert!(graph.nodes.iter().any(|node| matches!(
        node,
        GraphNode::Command(command) if command.provenance == CommandProvenance::DocumentationExample
    )));
}

#[test]
fn structural_nodes_carry_their_packages_artifacts_and_modules() {
    let graph = GraphBuilder.build(&fixture_artifacts(), &none_for(&fixture_artifacts()), &fixture_workspace());
    let find = |id: &str| graph.nodes.iter().find(|node| node.id().as_str() == id);
    assert!(matches!(
        find("package:fixture-worker"),
        Some(GraphNode::Package(package)) if package.name == "fixture-worker" && !package.is_external
    ));
    assert!(matches!(
        find("artifact:data/sample.bin"),
        Some(GraphNode::Artifact(artifact)) if artifact.path == "data/sample.bin"
            && artifact.category == ArtifactCategory::Data
            && artifact.evidence.artifact_id == "id:data/sample.bin"
            && artifact.evidence.span.is_none()
    ));
    assert!(matches!(
        find("module:src.python_app.service"),
        Some(GraphNode::Module(module)) if module.path == "src.python_app.service"
            && module.language == ModuleLanguage::Python
            && module.evidence.path == "src/python_app/service.py"
    ));
}

#[test]
fn analyzer_outputs_become_graph_facts_after_the_structure() {
    let artifacts = fixture_artifacts();
    let mut outputs = none_for(&artifacts);
    let evidence = EvidenceRef::file("id:Dockerfile", "Dockerfile");
    outputs[0] = Some(AnalyzerOutput::Dockerfile(DockerfileAnalysis {
        stages: vec![DockerStage { image: "python:3.12-slim".to_owned(), evidence: evidence.clone() }],
        env: vec![EnvBinding { key: "APP_ENV".to_owned(), evidence: evidence.clone() }],
        args: Vec::new(),
        commands: vec![DockerCommand { line: 3, command: "pip install .".to_owned(), is_run: true, evidence: evidence.clone() }],
    }));
    let graph = GraphBuilder.build(&artifacts, &outputs, &fixture_workspace());
    assert!(has_node(&graph, "image:python:3.12-slim"));
    assert!(has_node(&graph, "env:APP_ENV"));
    assert!(has_node(&graph, "command:Dockerfile#3"));
    assert!(has_node(&graph, "artifact:Dockerfile"));
    let from_docker: Vec<(&str, RelationKind)> = graph
        .relations
        .iter()
        .filter(|r| r.source.as_str() == "artifact:Dockerfile")
        .map(|r| (r.target.as_str(), r.kind))
        .collect();
    assert_eq!(from_docker.len(), 3);
    assert!(from_docker.contains(&("image:python:3.12-slim", RelationKind::UsesImage)));
    assert!(from_docker.contains(&("env:APP_ENV", RelationKind::ReadsEnv)));
    assert!(from_docker.contains(&("command:Dockerfile#3", RelationKind::RunsCommand)));
    assert!(graph.relations.iter().all(|r| !r.evidence.is_empty()));
    let plain = GraphBuilder.build(&artifacts, &none_for(&artifacts), &fixture_workspace());
    assert_eq!(graph.nodes.len(), plain.nodes.len() + 3);
}

#[test]
fn package_declarations_agree_in_either_order() {
    let mut one = BuilderState::new(&Vec::new());
    one.package("serde", true);
    one.package("serde", false);
    let mut two = BuilderState::new(&Vec::new());
    two.package("serde", false);
    two.package("serde", true);
    for state in [&one, &two] {
        assert!(matches!(
            state.nodes.as_slice(),
            [GraphNode::Package(p)] if p.name == "serde" && !p.is_external && p.id.as_str() == "package:serde"
        ));
    }
}

/// The fixture with a Compose file, and the outputs its Dockerfile, Compose
/// file, and Cargo manifest give.
fn image_fixture() -> (Vec<Artifact>, Vec<Option<AnalyzerOutput>>) {
    let mut artifacts = fixture_artifacts();
    artifacts.insert(2, fixture_artifact("docker-compose.yml", ArtifactCategory::Configuration, Some("yaml")));
    let mut outputs = none_for(&artifacts);
    let docker = EvidenceRef::file("id:Dockerfile", "Dockerfile");
    outputs[0] = Some(AnalyzerOutput::Dockerfile(DockerfileAnalysis {
        stages: vec![DockerStage { image: "python:3.12-slim".to_owned(), evidence: docker.clone() }],
        env: Vec::new(),
        args: Vec::new(),
        commands: Vec::new(),
    }));
    let compose = EvidenceRef::file("id:docker-compose.yml", "docker-compose.yml");
    outputs[2] = Some(AnalyzerOutput::Compose(ComposeProfile {
        services: vec![ComposeService {
            name: "web".to_owned(),
            image: Some("node:24-alpine".to_owned()),
            environment: Vec::new(),
            depends_on: Vec::new(),
            evidence: compose,
        }],
    }));
    let cargo = EvidenceRef::file("id:rust/Cargo.toml", "rust/Cargo.toml");
    outputs[3] = Some(AnalyzerOutput::PackageManifest(
        PackageManifestAnalysis {
            local_package: Some(DeclaredPackage { name: "fixture-worker".to_owned(), evidence: cargo.clone() }),
            dependencies: vec![DeclaredPackage { name: "anyhow".to_owned(), evidence: cargo }],
        },
        format_provenance("toml", None, RelationResolution::SyntaxOnly, Confidence::High),
    ));
    (artifacts, outputs)
}

fn check_dockerfile_and_compose_image_nodes() {
    let (artifacts, outputs) = image_fixture();
    let graph = GraphBuilder.build(&artifacts, &outputs, &fixture_workspace());
    assert!(graph
        .relations
        .iter()
        .any(|relation| relation.kind == RelationKind::UsesImage && relation.source.as_str() == "artifact:Dockerfile"));
    assert!(graph
        .relations
        .iter()
        .any(|relation| relation.kind == RelationKind::UsesImage && relation.target.as_str() == "image:node:24-alpine"));
    assert!(graph.nodes.iter().any(|node| node.id().as_str() == "package:fixture-worker"));
    assert!(graph
        .relations
        .iter()
        .any(|relation| relation.kind == RelationKind::DependsOnPackage && relation.target.as_str() == "package:anyhow"));
}

#[test]
fn builder_graph_links_dockerfile_and_compose_to_image_nodes() {
    check_dockerfile_and_compose_image_nodes();
}

#[test]
fn packages_graph_links_dockerfile_and_compose_to_image_nodes() {
    check_dockerfile_and_compose_image_nodes();
}

#[test]
fn manifests_keep_workspace_packages_local_and_are_related_after_other_outputs() {
    let (artifacts, outputs) = image_fixture();
    let graph = GraphBuilder.build(&artifacts, &outputs, &fixture_workspace());
    let worker = graph.nodes.iter().find(|node| node.id().as_str() == "package:fixture-worker").unwrap();
    match worker {
        GraphNode::Package(p) => assert!(!p.is_external),
        _ => panic!("expected a package node"),
    }
    let anyhow = graph.nodes.iter().find(|node| node.id().as_str() == "package:anyhow").unwrap();
    match anyhow {
        GraphNode::Package(p) => assert!(p.is_external),
        _ => panic!("expected a package node"),
    }
    let belongs = graph
        .relations
        .iter()
        .find(|r| r.kind == RelationKind::BelongsToPackage && r.source.as_str() == "artifact:rust/Cargo.toml")
        .unwrap();
    let provenance = belongs.provenance.as_ref().unwrap();
    assert_eq!(provenance.language.as_deref(), Some("toml"));
    assert_eq!(provenance.resolver_strategy, "syntax-extraction");
    assert_eq!(graph, GraphBuilder.build(&artifacts, &outputs, &fixture_workspace()));
}

#[test]
fn any_number_of_package_declarations_agree_in_any_order() {
    let orders = [[true, true, false], [false, true, true], [true, false, true]];
    for order in orders.iter() {
        let mut state = BuilderState::new(&Vec::new());
        for external in order.iter() {
            assert_eq!(state.package("tokio", *external).as_str(), "package:tokio");
        }
        match state.nodes.iter().find(|n| n.id().as_str() == "package:tokio").unwrap() {
            GraphNode::Package(p) => {
                assert_eq!(p.name, "tokio");
                assert!(!p.is_external);
            },
            _ => panic!("expected a package node"),
        }
    }
    let mut all_external = BuilderState::new(&Vec::new());
    all_external.package("tokio", true);
    all_external.package("tokio", true);
    all_external.package("tokio", true);
    match all_external.nodes.iter().find(|n| n.id().as_str() == "package:tokio").unwrap() {
        GraphNode::Package(p) => assert!(p.is_external),
        _ => panic!("expected a package node"),
    }
}

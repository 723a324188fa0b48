use lithograph::builder::{Artifact, BuilderState};
use lithograph::manifests::{
    format_provenance, python_dependency_name, CargoPackage, CargoProfile, DeclaredPackage, PackageManifestAnalysis,
    PyDependency, PyProject, PyProjectProfile, RequirementsProfile,
};
use lithograph::model::{ArtifactCategory, Confidence, EvidenceRef, GraphNode, RelationKind, RelationResolution};

fn manifest_artifact(path: &str) -> Artifact {
    Artifact { id: format!("id:{path}"), path: path.to_owned(), category: ArtifactCategory::BuildDefinition, detected_format: None }
}

fn evidence(path: &str) -> EvidenceRef {
    EvidenceRef::file(&format!("id:{path}"), path)
}

fn declared(name: &str, path: &str) -> DeclaredPackage {
    DeclaredPackage { name: name.to_owned(), evidence: evidence(path) }
}

fn package(state: &BuilderState, id: &str) -> Option<(String, bool)> {
    state.nodes.iter().find_map(|node| match node {
        GraphNode::Package(p) if p.id.as_str() == id => Some((p.name.clone(), p.is_external)),
        _ => None,
    })
}

fn relation_summary(state: &BuilderState) -> Vec<(String, String, String, RelationKind)> {
    state
        .relations
        .iter()
        .map(|r| (r.id.clone(), r.source.as_str().to_owned(), r.target.as_str().to_owned(), r.kind))
        .collect()
}

#[test]
fn manifest_analyses_produce_local_and_external_package_nodes() {
    let artifact = manifest_artifact("package.json");
    let mut state = BuilderState::new(&vec![manifest_artifact("package.json")]);
    let node = state.add_artifact_node(&artifact);
    let analysis = PackageManifestAnalysis {
        local_package: Some(declared("acme-web", "package.json")),
        dependencies: vec![declared("react", "package.json")],
    };
    let provenance = format_provenance("package-json", None, RelationResolution::SyntaxOnly, Confidence::High);
    state.process_package_manifest(&analysis, &provenance, &node);
    assert_eq!(package(&state, "package:acme-web"), Some(("acme-web".to_owned(), false)));
    assert_eq!(package(&state, "package:react"), Some(("react".to_owned(), true)));
    assert_eq!(
        relation_summary(&state),
        vec![
            ("relation:1".to_owned(), "artifact:package.json".to_owned(), "package:acme-web".to_owned(), RelationKind::BelongsToPackage),
            ("relation:2".to_owned(), "package:acme-web".to_owned(), "package:react".to_owned(), RelationKind::DependsOnPackage),
        ]
    );
    let recorded = state.relations[1].provenance.as_ref().unwrap();
    assert_eq!(recorded.language.as_deref(), Some("package-json"));
    assert_eq!(recorded.resolver_strategy, "syntax-extraction");
    assert_eq!(recorded.resolution, RelationResolution::SyntaxOnly);
    assert_eq!(state.relations[1].confidence, Confidence::High);
}

#[test]
fn manifest_without_local_package_hangs_dependencies_off_the_artifact() {
    let artifact = manifest_artifact("build.gradle");
    let mut state = BuilderState::new(&vec![manifest_artifact("build.gradle")]);
    let node = state.add_artifact_node(&artifact);
    let analysis = PackageManifestAnalysis {
        local_package: None,
        dependencies: vec![declared("com.squareup.okhttp3:okhttp", "build.gradle")],
    };
    let provenance = format_provenance("gradle", Some("gradle-dependencies"), RelationResolution::SyntaxOnly, Confidence::High);
    state.process_package_manifest(&analysis, &provenance, &node);
    assert_eq!(
        relation_summary(&state),
        vec![(
            "relation:1".to_owned(),
            "artifact:build.gradle".to_owned(),
            "package:com.squareup.okhttp3:okhttp".to_owned(),
            RelationKind::DependsOnPackage
        )]
    );
    assert_eq!(state.relations[0].provenance.as_ref().unwrap().resolver_strategy, "gradle-dependencies");
}

#[test]
fn a_declared_local_package_stays_local_when_depended_on_by_name() {
    let artifact = manifest_artifact("Cargo.toml");
    let mut state = BuilderState::new(&vec![manifest_artifact("Cargo.toml")]);
    let node = state.add_artifact_node(&artifact);
    state.package("worker", true);
    let profile = CargoProfile {
        package: Some(CargoPackage { name: Some("worker".to_owned()), evidence: evidence("Cargo.toml") }),
        dependencies: vec![declared("anyhow", "Cargo.toml"), declared("worker", "Cargo.toml")],
    };
    state.process_cargo(&profile, None, &node);
    assert_eq!(package(&state, "package:worker"), Some(("worker".to_owned(), false)));
    assert_eq!(package(&state, "package:anyhow"), Some(("anyhow".to_owned(), true)));
    assert_eq!(state.relations.len(), 3);
    assert_eq!(state.relations[0].provenance.as_ref().unwrap().language.as_deref(), Some("toml"));
}

#[test]
fn cargo_manifest_without_package_name_records_nothing() {
    let artifact = manifest_artifact("Cargo.toml");
    let mut state = BuilderState::new(&vec![manifest_artifact("Cargo.toml")]);
    let node = state.add_artifact_node(&artifact);
    let nodes_before = state.nodes.len();
    let profile = CargoProfile {
        package: Some(CargoPackage { name: None, evidence: evidence("Cargo.toml") }),
        dependencies: vec![declared("serde", "Cargo.toml")],
    };
    state.process_cargo(&profile, None, &node);
    let no_table = CargoProfile { package: None, dependencies: vec![declared("serde", "Cargo.toml")] };
    state.process_cargo(&no_table, None, &node);
    assert_eq!(state.nodes.len(), nodes_before);
    assert!(state.relations.is_empty());
}

#[test]
fn requirements_hang_off_the_requirements_file() {
    let artifact = manifest_artifact("requirements.txt");
    let mut state = BuilderState::new(&vec![manifest_artifact("requirements.txt")]);
    let node = state.add_artifact_node(&artifact);
    let profile = RequirementsProfile {
        requirements: vec![declared("requests", "requirements.txt"), declared("flask", "requirements.txt")],
    };
    state.process_requirements(&profile, None, &node);
    assert_eq!(
        relation_summary(&state),
        vec![
            ("relation:1".to_owned(), "artifact:requirements.txt".to_owned(), "package:requests".to_owned(), RelationKind::DependsOnPackage),
            ("relation:2".to_owned(), "artifact:requirements.txt".to_owned(), "package:flask".to_owned(), RelationKind::DependsOnPackage),
        ]
    );
    assert_eq!(state.relations[0].provenance.as_ref().unwrap().language.as_deref(), Some("requirements-txt"));
}

#[test]
fn pyproject_dependencies_are_named_by_their_requirement_prefix() {
    let artifact = manifest_artifact("pyproject.toml");
    let mut state = BuilderState::new(&vec![manifest_artifact("pyproject.toml")]);
    let node = state.add_artifact_node(&artifact);
    let profile = PyProjectProfile {
        project: Some(PyProject {
            name: Some("service".to_owned()),
            evidence: evidence("pyproject.toml"),
            dependencies: vec![
                PyDependency { requirement: "requests>=2.31".to_owned(), evidence: evidence("pyproject.toml") },
                PyDependency { requirement: "zope.interface[test] ; python_version > '3'".to_owned(), evidence: evidence("pyproject.toml") },
            ],
        }),
    };
    state.process_pyproject(&profile, None, &node);
    assert_eq!(
        relation_summary(&state),
        vec![
            ("relation:1".to_owned(), "artifact:pyproject.toml".to_owned(), "package:service".to_owned(), RelationKind::BelongsToPackage),
            ("relation:2".to_owned(), "package:service".to_owned(), "package:requests".to_owned(), RelationKind::DependsOnPackage),
            ("relation:3".to_owned(), "package:service".to_owned(), "package:zope.interface".to_owned(), RelationKind::DependsOnPackage),
        ]
    );
    let unnamed = PyProjectProfile {
        project: Some(PyProject { name: None, evidence: evidence("pyproject.toml"), dependencies: vec![] }),
    };
    state.process_pyproject(&unnamed, None, &node);
    assert_eq!(state.relations.len(), 3);
}

#[test]
fn python_dependency_name_takes_the_leading_name_run() {
    assert_eq!(python_dependency_name("requests>=2.31"), "requests");
    assert_eq!(python_dependency_name("python-dateutil"), "python-dateutil");
    assert_eq!(python_dependency_name("zope.interface[test]"), "zope.interface");
    assert_eq!(python_dependency_name("café_au_lait==1"), "café_au_lait");
    assert_eq!(python_dependency_name(">=1.0"), "");
    assert_eq!(python_dependency_name(""), "");
}

use lithograph::builder::{Artifact, BuilderState, GraphBuilder, RustWorkspacePackage};
use lithograph::infra::AnalyzerOutput;
use lithograph::markdown::{
    link_path_of, MarkdownAnalysis, MarkdownCommand, MarkdownHeading, MarkdownLink, MarkdownPathRef,
};
use lithograph::model::{ArtifactCategory, CommandProvenance, EvidenceRef, GraphNode, RelationKind, SourceSpan};

fn doc_artifact(path: &str, category: ArtifactCategory) -> Artifact {
    Artifact { id: format!("id:{path}"), path: path.to_owned(), category, detected_format: Some("markdown".to_owned()) }
}

fn at_line(path: &str, line: u32) -> EvidenceRef {
    let mut evidence = EvidenceRef::file(&format!("id:{path}"), path);
    evidence.span = Some(SourceSpan { start_line: line, end_line: line });
    evidence
}

fn guide_analysis() -> MarkdownAnalysis {
    MarkdownAnalysis {
        headings: vec![
            MarkdownHeading { text: "Guide".to_owned(), evidence: at_line("docs/guide.md", 1) },
            MarkdownHeading { text: "Setup".to_owned(), evidence: at_line("docs/guide.md", 5) },
        ],
        links: vec![
            MarkdownLink {
                target: "../src/app.py#L10".to_owned(),
                local: true,
                relative: "src/app.py".to_owned(),
                evidence: at_line("docs/guide.md", 3),
            },
            MarkdownLink {
                target: "https://example.com".to_owned(),
                local: false,
                relative: String::new(),
                evidence: at_line("docs/guide.md", 4),
            },
            MarkdownLink {
                target: " /README.md?plain ".to_owned(),
                local: true,
                relative: "docs/README.md".to_owned(),
                evidence: at_line("docs/guide.md", 6),
            },
            MarkdownLink {
                target: "missing.md".to_owned(),
                local: true,
                relative: "docs/missing.md".to_owned(),
                evidence: at_line("docs/guide.md", 7),
            },
        ],
        source_paths: vec![MarkdownPathRef {
            path: "./src/app.py".to_owned(),
            relative: "docs/src/app.py".to_owned(),
            evidence: at_line("docs/guide.md", 8),
        }],
        commands: vec![MarkdownCommand { command: "make test".to_owned(), evidence: at_line("docs/guide.md", 10) }],
    }
}

fn guide_artifacts() -> Vec<Artifact> {
    vec![
        doc_artifact("README.md", ArtifactCategory::Documentation),
        doc_artifact("docs/guide.md", ArtifactCategory::Documentation),
        Artifact {
            id: "id:src/app.py".to_owned(),
            path: "src/app.py".to_owned(),
            category: ArtifactCategory::SourceCode,
            detected_format: Some("python".to_owned()),
        },
    ]
}

#[test]
fn link_paths_drop_fragments_queries_and_surrounding_space() {
    assert_eq!(link_path_of("../src/app.py#L10"), "../src/app.py");
    assert_eq!(link_path_of(" /README.md?plain "), "/README.md");
    assert_eq!(link_path_of("#top"), "");
    assert_eq!(link_path_of("\tnotes.md\u{3000}"), "notes.md");
}

#[test]
fn markdown_headings_links_and_commands_become_graph_facts() {
    let artifacts = guide_artifacts();
    let mut state = BuilderState::new(&artifacts);
    let node = state.add_artifact_node(&artifacts[1]);
    state.process_markdown(&artifacts[1], &guide_analysis(), &node);
    let summary: Vec<(String, String, RelationKind)> = state
        .relations
        .iter()
        .map(|r| (r.source.as_str().to_owned(), r.target.as_str().to_owned(), r.kind))
        .collect();
    let doc = "artifact:docs/guide.md".to_owned();
    assert_eq!(
        summary,
        vec![
            (doc.clone(), "doc:docs/guide.md#1".to_owned(), RelationKind::Contains),
            (doc.clone(), "doc:docs/guide.md#5".to_owned(), RelationKind::Contains),
            (doc.clone(), "artifact:src/app.py".to_owned(), RelationKind::References),
            (doc.clone(), "artifact:README.md".to_owned(), RelationKind::References),
            (doc.clone(), "artifact:src/app.py".to_owned(), RelationKind::References),
            (doc.clone(), "command:docs/guide.md#10".to_owned(), RelationKind::RunsCommand),
        ]
    );
    let setup = state.nodes.iter().find(|n| n.id().as_str() == "doc:docs/guide.md#5").unwrap();
    match setup {
        GraphNode::Documentation(d) => assert_eq!(d.title, "Setup"),
        _ => panic!("expected a documentation node"),
    }
    let command = state.nodes.iter().find(|n| n.id().as_str() == "command:docs/guide.md#10").unwrap();
    match command {
        GraphNode::Command(c) => {
            assert_eq!(c.text, "make test");
            assert_eq!(c.provenance, CommandProvenance::DocumentationExample);
        },
        _ => panic!("expected a command node"),
    }
}

#[test]
fn build_records_markdown_outputs() {
    let artifacts = guide_artifacts();
    let outputs = vec![None, Some(AnalyzerOutput::Markdown(guide_analysis())), None];
    let workspace: Vec<RustWorkspacePackage> = Vec::new();
    let graph = GraphBuilder.build(&artifacts, &outputs, &workspace);
    let kinds: Vec<&str> = graph
        .nodes
        .iter()
        .map(|n| match n {
            GraphNode::Documentation(_) => "doc",
            GraphNode::Command(_) => "command",
            GraphNode::Artifact(_) => "artifact",
            GraphNode::Module(_) => "module",
            _ => "other",
        })
        .collect();
    assert_eq!(kinds.iter().filter(|k| **k == "doc").count(), 2);
    assert_eq!(kinds.iter().filter(|k| **k == "command").count(), 1);
    assert!(graph
        .relations
        .iter()
        .any(|r| r.source.as_str() == "artifact:docs/guide.md" && r.target.as_str() == "artifact:README.md" && r.kind == RelationKind::References));
    assert_eq!(graph, GraphBuilder.build(&artifacts, &outputs, &workspace));
}

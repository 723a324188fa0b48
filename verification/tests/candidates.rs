use lithograph::builder::{BuilderState, GraphBuildTraceDetail};
use lithograph::candidates::clone_candidates;
use lithograph::model::{EvidenceRef, GraphNode, GraphNodeId, RelationKind, RelationResolution, SourceSpan, SymbolKind, SymbolNode};

const CLONES_PY: &str = "\
def calculate_total(items):
    total = 0
    for item in items:
        total += item.price
    return total


def calculate_total_v2(items):
    total = 0
    for item in items:
        total += item.price * 2
    return total


def render_report(data):
    output = []
    for section in data.sections:
        output.append(section.title)
    return \"\\n\".join(output)
";

fn function(name: &str, start: u32, end: u32) -> GraphNode {
    let mut evidence = EvidenceRef::file("id:clones.py", "clones.py");
    evidence.span = Some(SourceSpan { start_line: start, end_line: end });
    GraphNode::Symbol(SymbolNode {
        id: GraphNodeId::new(&format!("symbol:clones.py#clones::{name}")),
        kind: SymbolKind::Function,
        qualified_name: format!("clones::{name}"),
        doc: None,
        evidence,
    })
}

fn clone_state() -> BuilderState {
    let mut state = BuilderState::new(&Vec::new());
    state.insert(function("calculate_total", 1, 5));
    state.insert(function("calculate_total_v2", 8, 12));
    state.insert(function("render_report", 15, 19));
    state
}

#[test]
fn candidates_take_eligible_symbols_with_first_seen_token_ids() {
    let state = clone_state();
    let texts = vec![("clones.py".to_owned(), CLONES_PY.to_owned())];
    let candidates = clone_candidates(&state.nodes, &texts);
    assert_eq!(candidates.len(), 3);
    assert!(candidates.iter().all(|c| c.language == "py"));
    // The first candidate in node order sees its words first: ids 0.. in word order.
    assert_eq!(candidates[0].id.as_str(), "symbol:clones.py#clones::calculate_total");
    assert_eq!(candidates[0].tokens, (0..9).collect::<Vec<u32>>());
    assert_eq!(candidates[0].size_band, 3);
    // No text for the file: no candidates.
    assert!(clone_candidates(&state.nodes, &Vec::new()).is_empty());
}

#[test]
fn near_identical_function_bodies_give_a_similar_to_relation() {
    let texts = vec![("clones.py".to_owned(), CLONES_PY.to_owned())];
    let mut state = clone_state();
    let (_, found) = state.detect_near_clones_in(&texts, GraphBuildTraceDetail::Summary, &vec![]);
    assert!(found.recorded);
    let similar: Vec<(String, String)> = state
        .relations
        .iter()
        .filter(|r| r.kind == RelationKind::SimilarTo)
        .map(|r| (r.source.as_str().to_owned(), r.target.as_str().to_owned()))
        .collect();
    assert_eq!(
        similar,
        vec![("symbol:clones.py#clones::calculate_total".to_owned(), "symbol:clones.py#clones::calculate_total_v2".to_owned())]
    );
    let provenance = state.relations[0].provenance.as_ref().unwrap();
    assert_eq!(provenance.resolver_strategy, "lexical-jaccard-similarity");
    assert_eq!(provenance.resolution, RelationResolution::HybridResolved);
    let mut again = clone_state();
    again.detect_near_clones_in(&texts, GraphBuildTraceDetail::Summary, &vec![]);
    assert_eq!(again.relations, state.relations);
}

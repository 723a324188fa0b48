use lithograph::builder::{BuilderState, GraphBuildTraceDetail};
use lithograph::clones::{
    band_pairs, is_clone_eligible, is_in_band, size_band, verdict, verify_clone_pairs, CloneCandidate, CloneVerdict,
};
use lithograph::model::{Confidence, EvidenceRef, GraphNodeId, RelationKind, SourceSpan, SymbolKind, SymbolNode};

fn candidate(id: &str, tokens: Vec<u32>) -> CloneCandidate {
    CloneCandidate {
        id: GraphNodeId::new(id),
        evidence: EvidenceRef::file(&format!("id:{id}"), id),
        tokens,
        language: "py".to_owned(),
        size_band: 2,
    }
}

fn same(a: &CloneVerdict, b: &CloneVerdict) -> bool {
    match (a, b) {
        (CloneVerdict::Emit(x), CloneVerdict::Emit(y)) => x == y,
        (CloneVerdict::NearThreshold, CloneVerdict::NearThreshold) => true,
        (CloneVerdict::Below, CloneVerdict::Below) => true,
        _ => false,
    }
}

#[test]
fn verdicts_compare_the_jaccard_ratio_exactly() {
    // 3 shared of 5: exactly the emission threshold.
    assert!(same(&verdict(&vec![1, 2, 3, 4], &vec![1, 2, 3, 5]), &CloneVerdict::Emit(Confidence::Low)));
    // 17 shared of 20: exactly the high-confidence threshold.
    let a: Vec<u32> = (0..19).collect();
    let mut b: Vec<u32> = (0..17).collect();
    b.push(100);
    assert!(same(&verdict(&a, &b), &CloneVerdict::Emit(Confidence::High)));
    // 7 shared of 20: exactly the near threshold.
    let c: Vec<u32> = (0..13).collect();
    let mut d: Vec<u32> = (0..7).collect();
    d.extend(100..107);
    assert!(same(&verdict(&c, &d), &CloneVerdict::NearThreshold));
    // 1 shared of 3: below.
    assert!(same(&verdict(&vec![1, 2], &vec![2, 3]), &CloneVerdict::Below));
    // Nothing at all: below.
    assert!(same(&verdict(&Vec::new(), &Vec::new()), &CloneVerdict::Below));
}

#[test]
fn verified_pairs_become_similar_to_relations_smaller_id_first() {
    let candidates = vec![
        candidate("symbol:b", vec![1, 2, 3, 4, 5]),
        candidate("symbol:a", vec![1, 2, 3, 4, 6]),
        candidate("symbol:c", vec![1, 2, 7, 8, 9]),
    ];
    let result = verify_clone_pairs(&candidates, &vec![(0, 1), (0, 2), (1, 2)], GraphBuildTraceDetail::Summary, &vec![]);
    assert!(result.decisions.is_empty());
    assert_eq!(result.emitted_count, 1);
    assert_eq!(result.rejected_near_threshold_count, 0);
    assert_eq!(result.relations.len(), 1);
    let r = &result.relations[0];
    assert_eq!((r.source.as_str(), r.target.as_str(), r.confidence), ("symbol:a", "symbol:b", Confidence::Low));
    assert_eq!(r.left_evidence.path, "symbol:b");

    let mut state = BuilderState::new(&Vec::new());
    state.record_similar(&result.relations);
    assert_eq!(state.relations.len(), 1);
    let recorded = &state.relations[0];
    assert_eq!(recorded.id, "relation:1");
    assert_eq!(recorded.kind, RelationKind::SimilarTo);
    assert_eq!(recorded.evidence.len(), 2);
    let provenance = recorded.provenance.as_ref().expect("provenance");
    assert_eq!(provenance.resolver_strategy, "lexical-jaccard-similarity");
}

fn sized(id: &str, language: &str, count: u32) -> CloneCandidate {
    let tokens: Vec<u32> = (0..count).collect();
    let band = size_band(tokens.len());
    CloneCandidate {
        id: GraphNodeId::new(id),
        evidence: EvidenceRef::file(&format!("id:{id}"), id),
        tokens,
        language: language.to_owned(),
        size_band: band,
    }
}

fn symbol(kind: SymbolKind, span: Option<SourceSpan>) -> SymbolNode {
    let mut evidence = EvidenceRef::file("id:a.py", "a.py");
    evidence.span = span;
    SymbolNode { id: GraphNodeId::new("symbol:a.py#f"), kind, qualified_name: "f".to_owned(), doc: None, evidence }
}

#[test]
fn size_bands_are_base_two_logarithms() {
    assert_eq!(size_band(0), 0);
    assert_eq!(size_band(1), 0);
    assert_eq!(size_band(2), 1);
    assert_eq!(size_band(3), 1);
    assert_eq!(size_band(4), 2);
    assert_eq!(size_band(1023), 9);
    assert_eq!(size_band(1024), 10);
    assert_eq!(size_band(usize::MAX), usize::BITS - 1);
}

#[test]
fn only_functions_and_methods_of_three_lines_are_candidates() {
    assert!(is_clone_eligible(&symbol(SymbolKind::Function, Some(SourceSpan { start_line: 4, end_line: 6 }))));
    assert!(is_clone_eligible(&symbol(SymbolKind::Method, Some(SourceSpan { start_line: 1, end_line: 9 }))));
    assert!(!is_clone_eligible(&symbol(SymbolKind::Function, Some(SourceSpan { start_line: 4, end_line: 5 }))));
    assert!(!is_clone_eligible(&symbol(SymbolKind::Class, Some(SourceSpan { start_line: 1, end_line: 9 }))));
    assert!(!is_clone_eligible(&symbol(SymbolKind::Function, None)));
}

#[test]
fn band_pairs_keep_one_language_and_comparable_sizes() {
    let candidates = vec![
        sized("a", "py", 10),
        sized("b", "py", 6),
        sized("c", "py", 5),
        sized("d", "rs", 10),
        sized("e", "py", 40),
    ];
    // 6/10 is exactly 3/5; 5/10 falls short; 10 and 40 are two bands apart.
    assert!(is_in_band(&candidates[0], &candidates[1]));
    assert!(!is_in_band(&candidates[0], &candidates[2]));
    assert!(!is_in_band(&candidates[0], &candidates[4]));
    assert_eq!(band_pairs(&candidates), vec![(0, 1), (1, 2)]);
}

#[test]
fn near_clone_detection_records_the_emitted_pairs() {
    let candidates = vec![
        sized("symbol:b.py#g", "py", 10),
        sized("symbol:a.py#f", "py", 9),
        sized("symbol:c.rs#h", "rs", 10),
    ];
    let mut state = BuilderState::new(&vec![]);
    let found = state.detect_near_clones(&candidates, GraphBuildTraceDetail::Summary, &vec![]);
    assert!(found.recorded);
    assert_eq!(found.pairs, vec![(0, 1)]);
    assert_eq!(found.verification.emitted_count, 1);
    assert_eq!(state.relations.len(), 1);
    assert_eq!(state.relations[0].source.as_str(), "symbol:a.py#f");
    assert_eq!(state.relations[0].target.as_str(), "symbol:b.py#g");
    assert_eq!(state.relations[0].kind, RelationKind::SimilarTo);
    assert_eq!(state.relations[0].confidence, Confidence::High);
}

#[test]
fn clone_set_identity_ignores_descriptor_order() {
    let expected = blake3::hash(b"clone-v1|pipeline-v1|min3|sim600000|trace350000|high850000\na\nb\n").to_hex().to_string();
    assert_eq!(lithograph::clones::clone_set_identity(&vec!["b".to_owned(), "a".to_owned()]), expected);
    assert_eq!(lithograph::clones::clone_set_identity(&vec!["a".to_owned(), "b".to_owned()]), expected);
    assert_ne!(lithograph::clones::clone_set_identity(&vec!["a".to_owned()]), expected);
}

#[test]
fn traced_pairs_record_their_verdicts_in_millionths() {
    let candidates = vec![
        candidate("symbol:b", vec![1, 2, 3, 4, 5]),
        candidate("symbol:a", vec![1, 2, 3, 4, 6]),
        candidate("symbol:c", vec![1, 2, 3, 7, 8]),
    ];
    let pairs = vec![(0, 1), (0, 2), (1, 2)];
    let full = verify_clone_pairs(&candidates, &pairs, GraphBuildTraceDetail::Full, &vec![]);
    // 4 of 6 is emitted; 3 of 7 is near the threshold.
    assert_eq!(full.decisions.len(), 3);
    assert_eq!(full.decisions[0].outcome, "emitted");
    assert_eq!(full.decisions[0].score_millionths, 666667);
    assert_eq!(full.decisions[0].source, "symbol:b");
    assert_eq!(full.decisions[0].target, "symbol:a");
    assert_eq!(full.decisions[0].kind, "near_clone");
    assert_eq!(full.decisions[0].strategy, "lexical_jaccard_similarity");
    assert_eq!(full.decisions[0].evidence_paths, vec!["symbol:b".to_owned(), "symbol:a".to_owned()]);
    assert_eq!(full.decisions[1].outcome, "rejected");
    assert_eq!(full.decisions[1].score_millionths, 428571);
    assert_eq!(full.rejected_near_threshold_count, 2);
    let selected = verify_clone_pairs(&candidates, &pairs, GraphBuildTraceDetail::Summary, &vec!["symbol:c".to_owned()]);
    assert_eq!(selected.decisions.len(), 2);
    assert_eq!(selected.decisions[0].target, "symbol:c");
}

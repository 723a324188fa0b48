//! Near-clone detection: which symbols are candidates, their size bands,
//! the in-band pairs of each language, the exact Jaccard verdict on a pair
//! of functions' token sets, the `SimilarTo` relations a stream of
//! candidate pairs gives, and their recording in the builder state.

use vstd::prelude::*;
use crate::builder::{numbered, BuilderState};
use crate::clone_tokens::{increasing, shared_count, shared_tokens};
use crate::model::{
    Confidence, EvidenceRef, GraphNodeId, Relation, RelationKind, RelationProvenance, RelationResolution, SymbolKind, SymbolNode,
};
use crate::sorting::{lemma_sort_map, sort_by, sort_spec};
use crate::strmap::views;
use crate::builder::GraphBuildTraceDetail;
use crate::decisions::{decision_views, DecisionView, GraphDecisionTrace};
use crate::text::{decimal, decimal_string, owned, seq_contains, seq_less, str_contains, str_less};

verus! {

/// One function or method whose body takes part in near-clone detection:
/// its node id, its evidence, its body's token ids (strictly increasing),
/// its file extension, and its size band.
pub struct CloneCandidate {
    pub id: GraphNodeId,
    pub evidence: EvidenceRef,
    pub tokens: Vec<u32>,
    pub language: String,
    pub size_band: u32,
}

/// A `SimilarTo` relation that verification found, before it is recorded.
pub struct VerifiedRelation {
    pub source: GraphNodeId,
    pub target: GraphNodeId,
    pub confidence: Confidence,
    pub left_evidence: EvidenceRef,
    pub right_evidence: EvidenceRef,
}

/// The relations one pair stream gives, with how many pairs were emitted
/// and how many fell short of the emission threshold but reached the
/// near-threshold one.
pub struct CloneVerification {
    pub relations: Vec<VerifiedRelation>,
    /// The traced verdicts, in pair order.
    pub decisions: Vec<GraphDecisionTrace>,
    pub emitted_count: u64,
    pub rejected_near_threshold_count: u64,
}

/// What verification decides for one pair.
#[derive(PartialEq, Eq, Structural)]
pub enum CloneVerdict {
    /// At least 3/5 similar: emitted, with high confidence from 17/20 on.
    Emit(Confidence),
    /// Below 3/5 but at least 7/20 similar.
    NearThreshold,
    /// Below 7/20 similar, or both sets empty.
    Below,
}

/// The verdict for a pair sharing `shared` tokens out of `union`: the
/// Jaccard ratio `shared / union` compared exactly with the emission
/// threshold 3/5, the high-confidence threshold 17/20, and the
/// near-threshold 7/20. An empty union has ratio 0.
pub open spec fn clone_verdict(shared: nat, union: nat) -> CloneVerdict {
    if union == 0 {
        CloneVerdict::Below
    } else if 5 * shared >= 3 * union {
        CloneVerdict::Emit(if 20 * shared >= 17 * union { Confidence::High } else { Confidence::Low })
    } else if 20 * shared >= 7 * union {
        CloneVerdict::NearThreshold
    } else {
        CloneVerdict::Below
    }
}

/// The verdict for the candidates at `i` and `j`.
pub open spec fn pair_verdict(c: Seq<CloneCandidate>, i: int, j: int) -> CloneVerdict {
    let a = c[i].tokens@;
    let b = c[j].tokens@;
    let shared = shared_count(a, b);
    clone_verdict(shared, (a.len() + b.len() - shared) as nat)
}

/// What a verified relation says: its ends, the smaller id first, its
/// confidence, and the evidence of the pair's left and right candidates.
pub open spec fn relation_for(c: Seq<CloneCandidate>, i: int, j: int, confidence: Confidence) -> (Seq<char>, Seq<char>, Confidence, EvidenceRef, EvidenceRef) {
    let l = c[i].id@;
    let r = c[j].id@;
    let (source, target) = if seq_less(r, l) { (r, l) } else { (l, r) };
    (source, target, confidence, c[i].evidence, c[j].evidence)
}

/// The relations the pairs give, in pair order.
pub open spec fn verified_relations(c: Seq<CloneCandidate>, pairs: Seq<(u32, u32)>) -> Seq<(Seq<char>, Seq<char>, Confidence, EvidenceRef, EvidenceRef)>
    decreases pairs.len(),
{
    if pairs.len() == 0 {
        Seq::empty()
    } else {
        let prior = verified_relations(c, pairs.drop_last());
        let p = pairs.last();
        match pair_verdict(c, p.0 as int, p.1 as int) {
            CloneVerdict::Emit(conf) => prior.push(relation_for(c, p.0 as int, p.1 as int, conf)),
            _ => prior,
        }
    }
}

/// How many of the pairs reach the near-threshold without being emitted.
pub open spec fn near_count(c: Seq<CloneCandidate>, pairs: Seq<(u32, u32)>) -> nat
    decreases pairs.len(),
{
    if pairs.len() == 0 {
        0
    } else {
        near_count(c, pairs.drop_last()) + if pair_verdict(c, pairs.last().0 as int, pairs.last().1 as int) == CloneVerdict::NearThreshold {
            1nat
        } else {
            0nat
        }
    }
}

/// The value of a verified relation.
pub open spec fn verified_view(v: VerifiedRelation) -> (Seq<char>, Seq<char>, Confidence, EvidenceRef, EvidenceRef) {
    (v.source@, v.target@, v.confidence, v.left_evidence, v.right_evidence)
}

/// The verdict for two token lists, computed exactly.
pub fn verdict(a: &Vec<u32>, b: &Vec<u32>) -> (v: CloneVerdict)
    requires
        increasing(a@),
        increasing(b@),
    ensures
        v == clone_verdict(shared_count(a@, b@), (a@.len() + b@.len() - shared_count(a@, b@)) as nat),
{
    let shared = shared_tokens(a, b);
    let s = shared as u128;
    let u = a.len() as u128 + b.len() as u128 - s;
    if u == 0 {
        CloneVerdict::Below
    } else if 5 * s >= 3 * u {
        if 20 * s >= 17 * u {
            CloneVerdict::Emit(Confidence::High)
        } else {
            CloneVerdict::Emit(Confidence::Low)
        }
    } else if 20 * s >= 7 * u {
        CloneVerdict::NearThreshold
    } else {
        CloneVerdict::Below
    }
}

/// The Jaccard ratio `shared / union` in millionths, rounded to the
/// nearest with halves up; 0 for an empty union.
pub open spec fn score_millionths(shared: nat, union: nat) -> nat {
    if union == 0 {
        0
    } else {
        (2 * 1_000_000 * shared + union) / (2 * union)
    }
}

/// The score of the pair at `i` and `j`.
pub open spec fn pair_score(c: Seq<CloneCandidate>, i: int, j: int) -> nat {
    let shared = shared_count(c[i].tokens@, c[j].tokens@);
    score_millionths(shared, (c[i].tokens@.len() + c[j].tokens@.len() - shared) as nat)
}

/// A pair is traced at full detail without selectors, or when a selector
/// occurs in either candidate's id or evidence path.
pub open spec fn pair_traced(c: Seq<CloneCandidate>, i: int, j: int, detail: GraphBuildTraceDetail, selectors: Seq<Seq<char>>) -> bool {
    ||| detail == GraphBuildTraceDetail::Full && selectors.len() == 0
    ||| exists|k: int|
        0 <= k < selectors.len() && (seq_contains(c[i].id@, #[trigger] selectors[k]) || seq_contains(c[j].id@, selectors[k])
            || seq_contains(c[i].evidence.path@, selectors[k]) || seq_contains(c[j].evidence.path@, selectors[k]))
}

/// The traced decision on the pair at `i` and `j`.
pub open spec fn pair_decision(c: Seq<CloneCandidate>, i: int, j: int, outcome: Seq<char>, reason: Seq<char>) -> DecisionView {
    DecisionView {
        kind: "near_clone"@,
        source: c[i].id@,
        target: c[j].id@,
        strategy: "lexical_jaccard_similarity"@,
        outcome,
        score_millionths: pair_score(c, i, j),
        evidence_paths: seq![c[i].evidence.path@, c[j].evidence.path@],
        reason,
    }
}

/// The decisions tracing the pairs gives, in pair order: an emitted pair is
/// `emitted`, a pair only near the threshold `rejected`.
pub open spec fn clone_decisions(
    c: Seq<CloneCandidate>,
    pairs: Seq<(u32, u32)>,
    detail: GraphBuildTraceDetail,
    selectors: Seq<Seq<char>>,
) -> Seq<DecisionView>
    decreases pairs.len(),
{
    if pairs.len() == 0 {
        Seq::empty()
    } else {
        let prior = clone_decisions(c, pairs.drop_last(), detail, selectors);
        let (i, j) = (pairs.last().0 as int, pairs.last().1 as int);
        if !pair_traced(c, i, j, detail, selectors) {
            prior
        } else {
            match pair_verdict(c, i, j) {
                CloneVerdict::Emit(_) => prior.push(
                    pair_decision(c, i, j, "emitted"@, "exact Jaccard score met the configured emission threshold"@),
                ),
                CloneVerdict::NearThreshold => prior.push(
                    pair_decision(c, i, j, "rejected"@, "exact Jaccard score was below the configured emission threshold"@),
                ),
                CloneVerdict::Below => prior,
            }
        }
    }
}

/// Whether the pair of `left` and `right` is traced.
fn is_traced(left: &CloneCandidate, right: &CloneCandidate, detail: GraphBuildTraceDetail, selectors: &Vec<String>) -> (b: bool)
    ensures
        b == pair_traced(seq![*left, *right], 0, 1, detail, crate::strmap::views(selectors@)),
{
    let ghost c = seq![*left, *right];
    if detail == GraphBuildTraceDetail::Full && selectors.len() == 0 {
        return true;
    }
    let mut k: usize = 0;
    while k < selectors.len()
        invariant
            k <= selectors@.len(),
            c == seq![*left, *right],
            forall|q: int|
                0 <= q < k ==> !(seq_contains(c[0].id@, #[trigger] crate::strmap::views(selectors@)[q]) || seq_contains(c[1].id@, crate::strmap::views(selectors@)[q])
                    || seq_contains(c[0].evidence.path@, crate::strmap::views(selectors@)[q]) || seq_contains(c[1].evidence.path@, crate::strmap::views(selectors@)[q])),
        decreases selectors@.len() - k,
    {
        let sel = selectors[k].as_str();
        if str_contains(left.id.as_str(), sel) || str_contains(right.id.as_str(), sel) || str_contains(left.evidence.path.as_str(), sel)
            || str_contains(right.evidence.path.as_str(), sel) {
            assert(crate::strmap::views(selectors@)[k as int] == selectors@[k as int]@);
            return true;
        }
        k = k + 1;
    }
    false
}

/// The score of two token lists in millionths.
fn score_of(a: &Vec<u32>, b: &Vec<u32>) -> (r: u32)
    requires
        increasing(a@),
        increasing(b@),
    ensures
        r == score_millionths(shared_count(a@, b@), (a@.len() + b@.len() - shared_count(a@, b@)) as nat),
{
    let shared = shared_tokens(a, b);
    let s = shared as u128;
    let u = a.len() as u128 + b.len() as u128 - s;
    if u == 0 {
        return 0;
    }
    assert(s <= u);
    let q = (2_000_000 * s + u) / (2 * u);
    assert(q <= 1_000_000) by (nonlinear_arith)
        requires
            s <= u,
            u > 0,
            q == (2_000_000 * s + u) / (2 * u),
    {
        assert(2_000_000 * s + u < (1_000_001) * (2 * u));
    }
    q as u32
}

/// The decisions tracing the pairs gives ([`clone_decisions`]).
pub fn clone_decisions_of(
    candidates: &Vec<CloneCandidate>,
    pairs: &Vec<(u32, u32)>,
    detail: GraphBuildTraceDetail,
    selectors: &Vec<String>,
) -> (r: Vec<GraphDecisionTrace>)
    requires
        forall|k: int| 0 <= k < pairs@.len() ==> (#[trigger] pairs@[k]).0 < candidates@.len() && pairs@[k].1 < candidates@.len(),
        forall|k: int| 0 <= k < candidates@.len() ==> increasing((#[trigger] candidates@[k]).tokens@),
    ensures
        decision_views(r@) == clone_decisions(candidates@, pairs@, detail, crate::strmap::views(selectors@)),
{
    let ghost sels = crate::strmap::views(selectors@);
    let ghost c = candidates@;
    let mut out: Vec<GraphDecisionTrace> = Vec::new();
    let mut k: usize = 0;
    while k < pairs.len()
        invariant
            k <= pairs@.len(),
            c == candidates@,
            sels == crate::strmap::views(selectors@),
            forall|q: int| 0 <= q < pairs@.len() ==> (#[trigger] pairs@[q]).0 < c.len() && pairs@[q].1 < c.len(),
            forall|q: int| 0 <= q < c.len() ==> increasing((#[trigger] c[q]).tokens@),
            decision_views(out@) == clone_decisions(c, pairs@.take(k as int), detail, sels),
        decreases pairs@.len() - k,
    {
        let (i, j) = pairs[k];
        assert(pairs@.take(k + 1).drop_last() =~= pairs@.take(k as int));
        assert(pairs@.take(k + 1).last() == pairs@[k as int]);
        let left = &candidates[i as usize];
        let right = &candidates[j as usize];
        let traced = is_traced(left, right, detail, selectors);
        proof {
            let pair = seq![*left, *right];
            assert(pair_traced(pair, 0, 1, detail, sels) == pair_traced(c, i as int, j as int, detail, sels)) by {
                assert(pair[0] == c[i as int]);
                assert(pair[1] == c[j as int]);
            }
        }
        let v = verdict(&left.tokens, &right.tokens);
        proof {
            assert(pair_verdict(c, i as int, j as int) == v);
        }
        if traced {
            let outcome = match v {
                CloneVerdict::Emit(_) => Some(("emitted", "exact Jaccard score met the configured emission threshold")),
                CloneVerdict::NearThreshold => Some(("rejected", "exact Jaccard score was below the configured emission threshold")),
                CloneVerdict::Below => None,
            };
            match outcome {
                Some((o, why)) => {
                    let score = score_of(&left.tokens, &right.tokens);
                    let mut paths: Vec<String> = Vec::new();
                    paths.push(left.evidence.path.clone());
                    paths.push(right.evidence.path.clone());
                    let d = GraphDecisionTrace {
                        kind: owned("near_clone"),
                        source: owned(left.id.as_str()),
                        target: owned(right.id.as_str()),
                        strategy: owned("lexical_jaccard_similarity"),
                        outcome: owned(o),
                        score_millionths: score,
                        evidence_paths: paths,
                        reason: owned(why),
                    };
                    let ghost before = decision_views(out@);
                    proof {
                        assert(pair_verdict(c, i as int, j as int) == v);
                        assert(score == pair_score(c, i as int, j as int));
                        assert(crate::health::string_views(paths@) =~= seq![c[i as int].evidence.path@, c[j as int].evidence.path@]);
                        assert(d@ == pair_decision(c, i as int, j as int, o@, why@));
                    }
                    out.push(d);
                    assert(decision_views(out@) =~= before.push(d@));
                },
                None => {},
            }
        }
        k = k + 1;
    }
    assert(pairs@.take(k as int) =~= pairs@);
    out
}

/// Verifies the candidate pairs in order: each pair at or above the
/// emission threshold gives a `SimilarTo` relation between its two
/// candidates, the smaller id as source, and each pair only near it is
/// counted.
pub fn verify_clone_pairs(
    candidates: &Vec<CloneCandidate>,
    pairs: &Vec<(u32, u32)>,
    detail: GraphBuildTraceDetail,
    selectors: &Vec<String>,
) -> (r: CloneVerification)
    requires
        forall|k: int| 0 <= k < pairs@.len() ==> (#[trigger] pairs@[k]).0 < candidates@.len() && pairs@[k].1 < candidates@.len(),
        forall|k: int| 0 <= k < candidates@.len() ==> increasing((#[trigger] candidates@[k]).tokens@),
    ensures
        r.relations@.map_values(|v: VerifiedRelation| verified_view(v)) == verified_relations(candidates@, pairs@),
        r.emitted_count == verified_relations(candidates@, pairs@).len(),
        r.rejected_near_threshold_count == near_count(candidates@, pairs@),
        decision_views(r.decisions@) == clone_decisions(candidates@, pairs@, detail, views(selectors@)),
{
    let decisions = clone_decisions_of(candidates, pairs, detail, selectors);
    let mut relations: Vec<VerifiedRelation> = Vec::new();
    let mut emitted: u64 = 0;
    let mut near: u64 = 0;
    let mut k: usize = 0;
    while k < pairs.len()
        invariant
            k <= pairs@.len(),
            forall|q: int| 0 <= q < pairs@.len() ==> (#[trigger] pairs@[q]).0 < candidates@.len() && pairs@[q].1 < candidates@.len(),
            forall|q: int| 0 <= q < candidates@.len() ==> increasing((#[trigger] candidates@[q]).tokens@),
            relations@.map_values(|v: VerifiedRelation| verified_view(v)) == verified_relations(candidates@, pairs@.take(k as int)),
            emitted == verified_relations(candidates@, pairs@.take(k as int)).len(),
            near == near_count(candidates@, pairs@.take(k as int)),
            emitted + near <= k,
        decreases pairs@.len() - k,
    {
        let (i, j) = pairs[k];
        assert(pairs@.take(k + 1).drop_last() =~= pairs@.take(k as int));
        assert(pairs@.take(k + 1).last() == pairs@[k as int]);
        let left = &candidates[i as usize];
        let right = &candidates[j as usize];
        let v = verdict(&left.tokens, &right.tokens);
        match v {
            CloneVerdict::Emit(confidence) => {
                let (source, target) = if str_less(right.id.as_str(), left.id.as_str()) {
                    (right.id.clone(), left.id.clone())
                } else {
                    (left.id.clone(), right.id.clone())
                };
                let ghost before = relations@.map_values(|v: VerifiedRelation| verified_view(v));
                let made = VerifiedRelation {
                    source,
                    target,
                    confidence,
                    left_evidence: left.evidence.clone(),
                    right_evidence: right.evidence.clone(),
                };
                assert(verified_view(made) == relation_for(candidates@, i as int, j as int, confidence));
                relations.push(made);
                assert(relations@.map_values(|v: VerifiedRelation| verified_view(v)) =~= before.push(verified_view(made)));
                emitted = emitted + 1;
            },
            CloneVerdict::NearThreshold => {
                near = near + 1;
            },
            CloneVerdict::Below => {},
        }
        k = k + 1;
    }
    assert(pairs@.take(k as int) =~= pairs@);
    CloneVerification { relations, decisions, emitted_count: emitted, rejected_near_threshold_count: near }
}

/// `r` is the relation recorded as number `number` for the verified relation `v`.
pub open spec fn similar_recorded(r: Relation, number: int, v: VerifiedRelation) -> bool {
    &&& numbered(r@, number)
    &&& r@.source == v.source@
    &&& r@.target == v.target@
    &&& r.kind == RelationKind::SimilarTo
    &&& r.confidence == v.confidence
    &&& r.evidence@ == seq![v.left_evidence, v.right_evidence]
    &&& r.provenance matches Some(p) && p.language.is_none() && p.resolver_strategy@ == "lexical-jaccard-similarity"@
        && p.resolution == RelationResolution::HybridResolved && p.confidence == v.confidence
}

impl BuilderState {
    /// Records each verified relation, in order, as the next numbered
    /// `SimilarTo` relation with lexical-similarity provenance.
    pub fn record_similar(&mut self, verified: &Vec<VerifiedRelation>)
        requires
            old(self).wf(),
            old(self).relation_count + verified@.len() < usize::MAX,
        ensures
            final(self).wf(),
            final(self).nodes == old(self).nodes,
            final(self).artifact_paths == old(self).artifact_paths,
            final(self).relation_count == old(self).relation_count + verified@.len(),
            final(self).relations@.len() == old(self).relations@.len() + verified@.len(),
            forall|k: int| 0 <= k < old(self).relations@.len() ==> final(self).relations@[k] == old(self).relations@[k],
            forall|k: int|
                0 <= k < verified@.len() ==> similar_recorded(
                    #[trigger] final(self).relations@[old(self).relations@.len() + k],
                    old(self).relation_count + k + 1,
                    verified@[k],
                ),
    {
        let ghost start = *self;
        let mut k: usize = 0;
        while k < verified.len()
            invariant
                k <= verified@.len(),
                self.wf(),
                self.nodes == start.nodes,
                self.artifact_paths == start.artifact_paths,
                start.relation_count + verified@.len() < usize::MAX,
                self.relation_count == start.relation_count + k,
                self.relations@.len() == start.relations@.len() + k,
                forall|q: int| 0 <= q < start.relations@.len() ==> self.relations@[q] == start.relations@[q],
                forall|q: int|
                    0 <= q < k ==> similar_recorded(#[trigger] self.relations@[start.relations@.len() + q], start.relation_count + q + 1, verified@[q]),
            decreases verified@.len() - k,
        {
            let v = &verified[k];
            let ghost before = self.relations@;
            let mut evidence: Vec<EvidenceRef> = Vec::new();
            evidence.push(v.left_evidence.clone());
            evidence.push(v.right_evidence.clone());
            assert(evidence@ =~= seq![v.left_evidence, v.right_evidence]);
            let provenance = RelationProvenance {
                language: None,
                resolver_strategy: owned("lexical-jaccard-similarity"),
                resolution: RelationResolution::HybridResolved,
                confidence: v.confidence,
            };
            self.relate_with_provenance(v.source.clone(), v.target.clone(), RelationKind::SimilarTo, v.confidence, evidence, Some(provenance));
            assert forall|q: int| 0 <= q < start.relations@.len() implies self.relations@[q] == start.relations@[q] by {
                assert(self.relations@[q] == before[q]);
            }
            assert forall|q: int| 0 <= q < k + 1 implies similar_recorded(
                #[trigger] self.relations@[start.relations@.len() + q],
                start.relation_count + q + 1,
                verified@[q],
            ) by {
                if q < k {
                    assert(self.relations@[start.relations@.len() + q] == before[start.relations@.len() + q]);
                }
            }
            k = k + 1;
        }
    }
}


/// A symbol takes part in near-clone detection when it is a function or a
/// method whose evidence spans at least three lines.
pub open spec fn clone_eligible(s: SymbolNode) -> bool {
    &&& (s.kind == SymbolKind::Function || s.kind == SymbolKind::Method)
    &&& s.evidence.span matches Some(sp) && sp.end_line >= sp.start_line && sp.end_line - sp.start_line + 1 >= 3
}

/// Whether `s` takes part in near-clone detection.
pub fn is_clone_eligible(s: &SymbolNode) -> (b: bool)
    ensures
        b == clone_eligible(*s),
{
    let kind_ok = match s.kind {
        SymbolKind::Function => true,
        SymbolKind::Method => true,
        _ => false,
    };
    match &s.evidence.span {
        Some(sp) => kind_ok && sp.end_line >= sp.start_line && sp.end_line - sp.start_line >= 2,
        None => false,
    }
}

/// The integer base-2 logarithm of `n`, taking that of 0 and 1 to be 0.
pub open spec fn log2(n: nat) -> nat
    decreases n,
{
    if n <= 1 {
        0
    } else {
        1 + log2(n / 2)
    }
}

/// Two to the `k`.
pub open spec fn two_to(k: nat) -> nat
    decreases k,
{
    if k == 0 {
        1
    } else {
        2 * two_to((k - 1) as nat)
    }
}

proof fn lemma_log2_below(n: nat, k: nat)
    requires
        k >= 1,
        n < two_to(k),
    ensures
        log2(n) < k,
    decreases k,
{
    assert(two_to(1) == 2) by {
        reveal_with_fuel(two_to, 2);
    }
    if n > 1 && k > 1 {
        assert(two_to(k) == 2 * two_to((k - 1) as nat));
        assert(n / 2 < two_to((k - 1) as nat));
        lemma_log2_below(n / 2, (k - 1) as nat);
    }
}

/// The size band of a token set of `count` tokens: the base-2 logarithm of
/// the count (of 1 for an empty set), so sets within one band of each other
/// differ in size by less than a factor of four.
pub fn size_band(count: usize) -> (b: u32)
    ensures
        b == log2(if count == 0 { 1 } else { count as nat }),
{
    let start: usize = if count == 0 { 1 } else { count };
    let mut m: usize = start;
    let mut b: u32 = 0;
    proof {
        assert(two_to(64) == 0x1_0000_0000_0000_0000) by {
            reveal_with_fuel(two_to, 65);
        }
        lemma_log2_below(start as nat, 64);
    }
    while m > 1
        invariant
            1 <= m,
            b + log2(m as nat) == log2(start as nat),
            log2(start as nat) < 64,
        decreases m,
    {
        m = m / 2;
        b = b + 1;
    }
    b
}

/// Two candidates are compared when their size bands differ by at most one
/// and the smaller token set holds at least 3/5 as many tokens as the larger.
pub open spec fn in_band(a_len: nat, a_band: nat, b_len: nat, b_band: nat) -> bool {
    let smaller = if a_len <= b_len { a_len } else { b_len };
    let larger = if a_len <= b_len { b_len } else { a_len };
    &&& (if a_band >= b_band { a_band - b_band } else { b_band - a_band }) <= 1
    &&& 5 * smaller >= 3 * larger
}

/// Whether the candidates at `i` and `j` share a language and are in band.
pub open spec fn comparable(c: Seq<CloneCandidate>, i: int, j: int) -> bool {
    &&& c[i].language@ == c[j].language@
    &&& in_band(c[i].tokens@.len(), c[i].size_band as nat, c[j].tokens@.len(), c[j].size_band as nat)
}

/// Whether two candidates are in band.
pub fn is_in_band(a: &CloneCandidate, b: &CloneCandidate) -> (r: bool)
    ensures
        r == in_band(a.tokens@.len(), a.size_band as nat, b.tokens@.len(), b.size_band as nat),
{
    let gap = if a.size_band >= b.size_band { a.size_band - b.size_band } else { b.size_band - a.size_band };
    let (smaller, larger) = if a.tokens.len() <= b.tokens.len() {
        (a.tokens.len() as u128, b.tokens.len() as u128)
    } else {
        (b.tokens.len() as u128, a.tokens.len() as u128)
    };
    gap <= 1 && 5 * smaller >= 3 * larger
}

/// Pairs ordered by their first index, then their second.
pub open spec fn pair_before(p: (u32, u32), q: (u32, u32)) -> bool {
    p.0 < q.0 || (p.0 == q.0 && p.1 < q.1)
}

/// The pairs to verify among `c`: every `(i, j)` with `i < j` whose
/// candidates share a language and are in band, each once, in ascending order.
pub open spec fn band_pairs_of(c: Seq<CloneCandidate>, pairs: Seq<(u32, u32)>) -> bool {
    &&& forall|k: int, l: int| 0 <= k < l < pairs.len() ==> pair_before(#[trigger] pairs[k], #[trigger] pairs[l])
    &&& forall|k: int| 0 <= k < pairs.len() ==> (#[trigger] pairs[k]).0 < pairs[k].1 < c.len() && comparable(c, pairs[k].0 as int, pairs[k].1 as int)
    &&& forall|i: int, j: int| 0 <= i < j < c.len() && comparable(c, i, j) ==> pairs.contains((i as u32, j as u32))
}

/// The pairs of candidates to verify: those of one language whose sizes are
/// in band, in ascending order.
pub fn band_pairs(candidates: &Vec<CloneCandidate>) -> (pairs: Vec<(u32, u32)>)
    requires
        candidates@.len() <= u32::MAX,
    ensures
        band_pairs_of(candidates@, pairs@),
{
    let c = candidates;
    let n = c.len();
    let mut pairs: Vec<(u32, u32)> = Vec::new();
    let mut i: usize = 0;
    while i < n
        invariant
            n == c@.len(),
            n <= u32::MAX,
            i <= n,
            forall|k: int, l: int| 0 <= k < l < pairs@.len() ==> pair_before(#[trigger] pairs@[k], #[trigger] pairs@[l]),
            forall|k: int| 0 <= k < pairs@.len() ==> (#[trigger] pairs@[k]).0 < pairs@[k].1 < n && pairs@[k].0 < i && comparable(
                c@,
                pairs@[k].0 as int,
                pairs@[k].1 as int,
            ),
            forall|a: int, b: int| 0 <= a < b < n && a < i && comparable(c@, a, b) ==> pairs@.contains((a as u32, b as u32)),
        decreases n - i,
    {
        let mut j: usize = i + 1;
        while j < n
            invariant
                n == c@.len(),
                n <= u32::MAX,
                i < n,
                i + 1 <= j <= n,
                forall|k: int, l: int| 0 <= k < l < pairs@.len() ==> pair_before(#[trigger] pairs@[k], #[trigger] pairs@[l]),
                forall|k: int| 0 <= k < pairs@.len() ==> (#[trigger] pairs@[k]).0 < pairs@[k].1 < n && (pairs@[k].0 < i || (
                pairs@[k].0 == i && pairs@[k].1 < j)) && comparable(c@, pairs@[k].0 as int, pairs@[k].1 as int),
                forall|a: int, b: int|
                    0 <= a < b < n && (a < i || (a == i && b < j)) && comparable(c@, a, b) ==> pairs@.contains((a as u32, b as u32)),
            decreases n - j,
        {
            if crate::text::str_eq(c[i].language.as_str(), c[j].language.as_str()) && is_in_band(&c[i], &c[j]) {
                let ghost before = pairs@;
                pairs.push((i as u32, j as u32));
                proof {
                    assert forall|a: int, b: int|
                        0 <= a < b < n && (a < i || (a == i && b < j + 1)) && comparable(c@, a, b) implies pairs@.contains(
                        (a as u32, b as u32),
                    ) by {
                        if a == i && b == j {
                            assert(pairs@[before.len() as int] == (a as u32, b as u32));
                        } else {
                            let k = choose|k: int| 0 <= k < before.len() && before[k] == (a as u32, b as u32);
                            assert(pairs@[k] == before[k]);
                        }
                    }
                }
            } else {
                proof {
                    assert forall|a: int, b: int|
                        0 <= a < b < n && (a < i || (a == i && b < j + 1)) && comparable(c@, a, b) implies pairs@.contains(
                        (a as u32, b as u32),
                    ) by {
                        if a == i && b == j {
                            assert(c@[a].language@ == c@[b].language@);
                        }
                    }
                }
            }
            j = j + 1;
        }
        i = i + 1;
    }
    pairs
}


/// Two pair lists each strictly ascending and holding the same pairs are one list.
proof fn lemma_sorted_pairs_equal(p1: Seq<(u32, u32)>, p2: Seq<(u32, u32)>)
    requires
        forall|k: int, l: int| 0 <= k < l < p1.len() ==> pair_before(#[trigger] p1[k], #[trigger] p1[l]),
        forall|k: int, l: int| 0 <= k < l < p2.len() ==> pair_before(#[trigger] p2[k], #[trigger] p2[l]),
        forall|x: (u32, u32)| p1.contains(x) <==> p2.contains(x),
    ensures
        p1 == p2,
    decreases p1.len() + p2.len(),
{
    if p1.len() == 0 {
        if p2.len() > 0 {
            assert(p2.contains(p2[0]));
        }
        assert(p1 =~= p2);
    } else if p2.len() == 0 {
        assert(p1.contains(p1[0]));
    } else {
        assert(p1.contains(p1[0]));
        assert(p2.contains(p2[0]));
        let a = choose|k: int| 0 <= k < p2.len() && p2[k] == p1[0];
        let b = choose|k: int| 0 <= k < p1.len() && p1[k] == p2[0];
        if a > 0 {
            assert(pair_before(p2[0], p2[a]));
            if b > 0 {
                assert(pair_before(p1[0], p1[b]));
            }
        }
        assert(p1[0] == p2[0]);
        let t1 = p1.drop_first();
        let t2 = p2.drop_first();
        assert forall|x: (u32, u32)| t1.contains(x) <==> t2.contains(x) by {
            if t1.contains(x) {
                let k = choose|k: int| 0 <= k < t1.len() && t1[k] == x;
                assert(p1[k + 1] == x);
                assert(pair_before(p1[0], p1[k + 1]));
                assert(p1.contains(x));
                let m = choose|m: int| 0 <= m < p2.len() && p2[m] == x;
                assert(m != 0);
                assert(t2[m - 1] == x);
            }
            if t2.contains(x) {
                let k = choose|k: int| 0 <= k < t2.len() && t2[k] == x;
                assert(p2[k + 1] == x);
                assert(pair_before(p2[0], p2[k + 1]));
                assert(p2.contains(x));
                let m = choose|m: int| 0 <= m < p1.len() && p1[m] == x;
                assert(m != 0);
                assert(t1[m - 1] == x);
            }
        }
        assert forall|k: int, l: int| 0 <= k < l < t1.len() implies pair_before(#[trigger] t1[k], #[trigger] t1[l]) by {
            assert(pair_before(p1[k + 1], p1[l + 1]));
        }
        assert forall|k: int, l: int| 0 <= k < l < t2.len() implies pair_before(#[trigger] t2[k], #[trigger] t2[l]) by {
            assert(pair_before(p2[k + 1], p2[l + 1]));
        }
        lemma_sorted_pairs_equal(t1, t2);
        assert(p1 =~= p2) by {
            assert forall|k: int| 0 <= k < p1.len() implies p1[k] == p2[k] by {
                if k > 0 {
                    assert(p1[k] == t1[k - 1]);
                }
            }
        }
    }
}

/// The pairs to verify among the candidates are one list: any two lists
/// that [`band_pairs_of`] admits are equal.
pub proof fn lemma_band_pairs_unique(c: Seq<CloneCandidate>, p1: Seq<(u32, u32)>, p2: Seq<(u32, u32)>)
    requires
        c.len() <= u32::MAX,
        band_pairs_of(c, p1),
        band_pairs_of(c, p2),
    ensures
        p1 == p2,
{
    assert forall|x: (u32, u32)| p1.contains(x) <==> p2.contains(x) by {
        if p1.contains(x) {
            let k = choose|k: int| 0 <= k < p1.len() && p1[k] == x;
            assert((x.0 as int) as u32 == x.0 && (x.1 as int) as u32 == x.1);
            assert(comparable(c, x.0 as int, x.1 as int));
        }
        if p2.contains(x) {
            let k = choose|k: int| 0 <= k < p2.len() && p2[k] == x;
            assert(comparable(c, x.0 as int, x.1 as int));
        }
    }
    lemma_sorted_pairs_equal(p1, p2);
}

/// What near-clone detection found: the pairs compared, their
/// verification, and whether its relations were recorded.
pub struct NearCloneDetection {
    pub pairs: Vec<(u32, u32)>,
    pub verification: CloneVerification,
    pub recorded: bool,
}

impl BuilderState {
    /// Near-clone detection over prepared candidates: the in-band pairs of
    /// each language ([`band_pairs`]), each verified exactly, and the
    /// relations they give recorded after the state's relations, exactly
    /// when the relation count stays within the machine's limit; otherwise
    /// nothing is recorded.
    pub fn detect_near_clones(
        &mut self,
        candidates: &Vec<CloneCandidate>,
        detail: GraphBuildTraceDetail,
        selectors: &Vec<String>,
    ) -> (r: NearCloneDetection)
        requires
            old(self).wf(),
            candidates@.len() <= u32::MAX,
            forall|k: int| 0 <= k < candidates@.len() ==> increasing((#[trigger] candidates@[k]).tokens@),
        ensures
            final(self).wf(),
            band_pairs_of(candidates@, r.pairs@),
            r.verification.relations@.map_values(|x: VerifiedRelation| verified_view(x)) == verified_relations(candidates@, r.pairs@),
            r.verification.emitted_count == verified_relations(candidates@, r.pairs@).len(),
            r.verification.rejected_near_threshold_count == near_count(candidates@, r.pairs@),
            decision_views(r.verification.decisions@) == clone_decisions(candidates@, r.pairs@, detail, views(selectors@)),
            r.recorded <==> old(self).relation_count + verified_relations(candidates@, r.pairs@).len() < usize::MAX,
            !r.recorded ==> *final(self) == *old(self),
            r.recorded ==> {
                &&& final(self).nodes == old(self).nodes
                &&& final(self).artifact_paths == old(self).artifact_paths
                &&& final(self).relation_count == old(self).relation_count + r.verification.relations@.len()
                &&& final(self).relations@.len() == old(self).relations@.len() + r.verification.relations@.len()
                &&& forall|k: int| 0 <= k < old(self).relations@.len() ==> final(self).relations@[k] == old(self).relations@[k]
                &&& forall|k: int|
                    0 <= k < r.verification.relations@.len() ==> similar_recorded(
                        #[trigger] final(self).relations@[old(self).relations@.len() + k],
                        old(self).relation_count + k + 1,
                        r.verification.relations@[k],
                    )
            },
    {
        let pairs = band_pairs(candidates);
        let verification = verify_clone_pairs(candidates, &pairs, detail, selectors);
        assert(verification.relations@.len() == verification.relations@.map_values(|x: VerifiedRelation| verified_view(x)).len());
        if verification.relations.len() >= usize::MAX - self.relation_count {
            return NearCloneDetection { pairs, verification, recorded: false };
        }
        self.record_similar(&verification.relations);
        NearCloneDetection { pairs, verification, recorded: true }
    }
}


/// Version of the near-clone algorithm, part of a candidate set's identity.
pub const CLONE_ALGORITHM_VERSION: u32 = 1;

/// The first line of a candidate set's identity text: the algorithm and
/// pipeline versions, the shortest body, and the three thresholds in
/// millionths.
pub open spec fn identity_header() -> Seq<char> {
    "clone-v"@ + decimal(CLONE_ALGORITHM_VERSION as nat) + "|pipeline-v"@ + decimal(
        crate::builder::GRAPH_BUILD_PIPELINE_VERSION as nat,
    ) + "|min"@ + decimal(3) + "|sim"@ + decimal(600000) + "|trace"@ + decimal(350000) + "|high"@ + decimal(850000) + "\n"@
}

/// Each text followed by a newline.
pub open spec fn newline_each(parts: Seq<Seq<char>>) -> Seq<char>
    decreases parts.len(),
{
    if parts.len() == 0 {
        Seq::empty()
    } else {
        newline_each(parts.drop_last()) + parts.last() + "\n"@
    }
}

/// The identity of a near-clone candidate set described by `parts`: the
/// lower-case hexadecimal BLAKE3 digest of the header and the descriptors,
/// sorted, each on a line.
pub open spec fn clone_set_identity_of(parts: Seq<Seq<char>>) -> Seq<char> {
    crate::clone_tokens::lower_hex(
        crate::fragment::blake3_digest(identity_header() + newline_each(sort_spec(parts, crate::health::text_order()))),
    )
}

fn append_text(out: &mut Vec<char>, s: &str)
    ensures
        final(out)@ == old(out)@ + s@,
{
    let v = crate::text::chars_of(s);
    let ghost start = out@;
    let mut i: usize = 0;
    while i < v.len()
        invariant
            i <= v@.len(),
            v@ == s@,
            out@ == start + v@.take(i as int),
        decreases v@.len() - i,
    {
        out.push(v[i]);
        assert(v@.take(i + 1) =~= v@.take(i as int).push(v@[i as int]));
        i = i + 1;
    }
    assert(v@.take(i as int) =~= v@);
}

/// The identity of a near-clone candidate set: it changes when any
/// candidate's descriptor, the algorithm, or a threshold does, and not
/// with the order in which the descriptors come.
pub fn clone_set_identity(parts: &Vec<String>) -> (r: String)
    ensures
        r@ == clone_set_identity_of(views(parts@)),
{
    let mut copy: Vec<String> = Vec::new();
    let mut i: usize = 0;
    while i < parts.len()
        invariant
            i <= parts@.len(),
            copy@ == parts@.subrange(0, i as int),
        decreases parts@.len() - i,
    {
        copy.push(parts[i].clone());
        assert(copy@ =~= parts@.subrange(0, i + 1));
        i = i + 1;
    }
    assert(copy@ =~= parts@);
    let ghost start = copy@;
    let sorted = sort_by(copy, crate::builder::text_less, Ghost(crate::builder::string_order()));
    proof {
        assert forall|a: String, b: String| #[trigger] (crate::builder::string_order())(a, b) == (crate::health::text_order())(
            (crate::builder::string_view_fn())(a),
            (crate::builder::string_view_fn())(b),
        ) by {}
        lemma_sort_map(start, crate::builder::string_view_fn(), crate::builder::string_order(), crate::health::text_order());
        assert(views(start) =~= start.map_values(crate::builder::string_view_fn()));
        assert(views(sorted@) =~= sorted@.map_values(crate::builder::string_view_fn()));
    }
    let ghost ordered = views(sorted@);
    let mut text: Vec<char> = Vec::new();
    append_text(&mut text, "clone-v");
    append_text(&mut text, decimal_string(CLONE_ALGORITHM_VERSION as usize).as_str());
    append_text(&mut text, "|pipeline-v");
    append_text(&mut text, decimal_string(crate::builder::GRAPH_BUILD_PIPELINE_VERSION as usize).as_str());
    append_text(&mut text, "|min");
    append_text(&mut text, decimal_string(3).as_str());
    append_text(&mut text, "|sim");
    append_text(&mut text, decimal_string(600000).as_str());
    append_text(&mut text, "|trace");
    append_text(&mut text, decimal_string(350000).as_str());
    append_text(&mut text, "|high");
    append_text(&mut text, decimal_string(850000).as_str());
    append_text(&mut text, "\n");
    assert(text@ =~= identity_header());
    let ghost head = text@;
    let mut k: usize = 0;
    assert(ordered.take(0) =~= Seq::<Seq<char>>::empty());
    while k < sorted.len()
        invariant
            k <= sorted@.len(),
            ordered == views(sorted@),
            text@ == head + newline_each(ordered.take(k as int)),
        decreases sorted@.len() - k,
    {
        append_text(&mut text, sorted[k].as_str());
        append_text(&mut text, "\n");
        proof {
            assert(ordered.take(k + 1).drop_last() =~= ordered.take(k as int));
            assert(ordered.take(k + 1).last() == sorted@[k as int]@);
        }
        k = k + 1;
    }
    assert(ordered.take(k as int) =~= ordered);
    let joined = crate::text::string_of(text.as_slice());
    let digest = crate::fragment::blake3_of_text(joined.as_str());
    crate::clone_tokens::hex_string(&digest)
}

} // verus!

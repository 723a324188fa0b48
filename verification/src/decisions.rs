//! Decision traces for resolved relations: for each relation a typed
//! resolver chose, the candidate it selected and, when a raw candidate with
//! the same source, kind, and evidence pointed elsewhere, the one it
//! superseded.

use vstd::prelude::*;
use crate::builder::GraphBuildTraceDetail;
use crate::health::string_views;
use crate::index::{kind_label, kind_name};
use crate::model::{Confidence, EvidenceRef, Graph, Relation, RelationKind, RelationResolution, RelationView, SourceSpan};
use crate::text::{ascii_lower, owned, seq_contains, str_contains, str_eq, to_ascii_lower};

verus! {

/// One traced decision of the build.
#[derive(Debug, PartialEq, Eq)]
pub struct GraphDecisionTrace {
    /// The relation kind, in lower case.
    pub kind: String,
    pub source: String,
    pub target: String,
    /// The resolver strategy that decided.
    pub strategy: String,
    /// `selected` or `rejected`.
    pub outcome: String,
    /// The decision's score in millionths.
    pub score_millionths: u32,
    /// The paths of the evidence it rests on.
    pub evidence_paths: Vec<String>,
    /// Why it was decided so.
    pub reason: String,
}

/// The value of a decision, its texts as character sequences.
pub struct DecisionView {
    pub kind: Seq<char>,
    pub source: Seq<char>,
    pub target: Seq<char>,
    pub strategy: Seq<char>,
    pub outcome: Seq<char>,
    pub score_millionths: nat,
    pub evidence_paths: Seq<Seq<char>>,
    pub reason: Seq<char>,
}

impl View for GraphDecisionTrace {
    type V = DecisionView;

    open spec fn view(&self) -> DecisionView {
        DecisionView {
            kind: self.kind@,
            source: self.source@,
            target: self.target@,
            strategy: self.strategy@,
            outcome: self.outcome@,
            score_millionths: self.score_millionths as nat,
            evidence_paths: string_views(self.evidence_paths@),
            reason: self.reason@,
        }
    }
}

/// The views of a list of decisions.
pub open spec fn decision_views(v: Seq<GraphDecisionTrace>) -> Seq<DecisionView> {
    v.map_values(|d: GraphDecisionTrace| d@)
}

/// The value of one piece of evidence.
pub open spec fn evidence_view(e: EvidenceRef) -> (Seq<char>, Seq<char>, Option<SourceSpan>) {
    (e.artifact_id@, e.path@, e.span)
}

/// The values of a list of evidence.
pub open spec fn evidence_views(s: Seq<EvidenceRef>) -> Seq<(Seq<char>, Seq<char>, Option<SourceSpan>)> {
    s.map_values(|e: EvidenceRef| evidence_view(e))
}

/// The paths of a list of evidence.
pub open spec fn evidence_paths(s: Seq<EvidenceRef>) -> Seq<Seq<char>> {
    s.map_values(|e: EvidenceRef| e.path@)
}

/// The relation was chosen by a typed resolver across files.
pub open spec fn hybrid_resolved(r: RelationView) -> bool {
    r.provenance matches Some(p) && p.resolution == RelationResolution::HybridResolved
}

/// `selector` occurs in the relation's source, target, or an evidence path.
pub open spec fn selector_hits(r: RelationView, selector: Seq<char>) -> bool {
    ||| seq_contains(r.source, selector)
    ||| seq_contains(r.target, selector)
    ||| exists|e: int| 0 <= e < r.evidence.len() && seq_contains((#[trigger] r.evidence[e]).path@, selector)
}

/// A relation is traced at full detail without selectors, or when some
/// selector hits it.
pub open spec fn traced(r: RelationView, full: bool, selectors: Seq<Seq<char>>) -> bool {
    (full && selectors.len() == 0) || exists|q: int| 0 <= q < selectors.len() && selector_hits(r, #[trigger] selectors[q])
}

/// `c` is a raw candidate that `r` superseded: same source, kind, and
/// evidence, another target.
pub open spec fn superseded_by(c: RelationView, r: RelationView) -> bool {
    &&& c.source == r.source
    &&& c.kind == r.kind
    &&& c.target != r.target
    &&& evidence_views(c.evidence) == evidence_views(r.evidence)
}

/// The first candidate in `before` that `r` superseded, if any.
pub open spec fn first_superseded(before: Seq<RelationView>, r: RelationView) -> Option<RelationView>
    decreases before.len(),
{
    if before.len() == 0 {
        None
    } else if superseded_by(before[0], r) {
        Some(before[0])
    } else {
        first_superseded(before.drop_first(), r)
    }
}

/// The strategy a relation's provenance names.
pub open spec fn strategy_of(r: RelationView) -> Seq<char> {
    match r.provenance {
        Some(p) => p.resolver_strategy@,
        None => "unknown"@,
    }
}

/// The score a selected relation is traced with.
pub open spec fn confidence_score(c: Confidence) -> nat {
    match c {
        Confidence::High => 1_000_000,
        Confidence::Low => 500_000,
    }
}

/// The decisions traced for one relation.
pub open spec fn relation_decisions(r: RelationView, before: Seq<RelationView>) -> Seq<DecisionView> {
    let selected = DecisionView {
        kind: ascii_lower(kind_name(r.kind)),
        source: r.source,
        target: r.target,
        strategy: strategy_of(r),
        outcome: "selected"@,
        score_millionths: confidence_score(r.confidence),
        evidence_paths: evidence_paths(r.evidence),
        reason: "candidate satisfied resolver kind, scope, and confidence filters"@,
    };
    match first_superseded(before, r) {
        Some(c) => seq![
            selected,
            DecisionView {
                kind: ascii_lower(kind_name(r.kind)),
                source: c.source,
                target: c.target,
                strategy: strategy_of(r),
                outcome: "rejected"@,
                score_millionths: 0,
                evidence_paths: evidence_paths(c.evidence),
                reason: "raw unresolved candidate was superseded by a typed resolver candidate"@,
            },
        ],
        None => seq![selected],
    }
}

/// The decisions of every resolved, traced relation of `rels`, in order.
pub open spec fn decisions_for(rels: Seq<RelationView>, before: Seq<RelationView>, full: bool, selectors: Seq<Seq<char>>) -> Seq<DecisionView>
    decreases rels.len(),
{
    if rels.len() == 0 {
        Seq::empty()
    } else {
        let r = rels.last();
        let prior = decisions_for(rels.drop_last(), before, full, selectors);
        if hybrid_resolved(r) && traced(r, full, selectors) {
            prior + relation_decisions(r, before)
        } else {
            prior
        }
    }
}

/// The views of a list of relations.
pub open spec fn relation_views(s: Seq<Relation>) -> Seq<RelationView> {
    s.map_values(|r: Relation| r@)
}

fn selector_hits_exec(r: &Relation, selector: &String) -> (b: bool)
    ensures
        b == selector_hits(r@, selector@),
{
    if str_contains(r.source.as_str(), selector.as_str()) || str_contains(r.target.as_str(), selector.as_str()) {
        return true;
    }
    let mut e: usize = 0;
    while e < r.evidence.len()
        invariant
            e <= r.evidence@.len(),
            !seq_contains(r.source@, selector@),
            !seq_contains(r.target@, selector@),
            forall|k: int| 0 <= k < e ==> !seq_contains((#[trigger] r.evidence@[k]).path@, selector@),
        decreases r.evidence@.len() - e,
    {
        if str_contains(r.evidence[e].path.as_str(), selector.as_str()) {
            return true;
        }
        e = e + 1;
    }
    false
}

fn is_traced(r: &Relation, full: bool, selectors: &Vec<String>) -> (b: bool)
    ensures
        b == traced(r@, full, string_views(selectors@)),
{
    let ghost sv = string_views(selectors@);
    if full && selectors.len() == 0 {
        return true;
    }
    let mut q: usize = 0;
    while q < selectors.len()
        invariant
            q <= selectors@.len(),
            sv == string_views(selectors@),
            forall|k: int| 0 <= k < q ==> !selector_hits(r@, #[trigger] sv[k]),
        decreases selectors@.len() - q,
    {
        if selector_hits_exec(r, &selectors[q]) {
            assert(selector_hits(r@, sv[q as int]));
            return true;
        }
        q = q + 1;
    }
    false
}

fn same_evidence(a: &Vec<EvidenceRef>, b: &Vec<EvidenceRef>) -> (r: bool)
    ensures
        r == (evidence_views(a@) == evidence_views(b@)),
{
    if a.len() != b.len() {
        assert(evidence_views(a@).len() != evidence_views(b@).len());
        return false;
    }
    let mut i: usize = 0;
    while i < a.len()
        invariant
            i <= a@.len(),
            a@.len() == b@.len(),
            forall|k: int| 0 <= k < i ==> evidence_view(#[trigger] a@[k]) == evidence_view(b@[k]),
        decreases a@.len() - i,
    {
        let x = &a[i];
        let y = &b[i];
        let spans_equal = match (&x.span, &y.span) {
            (Some(s), Some(t)) => s.start_line == t.start_line && s.end_line == t.end_line,
            (None, None) => true,
            _ => false,
        };
        if !(str_eq(x.artifact_id.as_str(), y.artifact_id.as_str()) && str_eq(x.path.as_str(), y.path.as_str()) && spans_equal) {
            assert(evidence_views(a@)[i as int] != evidence_views(b@)[i as int]);
            return false;
        }
        i = i + 1;
    }
    assert(evidence_views(a@) =~= evidence_views(b@));
    true
}

fn find_superseded<'a>(before: &'a Vec<Relation>, r: &Relation) -> (c: Option<&'a Relation>)
    ensures
        match c {
            Some(x) => first_superseded(relation_views(before@), r@) == Some(x@),
            None => first_superseded(relation_views(before@), r@) is None,
        },
{
    let ghost bv = relation_views(before@);
    let mut i: usize = 0;
    assert(bv.subrange(0, bv.len() as int) =~= bv);
    while i < before.len()
        invariant
            i <= before@.len(),
            bv == relation_views(before@),
            first_superseded(bv, r@) == first_superseded(bv.subrange(i as int, bv.len() as int), r@),
        decreases before@.len() - i,
    {
        let c = &before[i];
        let ghost rest = bv.subrange(i as int, bv.len() as int);
        assert(rest[0] == c@);
        assert(rest.drop_first() =~= bv.subrange(i + 1, bv.len() as int));
        if c.source.same(&r.source) && c.kind == r.kind && !c.target.same(&r.target) && same_evidence(&c.evidence, &r.evidence) {
            return Some(c);
        }
        i = i + 1;
    }
    None
}

fn paths_of(s: &Vec<EvidenceRef>) -> (r: Vec<String>)
    ensures
        string_views(r@) == evidence_paths(s@),
{
    let mut r: Vec<String> = Vec::new();
    let mut i: usize = 0;
    while i < s.len()
        invariant
            i <= s@.len(),
            string_views(r@) == evidence_paths(s@.subrange(0, i as int)),
        decreases s@.len() - i,
    {
        let path = owned(s[i].path.as_str());
        assert(path@ == s@[i as int].path@);
        let ghost prior = r@;
        r.push(path);
        assert(string_views(r@) =~= string_views(prior).push(path@));
        assert(evidence_paths(s@.subrange(0, i + 1)) =~= evidence_paths(s@.subrange(0, i as int)).push(s@[i as int].path@));
        i = i + 1;
    }
    assert(s@.subrange(0, s@.len() as int) =~= s@);
    r
}

fn strategy_text(r: &Relation) -> (s: String)
    ensures
        s@ == strategy_of(r@),
{
    match &r.provenance {
        Some(p) => owned(p.resolver_strategy.as_str()),
        None => owned("unknown"),
    }
}

/// The decisions traced for the resolved relations of `graph`: for each
/// relation a typed resolver chose that the trace covers (all of them at full
/// detail without selectors, else those a selector hits by source, target, or
/// evidence path), the selected candidate, then the first raw candidate of
/// `before` it superseded, if any.
pub fn trace_decisions_for_relations(
    graph: &Graph,
    before: &Vec<Relation>,
    detail: &GraphBuildTraceDetail,
    selectors: &Vec<String>,
) -> (d: Vec<GraphDecisionTrace>)
    ensures
        decision_views(d@) == decisions_for(
            relation_views(graph.relations@),
            relation_views(before@),
            *detail == GraphBuildTraceDetail::Full,
            string_views(selectors@),
        ),
{
    let full = match detail {
        GraphBuildTraceDetail::Full => true,
        GraphBuildTraceDetail::Summary => false,
    };
    let ghost rels = relation_views(graph.relations@);
    let ghost bv = relation_views(before@);
    let ghost sv = string_views(selectors@);
    let mut out: Vec<GraphDecisionTrace> = Vec::new();
    let mut i: usize = 0;
    while i < graph.relations.len()
        invariant
            i <= graph.relations@.len(),
            rels == relation_views(graph.relations@),
            bv == relation_views(before@),
            sv == string_views(selectors@),
            full == (*detail == GraphBuildTraceDetail::Full),
            decision_views(out@) == decisions_for(rels.subrange(0, i as int), bv, full, sv),
        decreases graph.relations@.len() - i,
    {
        let r = &graph.relations[i];
        proof {
            assert(rels.subrange(0, i + 1).drop_last() =~= rels.subrange(0, i as int));
            assert(rels.subrange(0, i + 1).last() == r@);
        }
        let resolved = match &r.provenance {
            Some(p) => p.resolution == RelationResolution::HybridResolved,
            None => false,
        };
        if resolved && is_traced(r, full, selectors) {
            let ghost prior = out@;
            let kind = to_ascii_lower(kind_label(r.kind).as_str());
            let selected = GraphDecisionTrace {
                kind,
                source: owned(r.source.as_str()),
                target: owned(r.target.as_str()),
                strategy: strategy_text(r),
                outcome: owned("selected"),
                score_millionths: match r.confidence {
                    Confidence::High => 1_000_000,
                    Confidence::Low => 500_000,
                },
                evidence_paths: paths_of(&r.evidence),
                reason: owned("candidate satisfied resolver kind, scope, and confidence filters"),
            };
            out.push(selected);
            match find_superseded(before, r) {
                Some(c) => {
                    let rejected = GraphDecisionTrace {
                        kind: to_ascii_lower(kind_label(r.kind).as_str()),
                        source: owned(c.source.as_str()),
                        target: owned(c.target.as_str()),
                        strategy: strategy_text(r),
                        outcome: owned("rejected"),
                        score_millionths: 0,
                        evidence_paths: paths_of(&c.evidence),
                        reason: owned("raw unresolved candidate was superseded by a typed resolver candidate"),
                    };
                    out.push(rejected);
                },
                None => {},
            }
            assert(decision_views(out@) =~= decision_views(prior) + relation_decisions(r@, bv));
        }
        i = i + 1;
    }
    assert(rels.subrange(0, rels.len() as int) =~= rels);
    out
}

} // verus!

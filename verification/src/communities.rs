//! Deterministic, scoped Leiden-style communities: which relations a scope
//! admits and with what weight, the local-moving phase over the admitted
//! relations, and the integer facts of each community found.

use vstd::prelude::*;
use crate::enrichment::is_test_path;
use crate::model::{kind_position, kind_rank, node_id, Graph, GraphNode, GraphNodeId, Relation, RelationKind, RelationView};
use crate::sorting::{dedup_by, dedup_spec, lemma_dedup_map, lemma_sort_map, sort_by, sort_spec};
use crate::text::{chars_of, str_eq, string_of};

verus! {

broadcast use {vstd::seq_lib::group_seq_properties, vstd::seq_lib::group_to_multiset_ensures};

/// Version of the deterministic local-moving Leiden phase implemented here.
pub const LEIDEN_ALGORITHM_VERSION: u32 = 5;

/// Edge scope used while detecting communities.
#[derive(Debug, PartialEq, Eq)]
pub enum CommunityScope {
    /// Consider every relation kind.
    Combined,
    /// Production-code architecture, excluding non-production bridge nodes
    /// and relation categories that primarily express file/package indexing.
    Architecture,
    /// Consider only these relation kinds.
    RelationKinds(Vec<RelationKind>),
    /// Consider relation kinds with explicit positive integer weights, one
    /// entry per kind in increasing kind order (a kind listed twice counts
    /// with its first weight).
    WeightedRelationKinds(Vec<(RelationKind, u32)>),
}

/// Two scopes that admit and weigh relations alike, entry for entry.
pub open spec fn same_scope(a: CommunityScope, b: CommunityScope) -> bool {
    match a {
        CommunityScope::Combined => b == CommunityScope::Combined,
        CommunityScope::Architecture => b == CommunityScope::Architecture,
        CommunityScope::RelationKinds(k) => b matches CommunityScope::RelationKinds(k2) && k2@ == k@,
        CommunityScope::WeightedRelationKinds(w) => b matches CommunityScope::WeightedRelationKinds(w2) && w2@ == w@,
    }
}

fn copy_kinds(v: &Vec<RelationKind>) -> (r: Vec<RelationKind>)
    ensures
        r@ == v@,
{
    let mut r: Vec<RelationKind> = Vec::new();
    let mut i: usize = 0;
    while i < v.len()
        invariant
            i <= v@.len(),
            r@ == v@.subrange(0, i as int),
        decreases v@.len() - i,
    {
        r.push(v[i]);
        assert(r@ =~= v@.subrange(0, i + 1));
        i = i + 1;
    }
    assert(r@ =~= v@);
    r
}

fn copy_weights(v: &Vec<(RelationKind, u32)>) -> (r: Vec<(RelationKind, u32)>)
    ensures
        r@ == v@,
{
    let mut r: Vec<(RelationKind, u32)> = Vec::new();
    let mut i: usize = 0;
    while i < v.len()
        invariant
            i <= v@.len(),
            r@ == v@.subrange(0, i as int),
        decreases v@.len() - i,
    {
        r.push(v[i]);
        assert(r@ =~= v@.subrange(0, i + 1));
        i = i + 1;
    }
    assert(r@ =~= v@);
    r
}

impl Clone for CommunityScope {
    fn clone(&self) -> (r: Self)
        ensures
            same_scope(*self, r),
    {
        match self {
            CommunityScope::Combined => CommunityScope::Combined,
            CommunityScope::Architecture => CommunityScope::Architecture,
            CommunityScope::RelationKinds(kinds) => CommunityScope::RelationKinds(copy_kinds(kinds)),
            CommunityScope::WeightedRelationKinds(weights) => CommunityScope::WeightedRelationKinds(copy_weights(weights)),
        }
    }
}

/// The weight the first entry for `kind` gives it, or 0 without one.
pub open spec fn listed_weight(weights: Seq<(RelationKind, u32)>, kind: RelationKind) -> nat
    decreases weights.len(),
{
    if weights.len() == 0 {
        0
    } else if weights[0].0 == kind {
        weights[0].1 as nat
    } else {
        listed_weight(weights.drop_first(), kind)
    }
}

/// The architecture scope's weights: structure 4, behavior 3, imports 1.
pub open spec fn architecture_weight(kind: RelationKind) -> nat {
    match kind {
        RelationKind::Contains | RelationKind::HasMethod | RelationKind::MemberOf => 4,
        RelationKind::Calls | RelationKind::DataFlows | RelationKind::Implements | RelationKind::Inherits
        | RelationKind::HandlesRoute => 3,
        RelationKind::Imports => 1,
        _ => 0,
    }
}

/// How much a relation of `kind` counts in `scope`; 0 leaves it out.
pub open spec fn weight_of(kind: RelationKind, scope: CommunityScope) -> nat {
    match scope {
        CommunityScope::Combined => 1,
        CommunityScope::Architecture => architecture_weight(kind),
        CommunityScope::RelationKinds(kinds) => if kinds@.contains(kind) {
            1
        } else {
            0
        },
        CommunityScope::WeightedRelationKinds(weights) => listed_weight(weights@, kind),
    }
}

/// Scope used for repository architecture views and correctness evaluation.
pub fn architecture_aware_scope() -> (s: CommunityScope)
    ensures
        s == CommunityScope::Architecture,
{
    CommunityScope::Architecture
}

/// Scope preset that keeps code, configuration, and environment
/// neighborhoods connected while giving direct semantic links more influence.
pub fn environment_aware_scope() -> (s: CommunityScope)
    ensures
        s matches CommunityScope::WeightedRelationKinds(w) && w@ == seq![
            (RelationKind::Contains, 1u32),
            (RelationKind::Calls, 2u32),
            (RelationKind::References, 1u32),
            (RelationKind::ReadsEnv, 3u32),
            (RelationKind::DefinesEnv, 3u32),
            (RelationKind::BindsConfig, 4u32),
            (RelationKind::ReferencesConfig, 3u32),
        ],
{
    let w = vec![
        (RelationKind::Contains, 1u32),
        (RelationKind::Calls, 2u32),
        (RelationKind::References, 1u32),
        (RelationKind::ReadsEnv, 3u32),
        (RelationKind::DefinesEnv, 3u32),
        (RelationKind::BindsConfig, 4u32),
        (RelationKind::ReferencesConfig, 3u32),
    ];
    CommunityScope::WeightedRelationKinds(w)
}

/// The weight `scope` gives relations of `kind`.
pub fn relation_weight(kind: RelationKind, scope: &CommunityScope) -> (w: u32)
    ensures
        w as nat == weight_of(kind, *scope),
{
    match scope {
        CommunityScope::Combined => 1,
        CommunityScope::Architecture => match kind {
            RelationKind::Contains | RelationKind::HasMethod | RelationKind::MemberOf => 4,
            RelationKind::Calls | RelationKind::DataFlows | RelationKind::Implements | RelationKind::Inherits
            | RelationKind::HandlesRoute => 3,
            RelationKind::Imports => 1,
            _ => 0,
        },
        CommunityScope::RelationKinds(kinds) => {
            let mut i: usize = 0;
            while i < kinds.len()
                invariant
                    i <= kinds@.len(),
                    weight_of(kind, *scope) == (if kinds@.contains(kind) { 1nat } else { 0nat }),
                    forall|j: int| 0 <= j < i ==> kinds@[j] != kind,
                decreases kinds@.len() - i,
            {
                if kinds[i] == kind {
                    assert(kinds@[i as int] == kind);
                    return 1;
                }
                i = i + 1;
            }
            0
        },
        CommunityScope::WeightedRelationKinds(weights) => {
            let mut i: usize = 0;
            while i < weights.len()
                invariant
                    i <= weights@.len(),
                    weight_of(kind, *scope) == listed_weight(weights@, kind),
                    listed_weight(weights@, kind) == listed_weight(weights@.skip(i as int), kind),
                decreases weights@.len() - i,
            {
                assert(weights@.skip(i as int)[0] == weights@[i as int]);
                if weights[i].0 == kind {
                    assert(listed_weight(weights@.skip(i as int), kind) == weights@[i as int].1 as nat);
                    return weights[i].1;
                }
                assert(weights@.skip(i as int).drop_first() =~= weights@.skip(i + 1));
                i = i + 1;
            }
            0
        },
    }
}

/// Whether `scope` admits relations of `kind` at all.
pub fn in_scope(kind: RelationKind, scope: &CommunityScope) -> (b: bool)
    ensures
        b == (weight_of(kind, *scope) > 0),
{
    relation_weight(kind, scope) > 0
}

/// Kind order as a value.
pub open spec fn kind_order() -> spec_fn(RelationKind, RelationKind) -> bool {
    |a: RelationKind, b: RelationKind| kind_rank(a) < kind_rank(b)
}

/// Equal kinds as a value.
pub open spec fn kind_same() -> spec_fn(RelationKind, RelationKind) -> bool {
    |a: RelationKind, b: RelationKind| a == b
}

/// The weighted entries with a positive weight, in order.
pub open spec fn positive_weights(w: Seq<(RelationKind, u32)>) -> Seq<(RelationKind, u32)>
    decreases w.len(),
{
    if w.len() == 0 {
        w
    } else if w.last().1 > 0 {
        positive_weights(w.drop_last()).push(w.last())
    } else {
        positive_weights(w.drop_last())
    }
}

/// The weighted entries that are the first for their kind, in order: the
/// entries a map from kind to weight keeps, since a kind weighs what its
/// first entry says.
pub open spec fn first_weights(w: Seq<(RelationKind, u32)>) -> Seq<(RelationKind, u32)>
    decreases w.len(),
{
    if w.len() == 0 {
        w
    } else if lists_kind(w.drop_last(), w.last().0) {
        first_weights(w.drop_last())
    } else {
        first_weights(w.drop_last()).push(w.last())
    }
}

/// The canonical form of a scope: listed kinds sorted with repeats removed,
/// weighted kinds once each (their first entry) without their zero weights.
pub open spec fn normal_form(scope: CommunityScope, out: CommunityScope) -> bool {
    match scope {
        CommunityScope::Combined => out == CommunityScope::Combined,
        CommunityScope::Architecture => out == CommunityScope::Architecture,
        CommunityScope::RelationKinds(kinds) => out matches CommunityScope::RelationKinds(k) && k@ == dedup_spec(
            sort_spec(kinds@, kind_order()),
            kind_same(),
        ),
        CommunityScope::WeightedRelationKinds(w) => out matches CommunityScope::WeightedRelationKinds(p) && p@
            == positive_weights(first_weights(w@)),
    }
}

fn kind_less(a: &RelationKind, b: &RelationKind) -> (r: bool)
    ensures
        r == (kind_order())(*a, *b),
{
    kind_position(*a) < kind_position(*b)
}

fn kind_equal(a: &RelationKind, b: &RelationKind) -> (r: bool)
    ensures
        r == (kind_same())(*a, *b),
{
    *a == *b
}

/// The canonical form of `scope`, which identifies it in caches.
pub fn normalized_scope(scope: &CommunityScope) -> (out: CommunityScope)
    ensures
        normal_form(*scope, out),
{
    match scope {
        CommunityScope::Combined => CommunityScope::Combined,
        CommunityScope::Architecture => CommunityScope::Architecture,
        CommunityScope::RelationKinds(kinds) => {
            let sorted = sort_by(copy_kinds(kinds), kind_less, Ghost(kind_order()));
            CommunityScope::RelationKinds(dedup_by(sorted, kind_equal, Ghost(kind_same())))
        },
        CommunityScope::WeightedRelationKinds(weights) => {
            let mut out: Vec<(RelationKind, u32)> = Vec::new();
            let mut i: usize = 0;
            while i < weights.len()
                invariant
                    i <= weights@.len(),
                    out@ == positive_weights(first_weights(weights@.subrange(0, i as int))),
                decreases weights@.len() - i,
            {
                assert(weights@.subrange(0, i + 1).drop_last() =~= weights@.subrange(0, i as int));
                let earlier = listed_before(weights, i, weights[i].0);
                if !earlier && weights[i].1 > 0 {
                    out.push(weights[i]);
                }
                proof {
                    let f = first_weights(weights@.subrange(0, i as int));
                    if !earlier {
                        assert(first_weights(weights@.subrange(0, i + 1)) == f.push(weights@[i as int]));
                        assert(f.push(weights@[i as int]).drop_last() =~= f);
                    }
                }
                i = i + 1;
            }
            assert(weights@.subrange(0, i as int) =~= weights@);
            CommunityScope::WeightedRelationKinds(out)
        },
    }
}

/// Whether one of the first `n` entries weighs `kind`.
fn listed_before(weights: &Vec<(RelationKind, u32)>, n: usize, kind: RelationKind) -> (b: bool)
    requires
        n <= weights@.len(),
    ensures
        b == lists_kind(weights@.subrange(0, n as int), kind),
{
    let mut i: usize = 0;
    while i < n
        invariant
            i <= n <= weights@.len(),
            forall|j: int| 0 <= j < i ==> weights@[j].0 != kind,
        decreases n - i,
    {
        if weights[i].0 == kind {
            assert(weights@.subrange(0, n as int)[i as int].0 == kind);
            return true;
        }
        i = i + 1;
    }
    assert forall|j: int| 0 <= j < n implies (#[trigger] weights@.subrange(0, n as int)[j]).0 != kind by {
        assert(weights@.subrange(0, n as int)[j] == weights@[j]);
    }
    false
}

/// Each kind is weighted at most once, as in a map from kind to weight.
pub open spec fn weights_keyed(w: Seq<(RelationKind, u32)>) -> bool {
    forall|i: int, j: int| 0 <= i < j < w.len() ==> (#[trigger] w[i]).0 != (#[trigger] w[j]).0
}

/// Some entry weighs `kind`.
pub open spec fn lists_kind(w: Seq<(RelationKind, u32)>, kind: RelationKind) -> bool {
    exists|i: int| 0 <= i < w.len() && (#[trigger] w[i]).0 == kind
}

proof fn lemma_listed_weight_push(w: Seq<(RelationKind, u32)>, e: (RelationKind, u32), kind: RelationKind)
    ensures
        listed_weight(w.push(e), kind) == if lists_kind(w, kind) {
            listed_weight(w, kind)
        } else if e.0 == kind {
            e.1 as nat
        } else {
            0
        },
    decreases w.len(),
{
    if w.len() > 0 {
        assert(w.push(e).drop_first() =~= w.drop_first().push(e));
        assert(w.push(e)[0] == w[0]);
        lemma_listed_weight_push(w.drop_first(), e, kind);
        if w[0].0 != kind {
            assert(listed_weight(w.push(e), kind) == listed_weight(w.drop_first().push(e), kind));
            assert(listed_weight(w, kind) == listed_weight(w.drop_first(), kind));
            if lists_kind(w, kind) {
                let i = choose|i: int| 0 <= i < w.len() && (#[trigger] w[i]).0 == kind;
                assert(w.drop_first()[i - 1].0 == kind);
            }
            if lists_kind(w.drop_first(), kind) {
                let i = choose|i: int| 0 <= i < w.drop_first().len() && (#[trigger] w.drop_first()[i]).0 == kind;
                assert(w[i + 1].0 == kind);
            }
            assert(lists_kind(w, kind) == lists_kind(w.drop_first(), kind));
        } else {
            assert(w[0].0 == kind);
            assert(lists_kind(w, kind));
        }
    } else {
        assert(w.push(e).drop_first() =~= w);
        assert(w.push(e)[0] == e);
        assert(listed_weight(w, kind) == 0);
        assert(!lists_kind(w, kind));
    }
}

proof fn lemma_listed_weight_unlisted(w: Seq<(RelationKind, u32)>, kind: RelationKind)
    requires
        !lists_kind(w, kind),
    ensures
        listed_weight(w, kind) == 0,
    decreases w.len(),
{
    if w.len() > 0 {
        assert(w[0].0 != kind);
        if lists_kind(w.drop_first(), kind) {
            let i = choose|i: int| 0 <= i < w.drop_first().len() && (#[trigger] w.drop_first()[i]).0 == kind;
            assert(w[i + 1].0 == kind);
        }
        lemma_listed_weight_unlisted(w.drop_first(), kind);
    }
}

proof fn lemma_positive_weights(w: Seq<(RelationKind, u32)>)
    requires
        weights_keyed(w),
    ensures
        forall|kind: RelationKind| #[trigger] listed_weight(positive_weights(w), kind) == listed_weight(w, kind),
        forall|kind: RelationKind| lists_kind(positive_weights(w), kind) ==> lists_kind(w, kind),
        forall|q: int| 0 <= q < positive_weights(w).len() ==> (#[trigger] positive_weights(w)[q]).1 > 0,
    decreases w.len(),
{
    if w.len() > 0 {
        let t = w.drop_last();
        let e = w.last();
        assert forall|i: int, j: int| 0 <= i < j < t.len() implies (#[trigger] t[i]).0 != (#[trigger] t[j]).0 by {
            assert(t[i] == w[i] && t[j] == w[j]);
        }
        lemma_positive_weights(t);
        let pt = positive_weights(t);
        assert(w =~= t.push(e));
        assert(!lists_kind(t, e.0)) by {
            if lists_kind(t, e.0) {
                let i = choose|i: int| 0 <= i < t.len() && (#[trigger] t[i]).0 == e.0;
                assert(w[i].0 == w[w.len() - 1].0);
            }
        }
        assert forall|kind: RelationKind| #[trigger] listed_weight(positive_weights(w), kind) == listed_weight(w, kind) by {
            lemma_listed_weight_push(t, e, kind);
            if e.1 > 0 {
                lemma_listed_weight_push(pt, e, kind);
                if !lists_kind(pt, kind) && lists_kind(t, kind) {
                    let i = choose|i: int| 0 <= i < t.len() && (#[trigger] t[i]).0 == kind;
                    lemma_listed_weight_at(t, i);
                    lemma_listed_weight_unlisted(pt, kind);
                    if t[i].1 > 0 {
                        lemma_positive_weights_keep(t, i);
                    }
                }
            } else {
                if !lists_kind(t, kind) {
                    lemma_listed_weight_unlisted(t, kind);
                }
            }
        }
        assert forall|kind: RelationKind| lists_kind(positive_weights(w), kind) implies lists_kind(w, kind) by {
            let pw = positive_weights(w);
            let q = choose|q: int| 0 <= q < pw.len() && (#[trigger] pw[q]).0 == kind;
            if q < pt.len() {
                assert(pt[q].0 == kind);
                assert(lists_kind(t, kind));
                let i = choose|i: int| 0 <= i < t.len() && (#[trigger] t[i]).0 == kind;
                assert(w[i].0 == kind);
            } else {
                assert(w[w.len() - 1].0 == kind);
            }
        }
        assert forall|q: int| 0 <= q < positive_weights(w).len() implies (#[trigger] positive_weights(w)[q]).1 > 0 by {
            if q < pt.len() {
                assert(positive_weights(w)[q] == pt[q]);
            }
        }
    }
}

proof fn lemma_listed_weight_at(w: Seq<(RelationKind, u32)>, i: int)
    requires
        weights_keyed(w),
        0 <= i < w.len(),
    ensures
        listed_weight(w, w[i].0) == w[i].1,
    decreases w.len(),
{
    if i > 0 {
        assert(w[0].0 != w[i].0);
        assert forall|a: int, b: int| 0 <= a < b < w.drop_first().len() implies (#[trigger] w.drop_first()[a]).0 != (
        #[trigger] w.drop_first()[b]).0 by {
            assert(w.drop_first()[a] == w[a + 1] && w.drop_first()[b] == w[b + 1]);
        }
        lemma_listed_weight_at(w.drop_first(), i - 1);
    }
}

proof fn lemma_positive_weights_keep(w: Seq<(RelationKind, u32)>, i: int)
    requires
        0 <= i < w.len(),
        w[i].1 > 0,
    ensures
        lists_kind(positive_weights(w), w[i].0),
    decreases w.len(),
{
    let pw = positive_weights(w);
    if i < w.len() - 1 {
        lemma_positive_weights_keep(w.drop_last(), i);
        let pt = positive_weights(w.drop_last());
        let q = choose|q: int| 0 <= q < pt.len() && (#[trigger] pt[q]).0 == w[i].0;
        assert(pw[q] == pt[q]);
    } else {
        assert(pw[pw.len() - 1] == w[i]);
    }
}

proof fn lemma_positive_fixed(w: Seq<(RelationKind, u32)>)
    requires
        forall|q: int| 0 <= q < w.len() ==> (#[trigger] w[q]).1 > 0,
    ensures
        positive_weights(w) == w,
    decreases w.len(),
{
    if w.len() > 0 {
        assert forall|q: int| 0 <= q < w.drop_last().len() implies (#[trigger] w.drop_last()[q]).1 > 0 by {
            assert(w.drop_last()[q] == w[q]);
        }
        lemma_positive_fixed(w.drop_last());
        assert(w.drop_last().push(w.last()) =~= w);
    }
}

proof fn lemma_first_weights(w: Seq<(RelationKind, u32)>)
    ensures
        weights_keyed(first_weights(w)),
        forall|kind: RelationKind| #[trigger] listed_weight(first_weights(w), kind) == listed_weight(w, kind),
        forall|kind: RelationKind| #[trigger] lists_kind(first_weights(w), kind) <==> lists_kind(w, kind),
    decreases w.len(),
{
    if w.len() > 0 {
        let t = w.drop_last();
        let e = w.last();
        lemma_first_weights(t);
        let ft = first_weights(t);
        assert(w =~= t.push(e));
        assert forall|kind: RelationKind| lists_kind(w, kind) <==> (lists_kind(t, kind) || e.0 == kind) by {
            if lists_kind(w, kind) {
                let i = choose|i: int| 0 <= i < w.len() && (#[trigger] w[i]).0 == kind;
                if i < t.len() {
                    assert(t[i].0 == kind);
                }
            }
            if lists_kind(t, kind) {
                let i = choose|i: int| 0 <= i < t.len() && (#[trigger] t[i]).0 == kind;
                assert(w[i].0 == kind);
            }
            if e.0 == kind {
                assert(w[w.len() - 1].0 == kind);
            }
        }
        if lists_kind(t, e.0) {
            assert forall|kind: RelationKind| #[trigger] listed_weight(first_weights(w), kind) == listed_weight(w, kind) by {
                lemma_listed_weight_push(t, e, kind);
                if !lists_kind(t, kind) {
                    lemma_listed_weight_unlisted(t, kind);
                }
            }
        } else {
            let fw = ft.push(e);
            assert(first_weights(w) == fw);
            assert forall|kind: RelationKind| lists_kind(fw, kind) <==> (lists_kind(ft, kind) || e.0 == kind) by {
                if lists_kind(fw, kind) {
                    let i = choose|i: int| 0 <= i < fw.len() && (#[trigger] fw[i]).0 == kind;
                    if i < ft.len() {
                        assert(ft[i].0 == kind);
                    }
                }
                if lists_kind(ft, kind) {
                    let i = choose|i: int| 0 <= i < ft.len() && (#[trigger] ft[i]).0 == kind;
                    assert(fw[i].0 == kind);
                }
                if e.0 == kind {
                    assert(fw[fw.len() - 1].0 == kind);
                }
            }
            assert forall|i: int, j: int| 0 <= i < j < fw.len() implies (#[trigger] fw[i]).0 != (#[trigger] fw[j]).0 by {
                if j == fw.len() - 1 {
                    assert(fw[i] == ft[i]);
                    if ft[i].0 == e.0 {
                        assert(lists_kind(ft, e.0));
                    }
                } else {
                    assert(fw[i] == ft[i] && fw[j] == ft[j]);
                }
            }
            assert forall|kind: RelationKind| #[trigger] listed_weight(first_weights(w), kind) == listed_weight(w, kind) by {
                lemma_listed_weight_push(t, e, kind);
                lemma_listed_weight_push(ft, e, kind);
            }
        }
    }
}

proof fn lemma_first_fixed(w: Seq<(RelationKind, u32)>)
    requires
        weights_keyed(w),
    ensures
        first_weights(w) == w,
    decreases w.len(),
{
    if w.len() > 0 {
        let t = w.drop_last();
        assert forall|i: int, j: int| 0 <= i < j < t.len() implies (#[trigger] t[i]).0 != (#[trigger] t[j]).0 by {
            assert(t[i] == w[i] && t[j] == w[j]);
        }
        lemma_first_fixed(t);
        assert(!lists_kind(t, w.last().0)) by {
            if lists_kind(t, w.last().0) {
                let i = choose|i: int| 0 <= i < t.len() && (#[trigger] t[i]).0 == w.last().0;
                assert(w[i].0 == w[w.len() - 1].0);
            }
        }
        assert(t.push(w.last()) =~= w);
    }
}

proof fn lemma_positive_keyed(w: Seq<(RelationKind, u32)>)
    requires
        weights_keyed(w),
    ensures
        weights_keyed(positive_weights(w)),
    decreases w.len(),
{
    if w.len() > 0 {
        let t = w.drop_last();
        let e = w.last();
        assert forall|i: int, j: int| 0 <= i < j < t.len() implies (#[trigger] t[i]).0 != (#[trigger] t[j]).0 by {
            assert(t[i] == w[i] && t[j] == w[j]);
        }
        lemma_positive_keyed(t);
        lemma_positive_weights(t);
        let pt = positive_weights(t);
        if e.1 > 0 {
            let pw = pt.push(e);
            assert(positive_weights(w) == pw);
            assert forall|i: int, j: int| 0 <= i < j < pw.len() implies (#[trigger] pw[i]).0 != (#[trigger] pw[j]).0 by {
                if j == pw.len() - 1 {
                    assert(pw[i] == pt[i]);
                    if pt[i].0 == e.0 {
                        assert(lists_kind(pt, e.0));
                        assert(lists_kind(positive_weights(t), e.0));
                        assert(lists_kind(t, e.0));
                        let q = choose|q: int| 0 <= q < t.len() && (#[trigger] t[q]).0 == e.0;
                        assert(w[q].0 == w[w.len() - 1].0);
                    }
                } else {
                    assert(pw[i] == pt[i] && pw[j] == pt[j]);
                }
            }
        }
    }
}

/// Normalizing a scope changes no relation kind's weight, and normalizing
/// the result again gives back the same normal form.
pub proof fn lemma_normalized_scope_laws(scope: CommunityScope, out: CommunityScope, again: CommunityScope)
    requires
        normal_form(scope, out),
        normal_form(out, again),
    ensures
        forall|kind: RelationKind| #[trigger] weight_of(kind, out) == weight_of(kind, scope),
        normal_form(scope, again),
{
    match scope {
        CommunityScope::RelationKinds(kinds) => {
            let lt = kind_order();
            let same = kind_same();
            let sorted = sort_spec(kinds@, lt);
            crate::sorting::lemma_sort_spec(kinds@, lt);
            crate::sorting::lemma_dedup_sorted(sorted, lt, same);
            let d = dedup_spec(sorted, same);
            crate::sorting::lemma_sort_sorted(d, lt);
            crate::sorting::lemma_dedup_fixed(d, same);
            assert forall|kind: RelationKind| #[trigger] weight_of(kind, out) == weight_of(kind, scope) by {
                crate::sorting::lemma_dedup_contains(sorted, same, kind);
                assert(sorted.to_multiset().count(kind) == kinds@.to_multiset().count(kind));
            }
        },
        CommunityScope::WeightedRelationKinds(w) => {
            let fw = first_weights(w@);
            lemma_first_weights(w@);
            lemma_positive_weights(fw);
            lemma_positive_keyed(fw);
            let pw = positive_weights(fw);
            lemma_first_fixed(pw);
            lemma_positive_fixed(pw);
        },
        _ => {},
    }
}

/// Local movement accepts a candidate label when it scores strictly higher
/// than the best so far, or ties it with a smaller label while scoring
/// strictly above staying put.
pub fn is_better_candidate(
    candidate_label: usize,
    candidate_score: i128,
    best_label: usize,
    best_score: i128,
    staying_score: i128,
) -> (b: bool)
    ensures
        b == (candidate_score > best_score || (candidate_score == best_score && candidate_label < best_label
            && candidate_score > staying_score)),
{
    candidate_score > best_score || (candidate_score == best_score && candidate_label < best_label
        && candidate_score > staying_score)
}

/// The parts of `s` between `/` separators, as `str::split('/')` yields them.
pub open spec fn split_slash(s: Seq<char>) -> Seq<Seq<char>>
    decreases s.len(),
{
    if s.len() == 0 {
        seq![Seq::empty()]
    } else if s.last() == '/' {
        split_slash(s.drop_last()).push(Seq::empty())
    } else {
        let p = split_slash(s.drop_last());
        p.update(p.len() - 1, p.last().push(s.last()))
    }
}

proof fn lemma_split_nonempty(s: Seq<char>)
    ensures
        split_slash(s).len() >= 1,
    decreases s.len(),
{
    if s.len() > 0 {
        lemma_split_nonempty(s.drop_last());
    }
}

/// Directory names that mark documentation, examples, benchmarks, samples,
/// and integration suites.
pub open spec fn auxiliary_component(c: Seq<char>) -> bool {
    ||| c == "docs"@
    ||| c == "examples"@
    ||| c == "example"@
    ||| c == "benches"@
    ||| c == "benchmark"@
    ||| c == "benchmarks"@
    ||| c == "sample"@
    ||| c == "samples"@
    ||| c == "integration"@
    ||| c == "e2e"@
}

/// Test, documentation, example, benchmark, sample, and integration paths.
pub open spec fn auxiliary(path: Seq<char>) -> bool {
    is_test_path(path) || exists|k: int| 0 <= k < split_slash(path).len() && auxiliary_component(
        #[trigger] split_slash(path)[k],
    )
}

fn is_auxiliary_component(c: &[char]) -> (b: bool)
    ensures
        b == auxiliary_component(c@),
{
    let s = string_of(c);
    let t = s.as_str();
    str_eq(t, "docs") || str_eq(t, "examples") || str_eq(t, "example") || str_eq(t, "benches") || str_eq(
        t,
        "benchmark",
    ) || str_eq(t, "benchmarks") || str_eq(t, "sample") || str_eq(t, "samples") || str_eq(t, "integration")
        || str_eq(t, "e2e")
}

fn has_auxiliary_component(path: &str) -> (b: bool)
    ensures
        b == exists|k: int| 0 <= k < split_slash(path@).len() && auxiliary_component(#[trigger] split_slash(path@)[k]),
{
    let v = chars_of(path);
    let mut current: Vec<char> = Vec::new();
    let mut found = false;
    let mut i: usize = 0;
    assert(v@.subrange(0, 0) =~= Seq::<char>::empty());
    while i < v.len()
        invariant
            i <= v@.len(),
            v@ == path@,
            split_slash(v@.subrange(0, i as int)).len() >= 1,
            current@ == split_slash(v@.subrange(0, i as int)).last(),
            found == exists|k: int| 0 <= k < split_slash(v@.subrange(0, i as int)).len() - 1 && auxiliary_component(
                #[trigger] split_slash(v@.subrange(0, i as int))[k],
            ),
        decreases v@.len() - i,
    {
        let ghost p = split_slash(v@.subrange(0, i as int));
        let ghost q = split_slash(v@.subrange(0, i + 1));
        assert(v@.subrange(0, i + 1).drop_last() =~= v@.subrange(0, i as int));
        if v[i] == '/' {
            let here = is_auxiliary_component(current.as_slice());
            assert(q == p.push(Seq::empty()));
            assert forall|k: int| 0 <= k < q.len() - 1 implies #[trigger] q[k] == p[k] by {}
            assert((exists|k: int| 0 <= k < q.len() - 1 && auxiliary_component(#[trigger] q[k])) == (found || here)) by {
                if found {
                    let k = choose|k: int| 0 <= k < p.len() - 1 && auxiliary_component(#[trigger] p[k]);
                    assert(q[k] == p[k]);
                }
                if here {
                    assert(q[p.len() - 1] == p[p.len() - 1]);
                }
                if exists|k: int| 0 <= k < q.len() - 1 && auxiliary_component(#[trigger] q[k]) {
                    let k = choose|k: int| 0 <= k < q.len() - 1 && auxiliary_component(#[trigger] q[k]);
                    assert(q[k] == p[k]);
                    if k < p.len() - 1 {
                        assert(auxiliary_component(p[k]));
                    }
                }
            }
            found = found || here;
            current = Vec::new();
            assert(current@ =~= q.last());
        } else {
            current.push(v[i]);
            assert(q == p.update(p.len() - 1, p.last().push(v@[i as int])));
            assert forall|k: int| 0 <= k < q.len() - 1 implies #[trigger] q[k] == p[k] by {}
            assert((exists|k: int| 0 <= k < q.len() - 1 && auxiliary_component(#[trigger] q[k])) == found) by {
                if found {
                    let k = choose|k: int| 0 <= k < p.len() - 1 && auxiliary_component(#[trigger] p[k]);
                    assert(q[k] == p[k]);
                }
                if exists|k: int| 0 <= k < q.len() - 1 && auxiliary_component(#[trigger] q[k]) {
                    let k = choose|k: int| 0 <= k < q.len() - 1 && auxiliary_component(#[trigger] q[k]);
                    assert(q[k] == p[k]);
                }
            }
            assert(current@ =~= q.last());
        }
        i = i + 1;
    }
    assert(v@.subrange(0, i as int) =~= v@);
    let last = is_auxiliary_component(current.as_slice());
    found || last
}

/// Whether `path` belongs to tests, documentation, examples, benchmarks,
/// samples, or integration suites rather than production code.
pub fn is_auxiliary_path(path: &str) -> (b: bool)
    ensures
        b == auxiliary(path@),
{
    crate::enrichment::is_test_file(path) || has_auxiliary_component(path)
}

/// Artifacts and symbols outside auxiliary paths.
pub open spec fn production_node(n: GraphNode) -> bool {
    match n {
        GraphNode::Artifact(a) => !auxiliary(a.path@),
        GraphNode::Symbol(s) => !auxiliary(s.evidence.path@),
        _ => false,
    }
}

/// Whether `node` is production code: an artifact or symbol whose path is not auxiliary.
pub fn is_production_code_node(node: &GraphNode) -> (b: bool)
    ensures
        b == production_node(*node),
{
    match node {
        GraphNode::Artifact(a) => !is_auxiliary_path(a.path.as_str()),
        GraphNode::Symbol(s) => !is_auxiliary_path(s.evidence.path.as_str()),
        _ => false,
    }
}

/// The last node of `nodes` with id `id` (later nodes shadow earlier ones).
pub open spec fn last_with_id(nodes: Seq<GraphNode>, id: Seq<char>) -> Option<GraphNode>
    decreases nodes.len(),
{
    if nodes.len() == 0 {
        None
    } else if node_id(nodes.last()) == id {
        Some(nodes.last())
    } else {
        last_with_id(nodes.drop_last(), id)
    }
}

/// A relation counts in `scope` when its kind has weight there and, for the
/// architecture scope, both its ends are production-code nodes.
pub open spec fn admitted(e: RelationView, nodes: Seq<GraphNode>, scope: CommunityScope) -> bool {
    &&& weight_of(e.kind, scope) > 0
    &&& scope == CommunityScope::Architecture ==> {
        &&& last_with_id(nodes, e.source) matches Some(s) && production_node(s)
        &&& last_with_id(nodes, e.target) matches Some(t) && production_node(t)
    }
}

fn last_node_with_id<'a>(nodes: &'a Vec<GraphNode>, id: &GraphNodeId) -> (r: Option<&'a GraphNode>)
    ensures
        match r {
            Some(n) => last_with_id(nodes@, id@) == Some(*n),
            None => last_with_id(nodes@, id@).is_none(),
        },
{
    let mut i: usize = nodes.len();
    while i > 0
        invariant
            i <= nodes@.len(),
            last_with_id(nodes@, id@) == last_with_id(nodes@.subrange(0, i as int), id@),
        decreases i,
    {
        assert(nodes@.subrange(0, i as int).drop_last() =~= nodes@.subrange(0, i - 1));
        if nodes[i - 1].id().same(id) {
            return Some(&nodes[i - 1]);
        }
        i = i - 1;
    }
    None
}

/// Whether `edge` counts in `scope`, its ends judged against `nodes`.
pub fn relation_in_scope(edge: &Relation, nodes: &Vec<GraphNode>, scope: &CommunityScope) -> (b: bool)
    ensures
        b == admitted(edge@, nodes@, *scope),
{
    if !in_scope(edge.kind, scope) {
        return false;
    }
    match scope {
        CommunityScope::Architecture => {
            match (last_node_with_id(nodes, &edge.source), last_node_with_id(nodes, &edge.target)) {
                (Some(s), Some(t)) => is_production_code_node(s) && is_production_code_node(t),
                _ => false,
            }
        },
        _ => true,
    }
}

} // verus!

//! Stable insertion sort and adjacent de-duplication, stated over spec
//! orders so every caller's contract can name the exact resulting sequence.

use vstd::prelude::*;
use vstd::seq_lib::*;

verus! {

broadcast use {vstd::seq_lib::group_seq_properties, vstd::seq_lib::group_to_multiset_ensures};

/// `lt` is a transitive relation.
pub open spec fn transitive<T>(lt: spec_fn(T, T) -> bool) -> bool {
    forall|a: T, b: T, c: T| #[trigger] lt(a, b) && #[trigger] lt(b, c) ==> lt(a, c)
}

/// `lt` relates no element to itself.
pub open spec fn irreflexive<T>(lt: spec_fn(T, T) -> bool) -> bool {
    forall|a: T| !#[trigger] lt(a, a)
}

/// No later element of `s` is strictly before an earlier one.
pub open spec fn sorted_by<T>(s: Seq<T>, lt: spec_fn(T, T) -> bool) -> bool {
    forall|i: int, j: int| 0 <= i < j < s.len() ==> !lt(#[trigger] s[j], #[trigger] s[i])
}

/// Where a stable insertion places `x` in `s`: before the first element
/// that `x` is strictly before, or at the end.
pub open spec fn insert_index<T>(s: Seq<T>, x: T, lt: spec_fn(T, T) -> bool) -> int
    decreases s.len(),
{
    if s.len() == 0 {
        0
    } else if lt(x, s[0]) {
        0
    } else {
        1 + insert_index(s.drop_first(), x, lt)
    }
}

/// `s` sorted stably by `lt`: elements that `lt` does not separate keep
/// their original relative order.
pub open spec fn sort_spec<T>(s: Seq<T>, lt: spec_fn(T, T) -> bool) -> Seq<T>
    decreases s.len(),
{
    if s.len() == 0 {
        s
    } else {
        let prefix = sort_spec(s.drop_last(), lt);
        prefix.insert(insert_index(prefix, s.last(), lt), s.last())
    }
}

pub proof fn lemma_insert_index<T>(s: Seq<T>, x: T, lt: spec_fn(T, T) -> bool)
    ensures
        0 <= insert_index(s, x, lt) <= s.len(),
        forall|k: int| 0 <= k < insert_index(s, x, lt) ==> !lt(x, #[trigger] s[k]),
        insert_index(s, x, lt) < s.len() ==> lt(x, s[insert_index(s, x, lt)]),
    decreases s.len(),
{
    if s.len() > 0 && !lt(x, s[0]) {
        lemma_insert_index(s.drop_first(), x, lt);
        assert forall|k: int| 0 <= k < insert_index(s, x, lt) implies !lt(x, #[trigger] s[k]) by {
            if k > 0 {
                assert(s[k] == s.drop_first()[k - 1]);
            }
        }
    }
}

/// Sorting only rearranges: whatever the order, the result holds the same
/// elements, as often.
pub proof fn lemma_sort_permutes<T>(s: Seq<T>, lt: spec_fn(T, T) -> bool)
    ensures
        sort_spec(s, lt).to_multiset() == s.to_multiset(),
        sort_spec(s, lt).len() == s.len(),
    decreases s.len(),
{
    if s.len() > 0 {
        let prefix = sort_spec(s.drop_last(), lt);
        let x = s.last();
        lemma_sort_permutes(s.drop_last(), lt);
        lemma_insert_index(prefix, x, lt);
        let p = insert_index(prefix, x, lt);
        to_multiset_insert(prefix, p, x);
        assert(s =~= s.drop_last().push(x));
        to_multiset_build(s.drop_last(), x);
    }
}

pub proof fn lemma_sort_spec<T>(s: Seq<T>, lt: spec_fn(T, T) -> bool)
    requires
        transitive(lt),
        irreflexive(lt),
    ensures
        sort_spec(s, lt).to_multiset() == s.to_multiset(),
        sort_spec(s, lt).len() == s.len(),
        sorted_by(sort_spec(s, lt), lt),
    decreases s.len(),
{
    if s.len() > 0 {
        let prefix = sort_spec(s.drop_last(), lt);
        let x = s.last();
        lemma_sort_spec(s.drop_last(), lt);
        lemma_insert_index(prefix, x, lt);
        let p = insert_index(prefix, x, lt);
        let r = prefix.insert(p, x);
        to_multiset_insert(prefix, p, x);
        assert(s =~= s.drop_last().push(x));
        to_multiset_build(s.drop_last(), x);
        assert forall|i: int, j: int| 0 <= i < j < r.len() implies !lt(#[trigger] r[j], #[trigger] r[i]) by {
            if j < p {
                assert(r[i] == prefix[i] && r[j] == prefix[j]);
            } else if j == p {
                assert(r[i] == prefix[i]);
            } else if i == p {
                assert(r[j] == prefix[j - 1]);
                if lt(r[j], x) {
                    assert(lt(x, prefix[p]));
                    assert(lt(prefix[j - 1], prefix[p]));
                    if p < j - 1 {
                        assert(!lt(prefix[j - 1], prefix[p]));
                    } else {
                        assert(lt(prefix[p], prefix[p]));
                    }
                }
            } else if i < p {
                assert(r[i] == prefix[i] && r[j] == prefix[j - 1]);
            } else {
                assert(r[i] == prefix[i - 1] && r[j] == prefix[j - 1]);
            }
        }
    }
}

/// Sorts `v` stably by `less`, whose results are those of the spec order `lt`.
pub fn sort_by<T, F: Fn(&T, &T) -> bool>(v: Vec<T>, less: F, Ghost(lt): Ghost<spec_fn(T, T) -> bool>) -> (r: Vec<T>)
    requires
        forall|a: &T, b: &T| #[trigger] less.requires((a, b)),
        forall|a: &T, b: &T, out: bool| less.ensures((a, b), out) ==> out == lt(*a, *b),
    ensures
        r@ == sort_spec(v@, lt),
{
    let ghost original = v@;
    let mut rest = v;
    let mut out: Vec<T> = Vec::new();
    let mut i: usize = 0;
    let n = rest.len();
    assert(original.take(0) =~= Seq::<T>::empty());
    while rest.len() > 0
        invariant
            n == original.len(),
            i + rest@.len() == n,
            rest@ == original.skip(i as int),
            out@ == sort_spec(original.take(i as int), lt),
            forall|a: &T, b: &T| #[trigger] less.requires((a, b)),
            forall|a: &T, b: &T, o: bool| less.ensures((a, b), o) ==> o == lt(*a, *b),
        decreases rest@.len(),
    {
        let x = rest.remove(0);
        let ghost prefix = out@;
        let mut p: usize = 0;
        while p < out.len() && !less(&x, &out[p])
            invariant
                p <= out@.len(),
                out@ == prefix,
                insert_index(prefix, x, lt) == p + insert_index(prefix.skip(p as int), x, lt),
                forall|a: &T, b: &T| #[trigger] less.requires((a, b)),
                forall|a: &T, b: &T, o: bool| less.ensures((a, b), o) ==> o == lt(*a, *b),
            decreases out@.len() - p,
        {
            assert(prefix.skip(p as int).drop_first() =~= prefix.skip(p + 1));
            p = p + 1;
        }
        proof {
            if p < out@.len() {
                assert(prefix.skip(p as int)[0] == prefix[p as int]);
            }
        }
        out.insert(p, x);
        proof {
            let t = original.take(i + 1);
            assert(t.drop_last() =~= original.take(i as int));
            assert(t.last() == x);
            assert(original.skip(i as int).drop_first() =~= original.skip(i + 1));
        }
        i = i + 1;
    }
    assert(original.take(n as int) =~= original);
    out
}


/// Sorting commutes with mapping when the order on the mapped values
/// decides the order on the originals.
pub proof fn lemma_sort_map<A, B>(s: Seq<A>, f: spec_fn(A) -> B, lta: spec_fn(A, A) -> bool, ltb: spec_fn(B, B) -> bool)
    requires
        forall|a: A, b: A| #[trigger] lta(a, b) == ltb(f(a), f(b)),
    ensures
        sort_spec(s, lta).map_values(f) == sort_spec(s.map_values(f), ltb),
    decreases s.len(),
{
    if s.len() > 0 {
        lemma_sort_map(s.drop_last(), f, lta, ltb);
        let p = sort_spec(s.drop_last(), lta);
        assert(s.drop_last().map_values(f) =~= s.map_values(f).drop_last());
        lemma_insert_index_map(p, s.last(), f, lta, ltb);
        lemma_insert_index(p, s.last(), lta);
        let i = insert_index(p, s.last(), lta);
        assert(p.insert(i, s.last()).map_values(f) =~= p.map_values(f).insert(i, f(s.last())));
    }
}

proof fn lemma_insert_index_map<A, B>(p: Seq<A>, x: A, f: spec_fn(A) -> B, lta: spec_fn(A, A) -> bool, ltb: spec_fn(B, B) -> bool)
    requires
        forall|a: A, b: A| #[trigger] lta(a, b) == ltb(f(a), f(b)),
    ensures
        insert_index(p, x, lta) == insert_index(p.map_values(f), f(x), ltb),
    decreases p.len(),
{
    if p.len() > 0 {
        lemma_insert_index_map(p.drop_first(), x, f, lta, ltb);
        assert(p.drop_first().map_values(f) =~= p.map_values(f).drop_first());
        assert(lta(x, p[0]) == ltb(f(x), f(p[0])));
    }
}

/// `s` with each run of adjacent `same` elements reduced to its first.
pub open spec fn dedup_spec<T>(s: Seq<T>, same: spec_fn(T, T) -> bool) -> Seq<T>
    decreases s.len(),
{
    if s.len() == 0 {
        s
    } else {
        let prefix = dedup_spec(s.drop_last(), same);
        if prefix.len() > 0 && same(prefix.last(), s.last()) {
            prefix
        } else {
            prefix.push(s.last())
        }
    }
}

/// The positions in `s` of the elements that [`dedup_spec`] keeps.
pub open spec fn dedup_positions<T>(s: Seq<T>, same: spec_fn(T, T) -> bool) -> Seq<int>
    decreases s.len(),
{
    if s.len() == 0 {
        Seq::empty()
    } else {
        let prefix = dedup_spec(s.drop_last(), same);
        let pos = dedup_positions(s.drop_last(), same);
        if prefix.len() > 0 && same(prefix.last(), s.last()) {
            pos
        } else {
            pos.push(s.len() - 1)
        }
    }
}

proof fn lemma_dedup_positions<T>(s: Seq<T>, same: spec_fn(T, T) -> bool)
    ensures
        dedup_positions(s, same).len() == dedup_spec(s, same).len(),
        forall|i: int| 0 <= i < dedup_positions(s, same).len() ==> 0 <= #[trigger] dedup_positions(s, same)[i] < s.len(),
        forall|i: int| 0 <= i < dedup_positions(s, same).len() ==> #[trigger] dedup_spec(s, same)[i] == s[dedup_positions(s, same)[i]],
        forall|i: int, j: int| 0 <= i < j < dedup_positions(s, same).len() ==> #[trigger] dedup_positions(s, same)[i] < #[trigger] dedup_positions(s, same)[j],
    decreases s.len(),
{
    if s.len() > 0 {
        lemma_dedup_positions(s.drop_last(), same);
    }
}

/// Adjacent de-duplication leaves no two `same` elements when, in `s`, an
/// element between two `same` ones is `same` as the later.
pub proof fn lemma_dedup_distinct<T>(s: Seq<T>, same: spec_fn(T, T) -> bool)
    requires
        forall|i: int, j: int, k: int|
            #![trigger same(s[i], s[k]), s[j]]
            0 <= i <= j <= k < s.len() && same(s[i], s[k]) ==> same(s[j], s[k]),
    ensures
        forall|i: int, j: int| 0 <= i < j < dedup_spec(s, same).len() ==> !same(#[trigger] dedup_spec(s, same)[i], #[trigger] dedup_spec(s, same)[j]),
    decreases s.len(),
{
    if s.len() > 0 {
        let t = s.drop_last();
        assert forall|i: int, j: int, k: int|
            #![trigger same(t[i], t[k]), t[j]]
            0 <= i <= j <= k < t.len() && same(t[i], t[k]) implies same(t[j], t[k]) by {
            assert(t[i] == s[i] && t[j] == s[j] && t[k] == s[k]);
        }
        lemma_dedup_distinct(t, same);
        lemma_dedup_positions(t, same);
        let prefix = dedup_spec(t, same);
        let pos = dedup_positions(t, same);
        let d = dedup_spec(s, same);
        let last = s.len() - 1;
        if !(prefix.len() > 0 && same(prefix.last(), s.last())) {
            assert forall|i: int, j: int| 0 <= i < j < d.len() implies !same(#[trigger] d[i], #[trigger] d[j]) by {
                if j == d.len() - 1 && same(d[i], d[j]) {
                    let p = prefix.len() - 1;
                    assert(d[i] == s[pos[i]]);
                    assert(d[j] == s[last]);
                    if i < p {
                        assert(pos[i] < pos[p]);
                    }
                    assert(s[pos[p]] == prefix.last());
                    assert(same(s[pos[i]], s[last]));
                    assert(same(s[pos[p]], s[last]));
                } else if j < d.len() - 1 {
                    assert(d[i] == prefix[i] && d[j] == prefix[j]);
                }
            }
        }
    }
}

proof fn lemma_insert_index_end<T>(s: Seq<T>, x: T, lt: spec_fn(T, T) -> bool)
    requires
        forall|k: int| 0 <= k < s.len() ==> !lt(x, #[trigger] s[k]),
    ensures
        insert_index(s, x, lt) == s.len(),
    decreases s.len(),
{
    if s.len() > 0 {
        assert(!lt(x, s[0]));
        assert forall|k: int| 0 <= k < s.drop_first().len() implies !lt(x, #[trigger] s.drop_first()[k]) by {
            assert(s.drop_first()[k] == s[k + 1]);
        }
        lemma_insert_index_end(s.drop_first(), x, lt);
    }
}

/// Sorting a sorted sequence leaves it as it is.
pub proof fn lemma_sort_sorted<T>(s: Seq<T>, lt: spec_fn(T, T) -> bool)
    requires
        sorted_by(s, lt),
    ensures
        sort_spec(s, lt) == s,
    decreases s.len(),
{
    if s.len() > 0 {
        let t = s.drop_last();
        assert forall|i: int, j: int| 0 <= i < j < t.len() implies !lt(#[trigger] t[j], #[trigger] t[i]) by {
            assert(t[i] == s[i] && t[j] == s[j]);
        }
        lemma_sort_sorted(t, lt);
        assert forall|k: int| 0 <= k < t.len() implies !lt(s.last(), #[trigger] t[k]) by {
            assert(t[k] == s[k]);
        }
        lemma_insert_index_end(t, s.last(), lt);
        assert(t.insert(t.len() as int, s.last()) =~= s);
    }
}

/// Kept elements keep their order: de-duplicating a sorted sequence leaves
/// it sorted, with no two neighbours `same`.
pub proof fn lemma_dedup_sorted<T>(s: Seq<T>, lt: spec_fn(T, T) -> bool, same: spec_fn(T, T) -> bool)
    requires
        sorted_by(s, lt),
    ensures
        sorted_by(dedup_spec(s, same), lt),
        forall|i: int, j: int| 0 <= i && j == i + 1 && j < dedup_spec(s, same).len() ==> !same(
            #[trigger] dedup_spec(s, same)[i],
            #[trigger] dedup_spec(s, same)[j],
        ),
    decreases s.len(),
{
    lemma_dedup_positions(s, same);
    let d = dedup_spec(s, same);
    let pos = dedup_positions(s, same);
    assert forall|i: int, j: int| 0 <= i < j < d.len() implies !lt(#[trigger] d[j], #[trigger] d[i]) by {
        assert(pos[i] < pos[j]);
        assert(d[i] == s[pos[i]] && d[j] == s[pos[j]]);
    }
    if s.len() > 0 {
        let t = s.drop_last();
        assert forall|i: int, j: int| 0 <= i < j < t.len() implies !lt(#[trigger] t[j], #[trigger] t[i]) by {
            assert(t[i] == s[i] && t[j] == s[j]);
        }
        lemma_dedup_sorted(t, lt, same);
        let prefix = dedup_spec(t, same);
        assert forall|i: int, j: int| 0 <= i && j == i + 1 && j < d.len() implies !same(#[trigger] d[i], #[trigger] d[j]) by {
            if j < prefix.len() {
                assert(d[i] == prefix[i] && d[j] == prefix[j]);
            }
        }
    }
}

/// De-duplicating a sequence with no two neighbours `same` leaves it as it is.
pub proof fn lemma_dedup_fixed<T>(s: Seq<T>, same: spec_fn(T, T) -> bool)
    requires
        forall|i: int, j: int| 0 <= i && j == i + 1 && j < s.len() ==> !same(#[trigger] s[i], #[trigger] s[j]),
    ensures
        dedup_spec(s, same) == s,
    decreases s.len(),
{
    if s.len() > 0 {
        let t = s.drop_last();
        assert forall|i: int, j: int| 0 <= i && j == i + 1 && j < t.len() implies !same(#[trigger] t[i], #[trigger] t[j]) by {
            assert(t[i] == s[i] && t[j] == s[j]);
        }
        lemma_dedup_fixed(t, same);
        if t.len() > 0 {
            assert(!same(s[t.len() - 1], s[t.len() as int]));
        }
        assert(t.push(s.last()) =~= s);
    }
}

/// With `same` as equality, de-duplication keeps every element that occurs.
pub proof fn lemma_dedup_contains<T>(s: Seq<T>, same: spec_fn(T, T) -> bool, x: T)
    requires
        forall|a: T, b: T| #[trigger] same(a, b) <==> a == b,
    ensures
        dedup_spec(s, same).contains(x) <==> s.contains(x),
    decreases s.len(),
{
    if s.len() > 0 {
        let t = s.drop_last();
        lemma_dedup_contains(t, same, x);
        let prefix = dedup_spec(t, same);
        if s.contains(x) {
            let k = choose|k: int| 0 <= k < s.len() && s[k] == x;
            if k < t.len() {
                assert(t[k] == x);
            } else if prefix.len() > 0 && same(prefix.last(), s.last()) {
                assert(prefix[prefix.len() - 1] == x);
            } else {
                assert(dedup_spec(s, same)[prefix.len() as int] == x);
            }
        }
        if dedup_spec(s, same).contains(x) {
            let k = choose|k: int| 0 <= k < dedup_spec(s, same).len() && dedup_spec(s, same)[k] == x;
            if k < prefix.len() {
                assert(prefix[k] == x);
                let q = choose|q: int| 0 <= q < t.len() && t[q] == x;
                assert(s[q] == x);
            } else {
                assert(s[s.len() - 1] == x);
            }
        }
    }
}

/// Every element of a sorted sequence comes from the sequence sorted.
pub proof fn lemma_sort_elements<T>(s: Seq<T>, lt: spec_fn(T, T) -> bool)
    ensures
        forall|k: int| 0 <= k < sort_spec(s, lt).len() ==> s.contains(#[trigger] sort_spec(s, lt)[k]),
{
    lemma_sort_permutes(s, lt);
    let r = sort_spec(s, lt);
    assert forall|k: int| 0 <= k < r.len() implies s.contains(#[trigger] r[k]) by {
        assert(r.to_multiset().count(r[k]) > 0);
        assert(s.to_multiset().count(r[k]) > 0);
    }
}

/// A relation that holds between the elements at any two distinct
/// positions still holds after sorting.
pub proof fn lemma_sort_pairwise<T>(s: Seq<T>, lt: spec_fn(T, T) -> bool, rel: spec_fn(T, T) -> bool)
    requires
        forall|p: int, q: int| 0 <= p < s.len() && 0 <= q < s.len() && p != q ==> #[trigger] rel(s[p], s[q]),
    ensures
        forall|p: int, q: int|
            0 <= p < sort_spec(s, lt).len() && 0 <= q < sort_spec(s, lt).len() && p != q ==> #[trigger] rel(
                sort_spec(s, lt)[p],
                sort_spec(s, lt)[q],
            ),
    decreases s.len(),
{
    if s.len() > 0 {
        let t = s.drop_last();
        let x = s.last();
        assert forall|p: int, q: int| 0 <= p < t.len() && 0 <= q < t.len() && p != q implies #[trigger] rel(t[p], t[q]) by {
            assert(t[p] == s[p] && t[q] == s[q]);
        }
        lemma_sort_pairwise(t, lt, rel);
        lemma_sort_elements(t, lt);
        lemma_sort_permutes(t, lt);
        let r = sort_spec(t, lt);
        lemma_insert_index(r, x, lt);
        let at = insert_index(r, x, lt);
        let out = r.insert(at, x);
        assert(sort_spec(s, lt) == out);
        assert forall|p: int, q: int| 0 <= p < out.len() && 0 <= q < out.len() && p != q implies #[trigger] rel(out[p], out[q]) by {
            let pi = if p < at { p } else { p - 1 };
            let qi = if q < at { q } else { q - 1 };
            if p == at {
                assert(out[p] == x);
                assert(out[q] == r[qi]);
                assert(t.contains(r[qi]));
                let m = choose|m: int| 0 <= m < t.len() && t[m] == r[qi];
                assert(rel(s[s.len() - 1], s[m]));
            } else if q == at {
                assert(out[q] == x);
                assert(out[p] == r[pi]);
                assert(t.contains(r[pi]));
                let m = choose|m: int| 0 <= m < t.len() && t[m] == r[pi];
                assert(rel(s[m], s[s.len() - 1]));
            } else {
                assert(out[p] == r[pi] && out[q] == r[qi]);
                assert(pi != qi);
            }
        }
    }
}

/// Removes adjacent duplicates from `v` as `Vec::dedup_by` does, keeping
/// the first of each run; `eq` decides the spec relation `same`.
pub fn dedup_by<T, F: Fn(&T, &T) -> bool>(v: Vec<T>, eq: F, Ghost(same): Ghost<spec_fn(T, T) -> bool>) -> (r: Vec<T>)
    requires
        forall|a: &T, b: &T| #[trigger] eq.requires((a, b)),
        forall|a: &T, b: &T, out: bool| eq.ensures((a, b), out) ==> out == same(*a, *b),
    ensures
        r@ == dedup_spec(v@, same),
{
    let ghost original = v@;
    let mut rest = v;
    let mut out: Vec<T> = Vec::new();
    let mut i: usize = 0;
    let n = rest.len();
    assert(original.take(0) =~= Seq::<T>::empty());
    while rest.len() > 0
        invariant
            n == original.len(),
            i + rest@.len() == n,
            rest@ == original.skip(i as int),
            out@ == dedup_spec(original.take(i as int), same),
            forall|a: &T, b: &T| #[trigger] eq.requires((a, b)),
            forall|a: &T, b: &T, o: bool| eq.ensures((a, b), o) ==> o == same(*a, *b),
        decreases rest@.len(),
    {
        let x = rest.remove(0);
        proof {
            let t = original.take(i + 1);
            assert(t.drop_last() =~= original.take(i as int));
            assert(t.last() == x);
            assert(original.skip(i as int).drop_first() =~= original.skip(i + 1));
        }
        let len = out.len();
        if len > 0 && eq(&out[len - 1], &x) {
        } else {
            out.push(x);
        }
        i = i + 1;
    }
    assert(original.take(n as int) =~= original);
    out
}

/// De-duplication commutes with mapping when sameness of the mapped values
/// decides sameness of the originals.
pub proof fn lemma_dedup_map<A, B>(s: Seq<A>, f: spec_fn(A) -> B, sa: spec_fn(A, A) -> bool, sb: spec_fn(B, B) -> bool)
    requires
        forall|a: A, b: A| #[trigger] sa(a, b) == sb(f(a), f(b)),
    ensures
        dedup_spec(s, sa).map_values(f) == dedup_spec(s.map_values(f), sb),
    decreases s.len(),
{
    if s.len() > 0 {
        lemma_dedup_map(s.drop_last(), f, sa, sb);
        assert(s.drop_last().map_values(f) =~= s.map_values(f).drop_last());
        let p = dedup_spec(s.drop_last(), sa);
        assert(p.push(s.last()).map_values(f) =~= p.map_values(f).push(f(s.last())));
        if p.len() > 0 {
            assert(p.map_values(f).last() == f(p.last()));
        }
    }
}

} // verus!

//! Ordered string-keyed tables: vectors of `(key, value)` entries kept in
//! strictly increasing key order, the shape a `BTreeMap<String, _>` iterates in.

use vstd::prelude::*;
use vstd::multiset::Multiset;
use crate::text::{lemma_less_irreflexive, lemma_less_total, lemma_less_transitive, owned, seq_less, str_eq, str_less};

verus! {

/// The key views of a table's entries, in order.
pub open spec fn keys_of<V>(e: Seq<(String, V)>) -> Seq<Seq<char>> {
    e.map_values(|p: (String, V)| p.0@)
}

/// Keys strictly increase, so each key occurs once.
pub open spec fn strictly_sorted(k: Seq<Seq<char>>) -> bool {
    forall|i: int, j: int| 0 <= i < j < k.len() ==> seq_less(#[trigger] k[i], #[trigger] k[j])
}

/// The views of a list of strings.
pub open spec fn views(v: Seq<String>) -> Seq<Seq<char>> {
    v.map_values(|s: String| s@)
}

/// Outcome of looking a key up in a strictly sorted key list.
pub open spec fn located(k: Seq<Seq<char>>, key: Seq<char>, found: bool, at: int) -> bool {
    &&& 0 <= at <= k.len()
    &&& found ==> at < k.len() && k[at] == key
    &&& !found ==> (forall|i: int| 0 <= i < k.len() ==> k[i] != key)
    &&& !found ==> (forall|i: int| 0 <= i < at ==> seq_less(#[trigger] k[i], key))
    &&& !found ==> (forall|i: int| at <= i < k.len() ==> seq_less(key, #[trigger] k[i]))
}

/// Inserting `key` at a position where it is absent keeps the keys strictly sorted.
pub proof fn lemma_insert_keeps_sorted(k: Seq<Seq<char>>, key: Seq<char>, at: int)
    requires
        strictly_sorted(k),
        located(k, key, false, at),
    ensures
        strictly_sorted(k.insert(at, key)),
{
    let r = k.insert(at, key);
    assert forall|i: int, j: int| 0 <= i < j < r.len() implies seq_less(#[trigger] r[i], #[trigger] r[j]) by {
        if j < at {
            assert(r[i] == k[i] && r[j] == k[j]);
        } else if j == at {
            assert(r[i] == k[i]);
        } else if i == at {
            assert(r[j] == k[j - 1]);
        } else if i < at {
            assert(r[i] == k[i] && r[j] == k[j - 1]);
        } else {
            assert(r[i] == k[i - 1] && r[j] == k[j - 1]);
        }
    }
}

/// Finds `key` in the strictly sorted keys of `entries`, or where it belongs.
pub fn locate<V>(entries: &Vec<(String, V)>, key: &str) -> (r: (bool, usize))
    requires
        strictly_sorted(keys_of(entries@)),
    ensures
        located(keys_of(entries@), key@, r.0, r.1 as int),
{
    let ghost k = keys_of(entries@);
    let mut i: usize = 0;
    while i < entries.len()
        invariant
            k == keys_of(entries@),
            strictly_sorted(k),
            i <= entries@.len(),
            forall|j: int| 0 <= j < i ==> seq_less(#[trigger] k[j], key@),
        decreases entries@.len() - i,
    {
        let here = entries[i].0.as_str();
        assert(here@ == k[i as int]);
        if str_eq(here, key) {
            return (true, i);
        }
        if str_less(key, here) {
            assert forall|j: int| i <= j < k.len() implies seq_less(key@, #[trigger] k[j]) by {
                if j > i {
                    lemma_less_transitive(key@, k[i as int], k[j]);
                }
            }
            assert forall|j: int| 0 <= j < k.len() implies k[j] != key@ by {
                if j < i {
                    lemma_less_irreflexive(key@);
                } else {
                    lemma_less_irreflexive(key@);
                }
            }
            return (false, i);
        }
        proof {
            lemma_less_total(key@, k[i as int]);
        }
        i = i + 1;
    }
    assert forall|j: int| 0 <= j < k.len() implies k[j] != key@ by {
        lemma_less_irreflexive(key@);
    }
    (false, i)
}

/// Whether a strictly sorted string list holds `key`, and where it is or belongs.
pub fn locate_str(list: &Vec<String>, key: &str) -> (r: (bool, usize))
    requires
        strictly_sorted(views(list@)),
    ensures
        located(views(list@), key@, r.0, r.1 as int),
{
    let ghost k = views(list@);
    let mut i: usize = 0;
    while i < list.len()
        invariant
            k == views(list@),
            strictly_sorted(k),
            i <= list@.len(),
            forall|j: int| 0 <= j < i ==> seq_less(#[trigger] k[j], key@),
        decreases list@.len() - i,
    {
        let here = list[i].as_str();
        assert(here@ == k[i as int]);
        if str_eq(here, key) {
            return (true, i);
        }
        if str_less(key, here) {
            assert forall|j: int| i <= j < k.len() implies seq_less(key@, #[trigger] k[j]) by {
                if j > i {
                    lemma_less_transitive(key@, k[i as int], k[j]);
                }
            }
            assert forall|j: int| 0 <= j < k.len() implies k[j] != key@ by {
                lemma_less_irreflexive(key@);
            }
            return (false, i);
        }
        proof {
            lemma_less_total(key@, k[i as int]);
        }
        i = i + 1;
    }
    assert forall|j: int| 0 <= j < k.len() implies k[j] != key@ by {
        lemma_less_irreflexive(key@);
    }
    (false, i)
}

/// Adds `key` to a strictly sorted string list unless it is already there.
pub fn insert_unique(list: &mut Vec<String>, key: &str)
    requires
        strictly_sorted(views(old(list)@)),
    ensures
        strictly_sorted(views(final(list)@)),
        views(final(list)@).to_set() == views(old(list)@).to_set().insert(key@),
{
    let (found, at) = locate_str(list, key);
    if found {
        assert(views(list@).to_set() =~= views(list@).to_set().insert(key@));
        return;
    }
    let ghost before = views(list@);
    proof {
        lemma_insert_keeps_sorted(before, key@, at as int);
    }
    list.insert(at, owned(key));
    assert(views(list@) =~= before.insert(at as int, key@));
    assert(views(list@).to_set() =~= before.to_set().insert(key@)) by {
        assert forall|x: Seq<char>| views(list@).to_set().contains(x) <==> before.to_set().insert(key@).contains(x) by {
            if views(list@).contains(x) {
                let i = choose|i: int| 0 <= i < views(list@).len() && views(list@)[i] == x;
                if i < at {
                    assert(before[i] == x);
                } else if i > at {
                    assert(before[i - 1] == x);
                }
            }
            if before.contains(x) {
                let i = choose|i: int| 0 <= i < before.len() && before[i] == x;
                if i < at {
                    assert(views(list@)[i] == x);
                } else {
                    assert(views(list@)[i + 1] == x);
                }
            }
            if x == key@ {
                assert(views(list@)[at as int] == x);
            }
        }
    }
}


/// `table` counts `items` over the key set `keys` plus every item: its keys
/// strictly increase, are exactly those, and each carries the number of
/// times it occurs among `items` (zero for a key no item names).
pub open spec fn counts(table: Seq<(String, usize)>, keys: Set<Seq<char>>, items: Multiset<Seq<char>>) -> bool {
    &&& strictly_sorted(keys_of(table))
    &&& keys_of(table).to_set() == keys.union(items.dom())
    &&& forall|k: int| 0 <= k < table.len() ==> (#[trigger] table[k]).1 as nat == items.count(table[k].0@)
    &&& forall|k: int| 0 <= k < table.len() ==> (#[trigger] table[k]).1 <= items.len()
}

pub proof fn lemma_counts_empty()
    ensures
        counts(Seq::<(String, usize)>::empty(), Set::<Seq<char>>::empty(), Multiset::<Seq<char>>::empty()),
{
    assert(keys_of(Seq::<(String, usize)>::empty()).to_set() =~= Set::<Seq<char>>::empty().union(
        Multiset::<Seq<char>>::empty().dom(),
    ));
}

pub proof fn lemma_keys_after_insert(before: Seq<Seq<char>>, after: Seq<Seq<char>>, at: int, key: Seq<char>)
    requires
        0 <= at <= before.len(),
        after == before.insert(at, key),
    ensures
        after.to_set() == before.to_set().insert(key),
{
    assert forall|x: Seq<char>| after.to_set().contains(x) <==> before.to_set().insert(key).contains(x) by {
        if after.contains(x) {
            let i = choose|i: int| 0 <= i < after.len() && after[i] == x;
            if i < at {
                assert(before[i] == x);
            } else if i > at {
                assert(before[i - 1] == x);
            }
        }
        if before.contains(x) {
            let i = choose|i: int| 0 <= i < before.len() && before[i] == x;
            if i < at {
                assert(after[i] == x);
            } else {
                assert(after[i + 1] == x);
            }
        }
        if x == key {
            assert(after[at] == x);
        }
    }
    assert(after.to_set() =~= before.to_set().insert(key));
}

/// Makes sure `key` has an entry, with count zero when it is new.
pub fn count_touch(table: &mut Vec<(String, usize)>, key: &str, Ghost(keys): Ghost<Set<Seq<char>>>, Ghost(items): Ghost<Multiset<Seq<char>>>)
    requires
        counts(old(table)@, keys, items),
    ensures
        counts(final(table)@, keys.insert(key@), items),
{
    let ghost before = table@;
    let (found, at) = locate(table, key);
    if found {
        assert(keys.insert(key@).union(items.dom()) =~= keys.union(items.dom()));
        return;
    }
    proof {
        lemma_insert_keeps_sorted(keys_of(before), key@, at as int);
    }
    table.insert(at, (owned(key), 0));
    assert(keys_of(table@) =~= keys_of(before).insert(at as int, key@));
    proof {
        lemma_keys_after_insert(keys_of(before), keys_of(table@), at as int, key@);
        assert(keys.insert(key@).union(items.dom()) =~= keys.union(items.dom()).insert(key@));
        assert(!items.dom().contains(key@)) by {
            assert(!keys_of(before).to_set().contains(key@));
        }
    }
    assert forall|k: int| 0 <= k < table@.len() implies (#[trigger] table@[k]).1 as nat == items.count(table@[k].0@)
        && table@[k].1 <= items.len() by {
        if k < at {
            assert(table@[k] == before[k]);
        } else if k > at {
            assert(table@[k] == before[k - 1]);
        }
    }
}

/// Counts one more occurrence of `key`.
pub fn count_add(table: &mut Vec<(String, usize)>, key: &str, Ghost(keys): Ghost<Set<Seq<char>>>, Ghost(items): Ghost<Multiset<Seq<char>>>)
    requires
        counts(old(table)@, keys, items),
        items.len() < usize::MAX,
    ensures
        counts(final(table)@, keys, items.insert(key@)),
{
    let ghost before = table@;
    let (found, at) = locate(table, key);
    let ghost new_items = items.insert(key@);
    if found {
        let c = table[at].1;
        assert(c as nat == items.count(key@));
        let name = owned(table[at].0.as_str());
        table.set(at, (name, c + 1));
        assert(keys_of(table@) =~= keys_of(before));
        assert(keys_of(table@).to_set() =~= keys.union(new_items.dom())) by {
            assert(keys_of(before).to_set().contains(key@));
        }
        assert forall|k: int| 0 <= k < table@.len() implies (#[trigger] table@[k]).1 as nat == new_items.count(table@[k].0@)
            && table@[k].1 <= new_items.len() by {
            if k != at {
                assert(table@[k] == before[k]);
                assert(keys_of(before)[k] != keys_of(before)[at as int]) by {
                    if k < at {
                        assert(seq_less(keys_of(before)[k], keys_of(before)[at as int]));
                    } else {
                        assert(seq_less(keys_of(before)[at as int], keys_of(before)[k]));
                    }
                    lemma_less_irreflexive(keys_of(before)[k]);
                }
            }
        }
    } else {
        proof {
            lemma_insert_keeps_sorted(keys_of(before), key@, at as int);
            assert(!keys_of(before).to_set().contains(key@));
        }
        table.insert(at, (owned(key), 1));
        assert(keys_of(table@) =~= keys_of(before).insert(at as int, key@));
        proof {
            lemma_keys_after_insert(keys_of(before), keys_of(table@), at as int, key@);
            assert(keys.union(new_items.dom()) =~= keys.union(items.dom()).insert(key@));
        }
        assert forall|k: int| 0 <= k < table@.len() implies (#[trigger] table@[k]).1 as nat == new_items.count(table@[k].0@)
            && table@[k].1 <= new_items.len() by {
            if k < at {
                assert(table@[k] == before[k]);
                assert(keys_of(before)[k] != key@);
            } else if k > at {
                assert(table@[k] == before[k - 1]);
                assert(keys_of(before)[k - 1] != key@);
            } else {
                assert(items.count(key@) == 0);
            }
        }
    }
}

/// The strictly increasing listing of a set of texts (when one exists, as it
/// does for every finite set).
pub open spec fn sorted_listing(s: Set<Seq<char>>) -> Seq<Seq<char>> {
    choose|k: Seq<Seq<char>>| strictly_sorted(k) && k.to_set() == s
}

/// Two strictly increasing listings of the same set are the same listing.
pub proof fn lemma_strictly_sorted_unique(a: Seq<Seq<char>>, b: Seq<Seq<char>>)
    requires
        strictly_sorted(a),
        strictly_sorted(b),
        a.to_set() == b.to_set(),
    ensures
        a == b,
    decreases a.len(),
{
    if a.len() == 0 {
        if b.len() > 0 {
            assert(b.to_set().contains(b[0]));
        }
        assert(a =~= b);
    } else if b.len() == 0 {
        assert(a.to_set().contains(a[0]));
    } else {
        assert(b.to_set().contains(a[0]));
        assert(a.to_set().contains(b[0]));
        let j = choose|j: int| 0 <= j < b.len() && b[j] == a[0];
        let i = choose|i: int| 0 <= i < a.len() && a[i] == b[0];
        if a[0] != b[0] {
            assert(i > 0 && j > 0);
            assert(seq_less(a[0], a[i]));
            assert(seq_less(b[0], b[j]));
            lemma_less_transitive(a[0], b[0], a[0]);
            lemma_less_irreflexive(a[0]);
        }
        let a1 = a.drop_first();
        let b1 = b.drop_first();
        assert forall|x: Seq<char>| a1.to_set().contains(x) <==> b1.to_set().contains(x) by {
            if a1.contains(x) {
                let p = choose|p: int| 0 <= p < a1.len() && a1[p] == x;
                assert(seq_less(a[0], a[p + 1]));
                assert(a.to_set().contains(x));
                let q = choose|q: int| 0 <= q < b.len() && b[q] == x;
                if q == 0 {
                    lemma_less_irreflexive(x);
                }
                assert(b1[q - 1] == x);
            }
            if b1.contains(x) {
                let p = choose|p: int| 0 <= p < b1.len() && b1[p] == x;
                assert(seq_less(b[0], b[p + 1]));
                assert(b.to_set().contains(x));
                let q = choose|q: int| 0 <= q < a.len() && a[q] == x;
                if q == 0 {
                    lemma_less_irreflexive(x);
                }
                assert(a1[q - 1] == x);
            }
        }
        assert(a1.to_set() =~= b1.to_set());
        lemma_strictly_sorted_unique(a1, b1);
        assert(a =~= b1.insert(0, b[0]));
        assert(b =~= b1.insert(0, b[0]));
    }
}

/// A strictly increasing listing of `s` is its [`sorted_listing`].
pub proof fn lemma_sorted_listing(k: Seq<Seq<char>>, s: Set<Seq<char>>)
    requires
        strictly_sorted(k),
        k.to_set() == s,
    ensures
        sorted_listing(s) == k,
{
    let c = sorted_listing(s);
    assert(strictly_sorted(c) && c.to_set() == s);
    lemma_strictly_sorted_unique(c, k);
}

/// `table` counts `items`: its keys strictly increase, are exactly the
/// distinct items, and each carries its multiplicity.
pub open spec fn tallies(table: Seq<(String, usize)>, items: Multiset<Seq<char>>) -> bool {
    &&& strictly_sorted(keys_of(table))
    &&& keys_of(table).to_set() == items.dom()
    &&& forall|k: int| 0 <= k < table.len() ==> (#[trigger] table[k]).1 as nat == items.count(table[k].0@)
    &&& forall|k: int| 0 <= k < table.len() ==> (#[trigger] table[k]).1 <= items.len()
}

pub proof fn lemma_tallies_empty()
    ensures
        tallies(Seq::<(String, usize)>::empty(), Multiset::<Seq<char>>::empty()),
{
    assert(keys_of(Seq::<(String, usize)>::empty()).to_set() =~= Multiset::<Seq<char>>::empty().dom());
}

/// Counts one more occurrence of `key`.
pub fn tally_add(table: &mut Vec<(String, usize)>, key: &str, Ghost(items): Ghost<Multiset<Seq<char>>>)
    requires
        tallies(old(table)@, items),
        items.len() < usize::MAX,
    ensures
        tallies(final(table)@, items.insert(key@)),
{
    let ghost before = table@;
    let (found, at) = locate(table, key);
    let ghost new_items = items.insert(key@);
    if found {
        let c = table[at].1;
        assert(c as nat == items.count(key@));
        let name = owned(table[at].0.as_str());
        table.set(at, (name, c + 1));
        assert(keys_of(table@) =~= keys_of(before));
        assert(keys_of(table@).to_set() =~= new_items.dom()) by {
            assert(items.dom().contains(key@));
        }
        assert forall|k: int| 0 <= k < table@.len() implies (#[trigger] table@[k]).1 <= new_items.len() by {
            if k != at {
                assert(table@[k] == before[k]);
            }
        }
        assert forall|k: int| 0 <= k < table@.len() implies (#[trigger] table@[k]).1 as nat == new_items.count(table@[k].0@) by {
            if k != at {
                assert(table@[k] == before[k]);
                assert(keys_of(before)[k] != keys_of(before)[at as int]) by {
                    if k < at {
                        assert(seq_less(keys_of(before)[k], keys_of(before)[at as int]));
                    } else {
                        assert(seq_less(keys_of(before)[at as int], keys_of(before)[k]));
                    }
                    lemma_less_irreflexive(keys_of(before)[k]);
                }
            }
        }
    } else {
        proof {
            lemma_insert_keeps_sorted(keys_of(before), key@, at as int);
            assert(!keys_of(before).to_set().contains(key@));
        }
        table.insert(at, (owned(key), 1));
        assert(keys_of(table@) =~= keys_of(before).insert(at as int, key@));
        assert(keys_of(table@).to_set() =~= new_items.dom()) by {
            assert forall|x: Seq<char>| keys_of(table@).to_set().contains(x) <==> new_items.dom().contains(x) by {
                if keys_of(table@).contains(x) {
                    let i = choose|i: int| 0 <= i < keys_of(table@).len() && keys_of(table@)[i] == x;
                    if i < at {
                        assert(keys_of(before)[i] == x);
                    } else if i > at {
                        assert(keys_of(before)[i - 1] == x);
                    }
                }
                if x != key@ && items.dom().contains(x) {
                    assert(keys_of(before).to_set().contains(x));
                    let i = choose|i: int| 0 <= i < keys_of(before).len() && keys_of(before)[i] == x;
                    if i < at {
                        assert(keys_of(table@)[i] == x);
                    } else {
                        assert(keys_of(table@)[i + 1] == x);
                    }
                }
                if x == key@ {
                    assert(keys_of(table@)[at as int] == x);
                }
            }
        }
        assert forall|k: int| 0 <= k < table@.len() implies (#[trigger] table@[k]).1 <= new_items.len() by {
            if k < at {
                assert(table@[k] == before[k]);
            } else if k > at {
                assert(table@[k] == before[k - 1]);
            }
        }
        assert forall|k: int| 0 <= k < table@.len() implies (#[trigger] table@[k]).1 as nat == new_items.count(table@[k].0@) by {
            if k < at {
                assert(table@[k] == before[k]);
                assert(keys_of(before)[k] != key@);
            } else if k > at {
                assert(table@[k] == before[k - 1]);
                assert(keys_of(before)[k - 1] != key@);
            } else {
                assert(items.count(key@) == 0);
            }
        }
    }
}


/// The keys and counts of a table.
pub open spec fn tally_view(t: Seq<(String, usize)>) -> Seq<(Seq<char>, usize)> {
    t.map_values(|e: (String, usize)| (e.0@, e.1))
}

/// A multiset has one tally: two tables that tally it have the same keys and counts.
pub proof fn lemma_tallies_unique(t1: Seq<(String, usize)>, t2: Seq<(String, usize)>, items: Multiset<Seq<char>>)
    requires
        tallies(t1, items),
        tallies(t2, items),
    ensures
        tally_view(t1) == tally_view(t2),
{
    lemma_sorted_listing(keys_of(t1), items.dom());
    lemma_sorted_listing(keys_of(t2), items.dom());
    assert(keys_of(t1).len() == keys_of(t2).len());
    assert forall|k: int| 0 <= k < t1.len() implies tally_view(t1)[k] == tally_view(t2)[k] by {
        assert(keys_of(t1)[k] == keys_of(t2)[k]);
        assert(t1[k].1 as nat == items.count(t1[k].0@));
        assert(t2[k].1 as nat == items.count(t2[k].0@));
    }
    assert(tally_view(t1) =~= tally_view(t2));
}

} // verus!

//! Near-clone candidates from the graph's symbols and the texts of their
//! files: each function or method of at least three lines whose body has
//! word tokens, its tokens as ids in the order the words were first seen,
//! its language, and its size band.

use vstd::prelude::*;
use crate::builder::node_keys;
use crate::clone_tokens::{body_tokens, increasing, word_tokens};
use crate::clones::{clone_eligible, is_clone_eligible, log2, size_band, CloneCandidate};
use crate::health::{first_occurrences, lemma_first_occurrences_contains};
use crate::model::{GraphNode, SymbolNode};
use crate::strmap::{keys_of, located, locate_str, sorted_listing, strictly_sorted, views};
use crate::text::{ascii_lower, owned, str_eq, to_ascii_lower};

verus! {

broadcast use vstd::seq_lib::group_seq_properties;

/// What `std::path::Path::extension` gives for a path.
pub uninterp spec fn path_extension(path: Seq<char>) -> Option<Seq<char>>;

/// `Path::extension` of `path`, as text. Its answer is stated only through
/// the name [`path_extension`], a function of the path alone.
#[verifier::external_body]
fn extension_of(path: &str) -> (r: Option<String>)
    ensures
        match r {
            Some(e) => path_extension(path@) == Some(e@),
            None => path_extension(path@) is None,
        },
{
    std::path::Path::new(path).extension().and_then(|e| e.to_str()).map(|e| e.to_owned())
}

/// The language of a candidate: its file's extension in lower case, or `unknown`.
pub open spec fn language_of(path: Seq<char>) -> Seq<char> {
    ascii_lower(
        match path_extension(path) {
            Some(e) => e,
            None => "unknown"@,
        },
    )
}

/// The text read for `path`, if any.
pub open spec fn text_for(texts: Seq<(String, String)>, path: Seq<char>) -> Option<Seq<char>> {
    if exists|k: int| 0 <= k < texts.len() && (#[trigger] texts[k]).0@ == path {
        Some(texts[choose|k: int| 0 <= k < texts.len() && (#[trigger] texts[k]).0@ == path].1@)
    } else {
        None
    }
}

/// The word tokens of a symbol's body, when it takes part in near-clone
/// detection: it is eligible, its file's text was read, and its body has tokens.
pub open spec fn body_words(s: SymbolNode, texts: Seq<(String, String)>) -> Option<Seq<Seq<char>>> {
    if clone_eligible(s) {
        match text_for(texts, s.evidence.path@) {
            Some(t) => {
                let sp = s.evidence.span->0;
                let w = sorted_listing(body_tokens(t, sp.start_line, sp.end_line).to_set());
                if w.len() > 0 {
                    Some(w)
                } else {
                    None
                }
            },
            None => None,
        }
    } else {
        None
    }
}

/// The symbols that take part, in node order, with their words.
pub open spec fn bodies(nodes: Seq<GraphNode>, texts: Seq<(String, String)>) -> Seq<(SymbolNode, Seq<Seq<char>>)>
    decreases nodes.len(),
{
    if nodes.len() == 0 {
        Seq::empty()
    } else {
        let prior = bodies(nodes.drop_last(), texts);
        match nodes.last() {
            GraphNode::Symbol(s) => match body_words(s, texts) {
                Some(w) => prior.push((s, w)),
                None => prior,
            },
            _ => prior,
        }
    }
}

/// The words of the bodies, one body after another.
pub open spec fn word_stream(b: Seq<(SymbolNode, Seq<Seq<char>>)>) -> Seq<Seq<char>>
    decreases b.len(),
{
    if b.len() == 0 {
        Seq::empty()
    } else {
        word_stream(b.drop_last()) + b.last().1
    }
}

/// The distinct words of the bodies in the order first seen: a word's id is its place here.
pub open spec fn dictionary(b: Seq<(SymbolNode, Seq<Seq<char>>)>) -> Seq<Seq<char>> {
    first_occurrences(word_stream(b))
}

/// `c` is the candidate of the `k`th body: its symbol's id and evidence,
/// the ids of its words (strictly increasing), its file's language, and the
/// size band of its token count.
pub open spec fn candidate_of(c: CloneCandidate, b: Seq<(SymbolNode, Seq<Seq<char>>)>, k: int) -> bool {
    let s = b[k].0;
    let w = b[k].1;
    let dict = dictionary(b.take(k + 1));
    &&& c.id == s.id
    &&& c.evidence == s.evidence
    &&& increasing(c.tokens@)
    &&& forall|q: int| 0 <= q < c.tokens@.len() ==> (#[trigger] c.tokens@[q]) < dict.len()
    &&& c.tokens@.map_values(|t: u32| dict[t as int]).to_set() == w.to_set()
    &&& c.language@ == language_of(s.evidence.path@)
    &&& c.size_band == log2(if c.tokens@.len() == 0 { 1 } else { c.tokens@.len() })
}

/// The candidates of the symbols among `nodes` with the file texts `texts`.
pub open spec fn candidates_of(nodes: Seq<GraphNode>, texts: Seq<(String, String)>, c: Seq<CloneCandidate>) -> bool {
    let b = bodies(nodes, texts);
    &&& c.len() == b.len()
    &&& forall|k: int| 0 <= k < c.len() ==> #[trigger] candidate_of(c[k], b, k)
}

/// Adds `x` to a strictly increasing list, unless it is there.
fn insert_id(v: &mut Vec<u32>, x: u32)
    requires
        increasing(old(v)@),
    ensures
        increasing(final(v)@),
        final(v)@.to_set() == old(v)@.to_set().insert(x),
{
    let mut i: usize = 0;
    while i < v.len() && v[i] < x
        invariant
            i <= v@.len(),
            increasing(v@),
            forall|q: int| 0 <= q < i ==> v@[q] < x,
        decreases v@.len() - i,
    {
        i = i + 1;
    }
    if i < v.len() && v[i] == x {
        assert(v@.to_set().insert(x) =~= v@.to_set());
        return;
    }
    let ghost before = v@;
    assert(i < before.len() ==> before[i as int] > x);
    v.insert(i, x);
    assert(increasing(v@)) by {
        assert forall|p: int, q: int| 0 <= p < q < v@.len() implies v@[p] < v@[q] by {
            if q < i {
                assert(v@[p] == before[p] && v@[q] == before[q]);
            } else if q == i {
                assert(v@[p] == before[p]);
            } else if p < i {
                assert(v@[p] == before[p] && v@[q] == before[q - 1]);
                assert(before[q - 1] >= before[i as int]);
            } else if p == i {
                assert(v@[q] == before[q - 1]);
                assert(before[q - 1] >= before[i as int]);
            } else {
                assert(v@[p] == before[p - 1] && v@[q] == before[q - 1]);
            }
        }
    }
    assert(v@.to_set() =~= before.to_set().insert(x)) by {
        assert forall|y: u32| v@.to_set().contains(y) <==> (before.to_set().contains(y) || y == x) by {
            if v@.contains(y) {
                let q = choose|q: int| 0 <= q < v@.len() && v@[q] == y;
                if q < i {
                    assert(before[q] == y);
                } else if q > i {
                    assert(before[q - 1] == y);
                }
            }
            if before.contains(y) {
                let q = choose|q: int| 0 <= q < before.len() && before[q] == y;
                if q < i {
                    assert(v@[q] == y);
                } else {
                    assert(v@[q + 1] == y);
                }
            }
            if y == x {
                assert(v@[i as int] == x);
            }
        }
    }
}


/// Where the text of `path` stands in `texts`, if it was read.
fn text_index(keys: &Vec<String>, texts: &Vec<(String, String)>, path: &str) -> (r: Option<usize>)
    requires
        strictly_sorted(keys_of(texts@)),
        views(keys@) == keys_of(texts@),
    ensures
        match r {
            Some(k) => k < texts@.len() && text_for(texts@, path@) == Some(texts@[k as int].1@),
            None => text_for(texts@, path@) is None,
        },
{
    let (found, at) = locate_str(keys, path);
    if found {
        proof {
            assert(keys_of(texts@)[at as int] == texts@[at as int].0@);
            assert(texts@[at as int].0@ == path@);
            let c = choose|k: int| 0 <= k < texts@.len() && (#[trigger] texts@[k]).0@ == path@;
            if c != at as int {
                assert(keys_of(texts@)[c] == texts@[c].0@);
                if c < at {
                    assert(crate::text::seq_less(keys_of(texts@)[c], keys_of(texts@)[at as int]));
                } else {
                    assert(crate::text::seq_less(keys_of(texts@)[at as int], keys_of(texts@)[c]));
                }
                crate::text::lemma_less_irreflexive(path@);
            }
        }
        Some(at)
    } else {
        proof {
            if exists|k: int| 0 <= k < texts@.len() && (#[trigger] texts@[k]).0@ == path@ {
                let c = choose|k: int| 0 <= k < texts@.len() && (#[trigger] texts@[k]).0@ == path@;
                assert(keys_of(texts@)[c] == path@);
                assert(views(keys@)[c] == path@);
            }
        }
        None
    }
}

/// The id of `w` in the dictionary, adding it when first seen.
fn intern(dict: &mut Vec<String>, w: &String, Ghost(stream): Ghost<Seq<Seq<char>>>) -> (id: usize)
    requires
        views(old(dict)@) == first_occurrences(stream),
    ensures
        views(final(dict)@) == first_occurrences(stream.push(w@)),
        id < final(dict)@.len(),
        final(dict)@[id as int]@ == w@,
        old(dict)@.len() <= final(dict)@.len() <= old(dict)@.len() + 1,
        forall|t: int| 0 <= t < old(dict)@.len() ==> #[trigger] final(dict)@[t] == old(dict)@[t],
{
    let mut i: usize = 0;
    while i < dict.len()
        invariant
            i <= dict@.len(),
            views(dict@) == first_occurrences(stream),
            forall|q: int| 0 <= q < i ==> dict@[q]@ != w@,
        decreases dict@.len() - i,
    {
        if str_eq(dict[i].as_str(), w.as_str()) {
            proof {
                assert(views(dict@)[i as int] == w@);
                assert(first_occurrences(stream).contains(w@));
                lemma_first_occurrences_contains(stream, w@);
                assert(stream.push(w@).drop_last() =~= stream);
            }
            return i;
        }
        i = i + 1;
    }
    proof {
        assert(!first_occurrences(stream).contains(w@)) by {
            if first_occurrences(stream).contains(w@) {
                let q = choose|q: int| 0 <= q < views(dict@).len() && views(dict@)[q] == w@;
                assert(dict@[q]@ == w@);
            }
        }
        lemma_first_occurrences_contains(stream, w@);
        assert(stream.push(w@).drop_last() =~= stream);
    }
    let ghost before = dict@;
    dict.push(w.clone());
    assert(views(dict@) =~= views(before).push(w@));
    i
}

/// The words of a symbol's body, when it takes part ([`body_words`]).
fn body_words_of(s: &SymbolNode, keys: &Vec<String>, texts: &Vec<(String, String)>) -> (r: Option<Vec<String>>)
    requires
        strictly_sorted(keys_of(texts@)),
        views(keys@) == keys_of(texts@),
    ensures
        match r {
            Some(w) => body_words(*s, texts@) == Some(views(w@)),
            None => body_words(*s, texts@) is None,
        },
{
    if !is_clone_eligible(s) {
        return None;
    }
    match text_index(keys, texts, s.evidence.path.as_str()) {
        Some(k) => {
            let sp = match &s.evidence.span {
                Some(sp) => sp,
                None => {
                    return None;
                },
            };
            let w = word_tokens(texts[k].1.as_str(), sp.start_line, sp.end_line);
            if w.len() > 0 {
                Some(w)
            } else {
                None
            }
        },
        None => None,
    }
}


proof fn lemma_first_occurrences_grow(s: Seq<Seq<char>>, t: Seq<Seq<char>>)
    ensures
        first_occurrences(s).len() <= first_occurrences(s + t).len(),
    decreases t.len(),
{
    if t.len() == 0 {
        assert(s + t =~= s);
    } else {
        lemma_first_occurrences_grow(s, t.drop_last());
        assert((s + t).drop_last() =~= s + t.drop_last());
    }
}

proof fn lemma_stream_prefix(nodes: Seq<GraphNode>, texts: Seq<(String, String)>, i: int)
    requires
        0 <= i <= nodes.len(),
    ensures
        exists|rest: Seq<Seq<char>>| word_stream(bodies(nodes, texts)) == word_stream(bodies(nodes.take(i), texts)) + rest,
    decreases nodes.len(),
{
    if i == nodes.len() {
        assert(nodes.take(i) =~= nodes);
        assert(word_stream(bodies(nodes, texts)) =~= word_stream(bodies(nodes.take(i), texts)) + Seq::<Seq<char>>::empty());
    } else {
        let d = nodes.drop_last();
        lemma_stream_prefix(d, texts, i);
        assert(d.take(i) =~= nodes.take(i));
        let rest0 = choose|rest: Seq<Seq<char>>| word_stream(bodies(d, texts)) == word_stream(bodies(d.take(i), texts)) + rest;
        let full = bodies(nodes, texts);
        if full.len() > bodies(d, texts).len() {
            assert(full.drop_last() == bodies(d, texts));
            assert(word_stream(full) == word_stream(bodies(d, texts)) + full.last().1);
            assert(word_stream(full) =~= word_stream(bodies(nodes.take(i), texts)) + (rest0 + full.last().1));
        } else {
            assert(word_stream(full) =~= word_stream(bodies(nodes.take(i), texts)) + rest0);
        }
    }
}

/// The near-clone candidates of the symbols among `nodes`, in node order,
/// with `texts` the text read for each file path (paths strictly
/// increasing): each eligible function or method whose body has word
/// tokens, with the ids of its words in the order words were first seen.
/// The distinct words must fit the `u32` ids: more than 2^32 of them would
/// take tens of gigabytes of text.
pub fn clone_candidates(nodes: &Vec<GraphNode>, texts: &Vec<(String, String)>) -> (r: Vec<CloneCandidate>)
    requires
        strictly_sorted(keys_of(texts@)),
        dictionary(bodies(nodes@, texts@)).len() <= 0x1_0000_0000,
    ensures
        candidates_of(nodes@, texts@, r@),
{
    let mut keys: Vec<String> = Vec::new();
    let mut q: usize = 0;
    while q < texts.len()
        invariant
            q <= texts@.len(),
            views(keys@) == keys_of(texts@).take(q as int),
        decreases texts@.len() - q,
    {
        keys.push(texts[q].0.clone());
        assert(keys_of(texts@).take(q + 1) =~= keys_of(texts@).take(q as int).push(texts@[q as int].0@));
        assert(views(keys@) =~= keys_of(texts@).take(q as int).push(texts@[q as int].0@));
        q = q + 1;
    }
    assert(keys_of(texts@).take(q as int) =~= keys_of(texts@));
    let ghost all = dictionary(bodies(nodes@, texts@));
    let mut out: Vec<CloneCandidate> = Vec::new();
    let mut dict: Vec<String> = Vec::new();
    let mut i: usize = 0;
    assert(nodes@.take(0) =~= Seq::<GraphNode>::empty());
    assert(views(dict@) =~= first_occurrences(Seq::<Seq<char>>::empty()));
    while i < nodes.len()
        invariant
            i <= nodes@.len(),
            strictly_sorted(keys_of(texts@)),
            views(keys@) == keys_of(texts@),
            all == dictionary(bodies(nodes@, texts@)),
            all.len() <= 0x1_0000_0000,
            out@.len() == bodies(nodes@.take(i as int), texts@).len(),
            forall|k: int| 0 <= k < out@.len() ==> #[trigger] candidate_of(out@[k], bodies(nodes@.take(i as int), texts@), k),
            views(dict@) == dictionary(bodies(nodes@.take(i as int), texts@)),
        decreases nodes@.len() - i,
    {
        let ghost bi = bodies(nodes@.take(i as int), texts@);
        let ghost bn = bodies(nodes@.take(i + 1), texts@);
        proof {
            assert(nodes@.take(i + 1).drop_last() =~= nodes@.take(i as int));
            assert(nodes@.take(i + 1).last() == nodes@[i as int]);
        }
        match &nodes[i] {
            GraphNode::Symbol(sym) => {
                match body_words_of(sym, &keys, texts) {
                    Some(words) => {
                        let ghost wv = views(words@);
                        let ghost ws = word_stream(bi);
                        proof {
                            assert(bn == bi.push((*sym, wv)));
                            assert(bn.drop_last() =~= bi);
                            assert(word_stream(bn) == ws + wv);
                            lemma_stream_prefix(nodes@, texts@, i + 1);
                        }
                        let mut tokens: Vec<u32> = Vec::new();
                        let mut j: usize = 0;
                        assert(wv.take(0) =~= Seq::<Seq<char>>::empty());
                        assert(ws + wv.take(0) =~= ws);
                        assert(tokens@.map_values(|t: u32| views(dict@)[t as int]).to_set() =~= wv.take(0).to_set());
                        while j < words.len()
                            invariant
                                j <= wv.len(),
                                wv == views(words@),
                                all.len() <= 0x1_0000_0000,
                                exists|rest: Seq<Seq<char>>| word_stream(bodies(nodes@, texts@)) == (ws + wv) + rest,
                                all == dictionary(bodies(nodes@, texts@)),
                                views(dict@) == first_occurrences(ws + wv.take(j as int)),
                                increasing(tokens@),
                                forall|p: int| 0 <= p < tokens@.len() ==> (#[trigger] tokens@[p]) < dict@.len(),
                                tokens@.map_values(|t: u32| views(dict@)[t as int]).to_set() == wv.take(j as int).to_set(),
                            decreases wv.len() - j,
                        {
                            let ghost before = dict@;
                            let ghost bt = tokens@;
                            let ghost stream = ws + wv.take(j as int);
                            let id = intern(&mut dict, &words[j], Ghost(stream));
                            proof {
                                assert(stream.push(wv[j as int]) =~= ws + wv.take(j + 1));
                                let rest = choose|rest: Seq<Seq<char>>| word_stream(bodies(nodes@, texts@)) == (ws + wv) + rest;
                                assert((ws + wv) + rest =~= (ws + wv.take(j + 1)) + (wv.skip(j + 1) + rest));
                                lemma_first_occurrences_grow(ws + wv.take(j + 1), wv.skip(j + 1) + rest);
                                assert(views(dict@).len() == dict@.len());
                            }
                            insert_id(&mut tokens, id as u32);
                            proof {
                                assert forall|p: int| 0 <= p < bt.len() implies views(dict@)[bt[p] as int] == views(before)[bt[p] as int] by {
                                    assert(dict@[bt[p] as int] == before[bt[p] as int]);
                                }
                                assert(bt.map_values(|t: u32| views(dict@)[t as int]) =~= bt.map_values(|t: u32| views(before)[t as int]));
                                assert(views(dict@)[id as int] == wv[j as int]);
                                assert(wv.take(j + 1).to_set() =~= wv.take(j as int).to_set().insert(wv[j as int]));
                                let f = |t: u32| views(dict@)[t as int];
                                let m_new = tokens@.map_values(f);
                                let m_old = bt.map_values(f);
                                assert(tokens@.map_values(|t: u32| views(dict@)[t as int]) =~= m_new);
                                assert(bt.map_values(|t: u32| views(dict@)[t as int]) =~= m_old);
                                assert forall|y: Seq<char>| #[trigger] m_new.to_set().contains(y) <==> (m_old.to_set().contains(y) || y == wv[j as int]) by {
                                    if m_new.to_set().contains(y) {
                                        let p = choose|p: int| 0 <= p < m_new.len() && m_new[p] == y;
                                        assert(tokens@.to_set().contains(tokens@[p]));
                                        if tokens@[p] != id as u32 {
                                            assert(bt.to_set().contains(tokens@[p]));
                                            let r = choose|r: int| 0 <= r < bt.len() && bt[r] == tokens@[p];
                                            assert(m_old[r] == y);
                                        }
                                    }
                                    if m_old.to_set().contains(y) {
                                        let r = choose|r: int| 0 <= r < m_old.len() && m_old[r] == y;
                                        assert(bt.to_set().contains(bt[r]));
                                        assert(tokens@.to_set().contains(bt[r]));
                                        let p = choose|p: int| 0 <= p < tokens@.len() && tokens@[p] == bt[r];
                                        assert(m_new[p] == y);
                                    }
                                    if y == wv[j as int] {
                                        assert(tokens@.to_set().contains(id as u32));
                                        let p = choose|p: int| 0 <= p < tokens@.len() && tokens@[p] == id as u32;
                                        assert(m_new[p] == y);
                                    }
                                }
                                assert(m_new.to_set() =~= m_old.to_set().insert(wv[j as int]));
                                assert forall|p: int| 0 <= p < tokens@.len() implies (#[trigger] tokens@[p]) < dict@.len() by {
                                    assert(tokens@.to_set().contains(tokens@[p]));
                                    if tokens@[p] != id as u32 {
                                        assert(bt.to_set().contains(tokens@[p]));
                                        let r = choose|r: int| 0 <= r < bt.len() && bt[r] == tokens@[p];
                                    }
                                }
                            }
                            j = j + 1;
                        }
                        proof {
                            assert(wv.take(j as int) =~= wv);
                        }
                        let language = match extension_of(sym.evidence.path.as_str()) {
                            Some(e) => to_ascii_lower(e.as_str()),
                            None => to_ascii_lower("unknown"),
                        };
                        let band = size_band(tokens.len());
                        let c = CloneCandidate { id: sym.id.clone(), evidence: sym.evidence.clone(), tokens, language, size_band: band };
                        let ghost old_out = out@;
                        out.push(c);
                        proof {
                            assert(bn.take(bi.len() as int + 1) =~= bn);
                            assert(views(dict@) == dictionary(bn));
                            assert(candidate_of(out@[bi.len() as int], bn, bi.len() as int));
                            assert forall|k: int| 0 <= k < out@.len() implies #[trigger] candidate_of(out@[k], bn, k) by {
                                if k < bi.len() {
                                    assert(candidate_of(old_out[k], bi, k));
                                    assert(bn[k] == bi[k]);
                                    assert(bn.take(k + 1) =~= bi.take(k + 1));
                                    assert(out@[k] == old_out[k]);
                                }
                            }
                        }
                    },
                    None => {
                        proof {
                            assert(bn == bi);
                        }
                    },
                }
            },
            _ => {
                proof {
                    assert(bn == bi);
                }
            },
        }
        i = i + 1;
    }
    proof {
        assert(nodes@.take(i as int) =~= nodes@);
    }
    out
}


proof fn lemma_bodies_len(nodes: Seq<GraphNode>, texts: Seq<(String, String)>)
    ensures
        bodies(nodes, texts).len() <= nodes.len(),
    decreases nodes.len(),
{
    if nodes.len() > 0 {
        lemma_bodies_len(nodes.drop_last(), texts);
    }
}

impl crate::builder::BuilderState {
    /// Near-clone detection over the state's symbols, with `texts` the text
    /// read for each file path: the candidates [`clone_candidates`] gives,
    /// then [`crate::clones::BuilderState::detect_near_clones`] on them.
    pub fn detect_near_clones_in(
        &mut self,
        texts: &Vec<(String, String)>,
        detail: crate::builder::GraphBuildTraceDetail,
        selectors: &Vec<String>,
    ) -> (r: (Vec<CloneCandidate>, crate::clones::NearCloneDetection))
        requires
            old(self).wf(),
            old(self).nodes@.len() <= u32::MAX,
            strictly_sorted(keys_of(texts@)),
            dictionary(bodies(old(self).nodes@, texts@)).len() <= 0x1_0000_0000,
        ensures
            final(self).wf(),
            candidates_of(old(self).nodes@, texts@, r.0@),
            crate::clones::band_pairs_of(r.0@, r.1.pairs@),
            r.1.verification.relations@.map_values(|x: crate::clones::VerifiedRelation| crate::clones::verified_view(x))
                == crate::clones::verified_relations(r.0@, r.1.pairs@),
            r.1.verification.emitted_count == crate::clones::verified_relations(r.0@, r.1.pairs@).len(),
            r.1.verification.rejected_near_threshold_count == crate::clones::near_count(r.0@, r.1.pairs@),
            crate::decisions::decision_views(r.1.verification.decisions@) == crate::clones::clone_decisions(
                r.0@,
                r.1.pairs@,
                detail,
                views(selectors@),
            ),
            r.1.recorded <==> old(self).relation_count + crate::clones::verified_relations(r.0@, r.1.pairs@).len() < usize::MAX,
            !r.1.recorded ==> *final(self) == *old(self),
            r.1.recorded ==> {
                &&& final(self).nodes == old(self).nodes
                &&& final(self).relation_count == old(self).relation_count + r.1.verification.relations@.len()
                &&& final(self).relations@.len() == old(self).relations@.len() + r.1.verification.relations@.len()
                &&& forall|k: int| 0 <= k < old(self).relations@.len() ==> final(self).relations@[k] == old(self).relations@[k]
                &&& forall|k: int|
                    0 <= k < r.1.verification.relations@.len() ==> crate::clones::similar_recorded(
                        #[trigger] final(self).relations@[old(self).relations@.len() + k],
                        old(self).relation_count + k + 1,
                        r.1.verification.relations@[k],
                    )
            },
    {
        let candidates = clone_candidates(&self.nodes, texts);
        proof {
            lemma_bodies_len(self.nodes@, texts@);
            assert forall|k: int| 0 <= k < candidates@.len() implies increasing((#[trigger] candidates@[k]).tokens@) by {
                assert(candidate_of(candidates@[k], bodies(self.nodes@, texts@), k));
            }
        }
        let found = self.detect_near_clones(&candidates, detail, selectors);
        (candidates, found)
    }
}

} // verus!

//! Lexical content of function bodies for near-clone comparison: the
//! lower-case word tokens of a range of lines, and how many tokens two
//! token sets share.

use vstd::prelude::*;
use vstd::seq_lib::*;
use crate::strmap::{insert_unique, lemma_sorted_listing, sorted_listing, strictly_sorted, views};
use crate::text::{string_of, chars_of, to_lower, unicode_lower};

verus! {

broadcast use {vstd::seq_lib::group_seq_properties, vstd::seq_lib::group_to_multiset_ensures};

/// What `char::is_alphanumeric` answers for `c`: whether Unicode counts it
/// alphabetic or numeric.
pub uninterp spec fn unicode_alphanumeric(c: char) -> bool;

/// `char::is_alphanumeric`. Its answer is stated only through the name
/// [`unicode_alphanumeric`], a function of the character alone.
#[verifier::external_body]
pub(crate) fn alphanumeric(c: char) -> (b: bool)
    ensures
        b == unicode_alphanumeric(c),
{
    c.is_alphanumeric()
}

/// Whether `c` has the Unicode `White_Space` property, which is what
/// `char::is_whitespace` answers: the control characters tab through
/// carriage return, space, next line, no-break space, ogham space mark, the
/// spaces from en quad to hair space, line and paragraph separator, narrow
/// no-break space, medium mathematical space, and ideographic space.
pub open spec fn unicode_whitespace(c: char) -> bool {
    let u = c as u32;
    ||| 0x9 <= u <= 0xD
    ||| u == 0x20
    ||| u == 0x85
    ||| u == 0xA0
    ||| u == 0x1680
    ||| 0x2000 <= u <= 0x200A
    ||| u == 0x2028
    ||| u == 0x2029
    ||| u == 0x202F
    ||| u == 0x205F
    ||| u == 0x3000
}

/// Whether `c` is white space, as [`unicode_whitespace`] says.
pub(crate) fn whitespace(c: char) -> (b: bool)
    ensures
        b == unicode_whitespace(c),
{
    let u = c as u32;
    (0x9 <= u && u <= 0xD) || u == 0x20 || u == 0x85 || u == 0xA0 || u == 0x1680 || (0x2000 <= u && u <= 0x200A) || u == 0x2028
        || u == 0x2029 || u == 0x202F || u == 0x205F || u == 0x3000
}

/// A character that ends a word: neither alphanumeric nor `_`.
pub open spec fn word_break(c: char) -> bool {
    !(unicode_alphanumeric(c) || c == '_')
}

/// The characters that split: `\n` for lines, word breaks for words.
pub open spec fn breaks(newline: bool) -> spec_fn(char) -> bool {
    |c: char| if newline { c == '\n' } else { word_break(c) }
}

/// `s` split at every character `brk` accepts, as `str::split` splits it:
/// the pieces between them in order, empty ones included.
pub open spec fn pieces(s: Seq<char>, brk: spec_fn(char) -> bool) -> Seq<Seq<char>>
    decreases s.len(),
{
    if s.len() == 0 {
        seq![Seq::empty()]
    } else {
        let p = pieces(s.drop_last(), brk);
        if brk(s.last()) {
            p.push(Seq::empty())
        } else {
            p.update(p.len() - 1, p.last().push(s.last()))
        }
    }
}

/// A line without the one `\r` that may end it.
pub open spec fn strip_cr(l: Seq<char>) -> Seq<char> {
    if l.len() > 0 && l.last() == '\r' {
        l.drop_last()
    } else {
        l
    }
}

/// The lines of `s` as `str::lines` yields them: split at `\n`, a `\r` just
/// before a `\n` taken off, and no empty line after a final `\n`.
pub open spec fn text_lines(s: Seq<char>) -> Seq<Seq<char>> {
    let p = pieces(s, breaks(true));
    let kept = if p.last().len() == 0 { p.drop_last() } else { p };
    Seq::new(kept.len(), |i: int| if i < p.len() - 1 { strip_cr(kept[i]) } else { kept[i] })
}

/// The tokens a line's pieces give: those of more than one character, lower-cased.
pub open spec fn kept_tokens(p: Seq<Seq<char>>) -> Seq<Seq<char>>
    decreases p.len(),
{
    if p.len() == 0 {
        Seq::empty()
    } else {
        let prior = kept_tokens(p.drop_last());
        if p.last().len() > 1 {
            prior.push(unicode_lower(p.last()))
        } else {
            prior
        }
    }
}

/// The tokens of lines `from..to`, in order.
pub open spec fn tokens_between(lines: Seq<Seq<char>>, from: int, to: int) -> Seq<Seq<char>>
    decreases to - from,
{
    if to <= from {
        Seq::empty()
    } else {
        tokens_between(lines, from, to - 1) + kept_tokens(pieces(lines[to - 1], breaks(false)))
    }
}

/// The word tokens of lines `start_line..=end_line` (counted from one) of `text`.
pub open spec fn body_tokens(text: Seq<char>, start_line: u32, end_line: u32) -> Seq<Seq<char>> {
    let lines = text_lines(text);
    let from: int = if start_line > 0 { start_line - 1 } else { 0 };
    let to: int = if end_line < lines.len() { end_line as int } else { lines.len() as int };
    tokens_between(lines, from, to)
}

/// The character rows of a list of character vectors.
pub open spec fn rows(v: Seq<Vec<char>>) -> Seq<Seq<char>> {
    v.map_values(|x: Vec<char>| x@)
}

proof fn lemma_pieces_nonempty(s: Seq<char>, brk: spec_fn(char) -> bool)
    ensures
        pieces(s, brk).len() >= 1,
    decreases s.len(),
{
    if s.len() > 0 {
        lemma_pieces_nonempty(s.drop_last(), brk);
    }
}

fn is_break(c: char, newline: bool) -> (b: bool)
    ensures
        b == breaks(newline)(c),
{
    if newline {
        c == '\n'
    } else {
        !(alphanumeric(c) || c == '_')
    }
}

fn split_pieces(v: &Vec<char>, newline: bool) -> (r: Vec<Vec<char>>)
    ensures
        rows(r@) == pieces(v@, breaks(newline)),
{
    let mut r: Vec<Vec<char>> = Vec::new();
    let mut cur: Vec<char> = Vec::new();
    let mut i: usize = 0;
    assert(v@.take(0) =~= Seq::<char>::empty());
    while i < v.len()
        invariant
            i <= v@.len(),
            rows(r@).push(cur@) == pieces(v@.take(i as int), breaks(newline)),
        decreases v@.len() - i,
    {
        let c = v[i];
        assert(v@.take(i + 1).drop_last() =~= v@.take(i as int));
        assert(v@.take(i + 1).last() == c);
        let ghost before = rows(r@);
        let ghost piece = cur@;
        if is_break(c, newline) {
            let done = cur;
            r.push(done);
            cur = Vec::new();
            assert(rows(r@) =~= before.push(piece));
            assert(rows(r@).push(cur@) =~= before.push(piece).push(Seq::<char>::empty()));
        } else {
            cur.push(c);
            assert(rows(r@).push(cur@) =~= before.push(piece).update(before.len() as int, piece.push(c)));
        }
        i = i + 1;
    }
    assert(v@.take(v@.len() as int) =~= v@);
    let ghost before = rows(r@);
    let ghost piece = cur@;
    r.push(cur);
    assert(rows(r@) =~= before.push(piece));
    r
}

fn copy_prefix(v: &Vec<char>, len: usize) -> (r: Vec<char>)
    requires
        len <= v@.len(),
    ensures
        r@ == v@.take(len as int),
{
    let mut r: Vec<char> = Vec::new();
    let mut i: usize = 0;
    while i < len
        invariant
            i <= len <= v@.len(),
            r@ == v@.take(i as int),
        decreases len - i,
    {
        r.push(v[i]);
        assert(r@ =~= v@.take(i + 1));
        i = i + 1;
    }
    r
}

/// The lines of `text`, as `str::lines` yields them.
fn lines_of(text: &str) -> (r: Vec<Vec<char>>)
    ensures
        rows(r@) == text_lines(text@),
{
    let chars = chars_of(text);
    let p = split_pieces(&chars, true);
    let ghost ps = rows(p@);
    proof {
        lemma_pieces_nonempty(text@, breaks(true));
    }
    let n = p.len();
    assert(ps[n - 1] == p@[n - 1]@);
    let keep: usize = if p[n - 1].len() == 0 { n - 1 } else { n };
    let mut r: Vec<Vec<char>> = Vec::new();
    let mut i: usize = 0;
    while i < keep
        invariant
            i <= keep <= n,
            n == p@.len(),
            ps == rows(p@),
            ps == pieces(text@, breaks(true)),
            keep == if ps.last().len() == 0 { n - 1 } else { n as int },
            rows(r@) == text_lines(text@).take(i as int),
        decreases keep - i,
    {
        let line = &p[i];
        let len = line.len();
        let stripped: usize = if i < n - 1 && len > 0 && line[len - 1] == '\r' { len - 1 } else { len };
        let copy = copy_prefix(line, stripped);
        let ghost before = rows(r@);
        proof {
            assert(ps[i as int] == line@);
            if i < n - 1 && len > 0 && line@[len - 1] == '\r' {
                assert(line@.take(stripped as int) =~= line@.drop_last());
            } else {
                assert(line@.take(stripped as int) =~= line@);
            }
        }
        proof {
            let tl = text_lines(text@);
            let kept = if ps.last().len() == 0 { ps.drop_last() } else { ps };
            assert(kept[i as int] == ps[i as int]);
            assert(tl.len() == keep);
            assert(tl[i as int] == if i < n - 1 { strip_cr(ps[i as int]) } else { ps[i as int] });
            assert(copy@ == tl[i as int]);
        }
        let ghost copied = copy@;
        r.push(copy);
        assert(rows(r@) =~= before.push(copied));
        assert(text_lines(text@).take(i + 1) =~= text_lines(text@).take(i as int).push(text_lines(text@)[i as int]));
        assert(rows(r@) =~= text_lines(text@).take(i + 1));
        i = i + 1;
    }
    assert(text_lines(text@).take(i as int) =~= text_lines(text@));
    r
}

/// The lower-case word tokens of lines `start_line..=end_line` (counted
/// from one) of `text`, each once and in increasing order: the pieces of
/// those lines between characters that are neither alphanumeric nor `_`,
/// kept when of more than one character.
pub fn word_tokens(text: &str, start_line: u32, end_line: u32) -> (r: Vec<String>)
    ensures
        strictly_sorted(views(r@)),
        views(r@) == sorted_listing(body_tokens(text@, start_line, end_line).to_set()),
{
    let lines = lines_of(text);
    let ghost ls = rows(lines@);
    let from: usize = if start_line > 0 { (start_line - 1) as usize } else { 0 };
    let to: usize = if (end_line as usize) < lines.len() { end_line as usize } else { lines.len() };
    let mut r: Vec<String> = Vec::new();
    let mut i: usize = from;
    if to < from {
        i = to;
    }
    assert(views(r@).to_set() =~= tokens_between(ls, from as int, i as int).to_set());
    while i < to
        invariant
            from <= i || i == to,
            i <= to <= lines@.len(),
            ls == rows(lines@),
            strictly_sorted(views(r@)),
            views(r@).to_set() == tokens_between(ls, from as int, i as int).to_set(),
        decreases to - i,
    {
        let ps = split_pieces(&lines[i], false);
        let ghost line_pieces = rows(ps@);
        assert(ls[i as int] == lines@[i as int]@);
        let mut j: usize = 0;
        assert(line_pieces.take(0) =~= Seq::<Seq<char>>::empty());
        while j < ps.len()
            invariant
                j <= ps@.len(),
                line_pieces == rows(ps@),
                strictly_sorted(views(r@)),
                views(r@).to_set() == tokens_between(ls, from as int, i as int).to_set() + kept_tokens(line_pieces.take(j as int)).to_set(),
            decreases ps@.len() - j,
        {
            let piece = &ps[j];
            proof {
                assert(line_pieces.take(j + 1).drop_last() =~= line_pieces.take(j as int));
                assert(line_pieces.take(j + 1).last() == piece@);
            }
            if piece.len() > 1 {
                let token = to_lower(string_of(piece.as_slice()).as_str());
                let ghost old_set = views(r@).to_set();
                insert_unique(&mut r, token.as_str());
                proof {
                    kept_tokens(line_pieces.take(j as int)).lemma_push_to_set_commute(token@);
                    assert(views(r@).to_set() =~= tokens_between(ls, from as int, i as int).to_set() + kept_tokens(
                        line_pieces.take(j + 1),
                    ).to_set());
                }
            }
            j = j + 1;
        }
        proof {
            assert(line_pieces.take(ps@.len() as int) =~= line_pieces);
            seq_to_set_distributes_over_add(tokens_between(ls, from as int, i as int), kept_tokens(line_pieces));
            assert(tokens_between(ls, from as int, i + 1) == tokens_between(ls, from as int, i as int) + kept_tokens(line_pieces));
        }
        i = i + 1;
    }
    proof {
        assert(body_tokens(text@, start_line, end_line) == tokens_between(ls, from as int, i as int)) by {
            if to < from {
                assert(tokens_between(ls, from as int, to as int) =~= Seq::<Seq<char>>::empty());
            }
        }
        lemma_sorted_listing(views(r@), body_tokens(text@, start_line, end_line).to_set());
    }
    r
}

/// How many tokens two token sets share, each given as a strictly
/// increasing list of token ids, and how many they hold together.
pub open spec fn shared_count(a: Seq<u32>, b: Seq<u32>) -> nat {
    a.to_set().intersect(b.to_set()).len()
}

/// The ids are strictly increasing.
pub open spec fn increasing(a: Seq<u32>) -> bool {
    forall|i: int, j: int| 0 <= i < j < a.len() ==> a[i] < a[j]
}

proof fn lemma_increasing_tail(a: Seq<u32>, i: int)
    requires
        increasing(a),
        0 <= i <= a.len(),
    ensures
        increasing(a.subrange(i, a.len() as int)),
        a.subrange(i, a.len() as int).to_set().len() == a.len() - i,
{
    let t = a.subrange(i, a.len() as int);
    assert forall|x: int, y: int| 0 <= x < y < t.len() implies t[x] < t[y] by {
        assert(t[x] == a[i + x] && t[y] == a[i + y]);
    }
    assert(t.no_duplicates());
    t.unique_seq_to_set();
}

proof fn lemma_shared_step(a: Seq<u32>, b: Seq<u32>, i: int, j: int)
    requires
        increasing(a),
        increasing(b),
        0 <= i < a.len(),
        0 <= j < b.len(),
    ensures
        a[i] < b[j] ==> shared_count(a.subrange(i, a.len() as int), b.subrange(j, b.len() as int)) == shared_count(
            a.subrange(i + 1, a.len() as int),
            b.subrange(j, b.len() as int),
        ),
        b[j] < a[i] ==> shared_count(a.subrange(i, a.len() as int), b.subrange(j, b.len() as int)) == shared_count(
            a.subrange(i, a.len() as int),
            b.subrange(j + 1, b.len() as int),
        ),
        a[i] == b[j] ==> shared_count(a.subrange(i, a.len() as int), b.subrange(j, b.len() as int)) == shared_count(
            a.subrange(i + 1, a.len() as int),
            b.subrange(j + 1, b.len() as int),
        ) + 1,
{
    let sa = a.subrange(i, a.len() as int);
    let sa1 = a.subrange(i + 1, a.len() as int);
    let sb = b.subrange(j, b.len() as int);
    let sb1 = b.subrange(j + 1, b.len() as int);
    assert(sa =~= seq![a[i]] + sa1);
    assert(sb =~= seq![b[j]] + sb1);
    assert(sa.to_set() =~= sa1.to_set().insert(a[i]));
    assert(sb.to_set() =~= sb1.to_set().insert(b[j]));
    assert(!sa1.to_set().contains(a[i])) by {
        if sa1.to_set().contains(a[i]) {
            let k = choose|k: int| 0 <= k < sa1.len() && sa1[k] == a[i];
            assert(a[i + 1 + k] == a[i]);
        }
    }
    assert(!sb1.to_set().contains(b[j])) by {
        if sb1.to_set().contains(b[j]) {
            let k = choose|k: int| 0 <= k < sb1.len() && sb1[k] == b[j];
            assert(b[j + 1 + k] == b[j]);
        }
    }
    if a[i] < b[j] {
        assert(!sb.to_set().contains(a[i])) by {
            if sb.to_set().contains(a[i]) {
                let k = choose|k: int| 0 <= k < sb.len() && sb[k] == a[i];
                assert(b[j + k] == a[i]);
                if k > 0 {
                    assert(b[j] < b[j + k]);
                }
            }
        }
        assert(sa.to_set().intersect(sb.to_set()) =~= sa1.to_set().intersect(sb.to_set()));
    }
    if b[j] < a[i] {
        assert(!sa.to_set().contains(b[j])) by {
            if sa.to_set().contains(b[j]) {
                let k = choose|k: int| 0 <= k < sa.len() && sa[k] == b[j];
                assert(a[i + k] == b[j]);
                if k > 0 {
                    assert(a[i] < a[i + k]);
                }
            }
        }
        assert(sa.to_set().intersect(sb.to_set()) =~= sa.to_set().intersect(sb1.to_set()));
    }
    if a[i] == b[j] {
        let rest = sa1.to_set().intersect(sb1.to_set());
        assert(sa.to_set().intersect(sb.to_set()) =~= rest.insert(a[i]));
        assert(!rest.contains(a[i]));
    }
}

/// How many tokens two strictly increasing token-id lists share, found by
/// one merge-like pass; the union then holds `a.len() + b.len()` less that
/// many.
pub fn shared_tokens(a: &Vec<u32>, b: &Vec<u32>) -> (n: usize)
    requires
        increasing(a@),
        increasing(b@),
    ensures
        n == shared_count(a@, b@),
        n <= a@.len(),
        n <= b@.len(),
{
    let mut i: usize = 0;
    let mut j: usize = 0;
    let mut n: usize = 0;
    assert(a@.subrange(0, a@.len() as int) =~= a@);
    assert(b@.subrange(0, b@.len() as int) =~= b@);
    while i < a.len() && j < b.len()
        invariant
            increasing(a@),
            increasing(b@),
            i <= a@.len(),
            j <= b@.len(),
            n <= i,
            n <= j,
            shared_count(a@, b@) == n + shared_count(a@.subrange(i as int, a@.len() as int), b@.subrange(j as int, b@.len() as int)),
        decreases a@.len() - i + b@.len() - j,
    {
        proof {
            lemma_shared_step(a@, b@, i as int, j as int);
        }
        if a[i] < b[j] {
            i = i + 1;
        } else if b[j] < a[i] {
            j = j + 1;
        } else {
            n = n + 1;
            i = i + 1;
            j = j + 1;
        }
    }
    proof {
        let sa = a@.subrange(i as int, a@.len() as int);
        let sb = b@.subrange(j as int, b@.len() as int);
        if i == a@.len() {
            assert(sa.to_set() =~= Set::<u32>::empty());
        } else {
            assert(sb.to_set() =~= Set::<u32>::empty());
        }
        assert(sa.to_set().intersect(sb.to_set()) =~= Set::<u32>::empty());
        lemma_increasing_tail(a@, 0);
        lemma_increasing_tail(b@, 0);
        vstd::set_lib::lemma_len_intersect(a@.to_set(), b@.to_set());
        vstd::set_lib::lemma_len_intersect(b@.to_set(), a@.to_set());
        assert(a@.to_set().intersect(b@.to_set()) =~= b@.to_set().intersect(a@.to_set()));
    }
    n
}


/// Lines `start_line..=end_line` (counted from one) of `text`, those it has.
pub open spec fn body_lines(text: Seq<char>, start_line: u32, end_line: u32) -> Seq<Seq<char>> {
    let lines = text_lines(text);
    let from: int = if start_line > 0 { start_line - 1 } else { 0 };
    let to: int = if end_line < lines.len() { end_line as int } else { lines.len() as int };
    if to <= from {
        Seq::empty()
    } else {
        lines.subrange(from, to)
    }
}

/// The lines joined with `\n` between them.
pub open spec fn join_newlines(ls: Seq<Seq<char>>) -> Seq<char>
    decreases ls.len(),
{
    if ls.len() == 0 {
        Seq::empty()
    } else if ls.len() == 1 {
        ls[0]
    } else {
        join_newlines(ls.drop_last()) + seq!['\n'] + ls.last()
    }
}

/// The lower-case hexadecimal digit of a value below 16.
pub open spec fn hex_digit(v: u8) -> char {
    if v < 10 {
        ((v + 48) as u8) as char
    } else {
        ((v + 87) as u8) as char
    }
}

/// The bytes in lower-case hexadecimal, two digits each, high digit first.
pub open spec fn lower_hex(bytes: Seq<u8>) -> Seq<char>
    decreases bytes.len(),
{
    if bytes.len() == 0 {
        Seq::empty()
    } else {
        lower_hex(bytes.drop_last()) + seq![hex_digit(bytes.last() / 16), hex_digit(bytes.last() % 16)]
    }
}

fn hex_char(v: u8) -> (c: char)
    requires
        v < 16,
    ensures
        c == hex_digit(v),
{
    if v < 10 {
        (v + 48) as char
    } else {
        (v + 87) as char
    }
}

/// The content hash of a function body: BLAKE3 over lines
/// `start_line..=end_line` (counted from one) of `text` joined with `\n`,
/// in lower-case hexadecimal.
pub fn body_content_hash(text: &str, start_line: u32, end_line: u32) -> (r: String)
    ensures
        r@ == lower_hex(crate::fragment::blake3_digest(join_newlines(body_lines(text@, start_line, end_line)))),
{
    let lines = lines_of(text);
    let ghost ls = rows(lines@);
    let from: usize = if start_line > 0 { (start_line - 1) as usize } else { 0 };
    let to: usize = if (end_line as usize) < lines.len() { end_line as usize } else { lines.len() };
    let ghost body = body_lines(text@, start_line, end_line);
    let mut joined: Vec<char> = Vec::new();
    let mut i: usize = from;
    proof {
        if to > from {
            assert(body.subrange(0, 0) =~= Seq::<Seq<char>>::empty());
        }
    }
    while i < to
        invariant
            ls == text_lines(text@),
            ls == rows(lines@),
            ls.len() == lines@.len(),
            from <= i,
            i <= to || to <= from,
            to <= ls.len(),
            to > from ==> body == ls.subrange(from as int, to as int),
            i < to ==> i >= from,
            to > from ==> joined@ == join_newlines(ls.subrange(from as int, i as int)),
            to <= from ==> joined@.len() == 0,
        decreases to - i,
    {
        let ghost before = joined@;
        if i > from {
            joined.push('\n');
        }
        let line = &lines[i];
        let mut k: usize = 0;
        let ghost mid = joined@;
        while k < line.len()
            invariant
                k <= line@.len(),
                joined@ == mid + line@.take(k as int),
            decreases line@.len() - k,
        {
            joined.push(line[k]);
            assert(line@.take(k + 1) =~= line@.take(k as int).push(line@[k as int]));
            k = k + 1;
        }
        proof {
            assert(line@.take(k as int) =~= line@);
            assert(ls[i as int] == lines@[i as int]@);
            let sub = ls.subrange(from as int, i + 1);
            assert(sub.drop_last() =~= ls.subrange(from as int, i as int));
            assert(sub.last() == ls[i as int]);
            if i > from {
                assert(joined@ =~= join_newlines(sub.drop_last()) + seq!['\n'] + sub.last());
            } else {
                assert(sub.len() == 1);
                assert(joined@ =~= sub[0]);
            }
        }
        i = i + 1;
    }
    proof {
        if to > from {
            assert(joined@ == join_newlines(body));
        } else {
            assert(body.len() == 0);
            assert(joined@ =~= join_newlines(body));
        }
    }
    let text_of_body = crate::text::string_of(joined.as_slice());
    let digest = crate::fragment::blake3_of_text(text_of_body.as_str());
    hex_string(&digest)
}

/// The bytes in lower-case hexadecimal.
pub(crate) fn hex_string(digest: &Vec<u8>) -> (r: String)
    ensures
        r@ == lower_hex(digest@),
{
    let mut out: Vec<char> = Vec::new();
    let mut b: usize = 0;
    while b < digest.len()
        invariant
            b <= digest@.len(),
            out@ == lower_hex(digest@.take(b as int)),
        decreases digest@.len() - b,
    {
        let byte = digest[b];
        out.push(hex_char(byte / 16));
        out.push(hex_char(byte % 16));
        assert(digest@.take(b + 1).drop_last() =~= digest@.take(b as int));
        b = b + 1;
    }
    assert(digest@.take(b as int) =~= digest@);
    crate::text::string_of(out.as_slice())
}

} // verus!

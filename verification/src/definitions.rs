//! The names that type-level declarations give themselves, read from the
//! declaration's text when the syntax tree only says what kind of node it is.

use vstd::prelude::*;
use crate::clone_tokens::{alphanumeric, pieces, unicode_alphanumeric};
use crate::imports::{nonempty_pieces, split_nonempty, splitter};
use crate::strmap::views;
use crate::text::{chars_of, str_eq, string_between};

verus! {

broadcast use vstd::seq_lib::group_seq_properties;

/// The keyword that introduces a named declaration of syntax node `kind`:
/// `interface`, `type`, or `enum`; other kinds have none.
pub open spec fn definition_keyword(kind: Seq<char>) -> Option<Seq<char>> {
    if kind == "interface_declaration"@ {
        Some("interface"@)
    } else if kind == "type_alias_declaration"@ {
        Some("type"@)
    } else if kind == "enum_declaration"@ {
        Some("enum"@)
    } else {
        None
    }
}

/// The words of `text`: its non-empty pieces between white space.
pub open spec fn words(text: Seq<char>) -> Seq<Seq<char>> {
    nonempty_pieces(pieces(text, splitter(true)))
}

/// The position of the first word equal to `w`, or the number of words.
pub open spec fn first_word(ws: Seq<Seq<char>>, w: Seq<char>) -> int
    decreases ws.len(),
{
    if ws.len() == 0 {
        0
    } else if ws[0] == w {
        0
    } else {
        1 + first_word(ws.drop_first(), w)
    }
}

/// A character an identifier can hold: alphanumeric, `_`, or `$`.
pub open spec fn ident_char(c: char) -> bool {
    unicode_alphanumeric(c) || c == '_' || c == '$'
}

/// The length of the longest prefix of `s` made of identifier characters.
pub open spec fn ident_prefix_len(s: Seq<char>) -> nat
    decreases s.len(),
{
    if s.len() == 0 || !ident_char(s[0]) {
        0
    } else {
        1 + ident_prefix_len(s.drop_first())
    }
}

/// The name a declaration of syntax node `kind` with source `text` gives
/// itself: the identifier that starts the word after the first word equal
/// to the kind's keyword, when there is one and it is not empty.
pub open spec fn definition_name(kind: Seq<char>, text: Seq<char>) -> Option<Seq<char>> {
    match definition_keyword(kind) {
        None => None,
        Some(kw) => {
            let ws = words(text);
            let k = first_word(ws, kw);
            if k + 1 < ws.len() {
                let name = ws[k + 1];
                let end = ident_prefix_len(name);
                if end > 0 {
                    Some(name.take(end as int))
                } else {
                    None
                }
            } else {
                None
            }
        },
    }
}

proof fn lemma_first_word(ws: Seq<Seq<char>>, w: Seq<char>, k: int)
    requires
        0 <= k <= ws.len(),
        forall|i: int| 0 <= i < k ==> #[trigger] ws[i] != w,
        k == ws.len() || ws[k] == w,
    ensures
        first_word(ws, w) == k,
    decreases ws.len(),
{
    if ws.len() > 0 && k > 0 {
        assert forall|i: int| 0 <= i < k - 1 implies #[trigger] ws.drop_first()[i] != w by {
            assert(ws.drop_first()[i] == ws[i + 1]);
        }
        if k < ws.len() {
            assert(ws.drop_first()[k - 1] == ws[k]);
        }
        lemma_first_word(ws.drop_first(), w, k - 1);
    }
}

proof fn lemma_ident_prefix(s: Seq<char>, i: int)
    requires
        0 <= i <= s.len(),
        forall|k: int| 0 <= k < i ==> ident_char(#[trigger] s[k]),
        i == s.len() || !ident_char(s[i]),
    ensures
        ident_prefix_len(s) == i,
    decreases s.len(),
{
    if s.len() > 0 && i > 0 {
        assert forall|k: int| 0 <= k < i - 1 implies ident_char(#[trigger] s.drop_first()[k]) by {
            assert(s.drop_first()[k] == s[k + 1]);
        }
        if i < s.len() {
            assert(s.drop_first()[i - 1] == s[i]);
        }
        lemma_ident_prefix(s.drop_first(), i - 1);
    }
}

fn keyword_for(kind: &str) -> (k: Option<&'static str>)
    ensures
        match k {
            Some(w) => definition_keyword(kind@) == Some(w@),
            None => definition_keyword(kind@) is None,
        },
{
    if str_eq(kind, "interface_declaration") {
        Some("interface")
    } else if str_eq(kind, "type_alias_declaration") {
        Some("type")
    } else if str_eq(kind, "enum_declaration") {
        Some("enum")
    } else {
        None
    }
}

/// The name that a TypeScript interface, type alias, or enum declaration
/// gives itself: exactly [`definition_name`].
pub fn named_definition_symbol(kind: &str, text: &str) -> (r: Option<String>)
    ensures
        match r {
            Some(name) => definition_name(kind@, text@) == Some(name@),
            None => definition_name(kind@, text@) is None,
        },
{
    let keyword = match keyword_for(kind) {
        Some(k) => k,
        None => {
            return None;
        },
    };
    let ws = split_nonempty(text, true);
    let ghost wv = views(ws@);
    let mut k: usize = 0;
    while k < ws.len() && !str_eq(ws[k].as_str(), keyword)
        invariant
            k <= ws@.len(),
            wv == views(ws@),
            forall|i: int| 0 <= i < k ==> #[trigger] wv[i] != keyword@,
        decreases ws@.len() - k,
    {
        k = k + 1;
    }
    proof {
        lemma_first_word(wv, keyword@, k as int);
    }
    if k >= ws.len() || k + 1 >= ws.len() {
        return None;
    }
    let name = chars_of(ws[k + 1].as_str());
    let mut end: usize = 0;
    while end < name.len() && (alphanumeric(name[end]) || name[end] == '_' || name[end] == '$')
        invariant
            end <= name@.len(),
            forall|i: int| 0 <= i < end ==> ident_char(#[trigger] name@[i]),
        decreases name@.len() - end,
    {
        end = end + 1;
    }
    proof {
        lemma_ident_prefix(name@, end as int);
    }
    if end > 0 {
        Some(string_between(name.as_slice(), 0, end))
    } else {
        None
    }
}

} // verus!

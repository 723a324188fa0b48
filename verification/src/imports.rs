//! Python import targets: the module a relative import names, the
//! distribution name a requirement line starts with, and the path a module
//! under a source root is imported by.

use vstd::prelude::*;
use crate::builder::{join_segments, join_with, path_segments, strip_suffix, strip_suffix_of};
use crate::communities::split_slash;
use crate::clone_tokens::{pieces, unicode_alphanumeric, unicode_whitespace, whitespace};
use crate::strmap::views;
use crate::text::{cat, cat3, chars_of, owned, seq_ends_with, str_ends_with, string_between, string_of};

verus! {

broadcast use vstd::seq_lib::group_seq_properties;

/// The characters that separate segments: white space, or the dot of a
/// module path.
pub open spec fn splitter(on_space: bool) -> spec_fn(char) -> bool {
    |c: char| if on_space { unicode_whitespace(c) } else { c == '.' }
}

/// The non-empty pieces, in order.
pub open spec fn nonempty_pieces(p: Seq<Seq<char>>) -> Seq<Seq<char>>
    decreases p.len(),
{
    if p.len() == 0 {
        Seq::empty()
    } else if p.last().len() > 0 {
        nonempty_pieces(p.drop_last()).push(p.last())
    } else {
        nonempty_pieces(p.drop_last())
    }
}

/// `s` without its last `k` elements (empty when it has no more).
pub open spec fn drop_back(s: Seq<Seq<char>>, k: int) -> Seq<Seq<char>> {
    if k <= 0 {
        s
    } else if k >= s.len() {
        Seq::empty()
    } else {
        s.take(s.len() - k)
    }
}

/// The module an import names from `importer`, the importing module: absolute imports name
/// `module` itself; a relative import of `level` dots climbs from the
/// importing module's package (the module itself for a package `__init__`)
/// `level - 1` packages up, then appends `module`. `None` when nothing is
/// left to name.
pub open spec fn relative_target(importer: Seq<char>, is_package_init: bool, level: u32, module: Option<Seq<char>>) -> Option<Seq<char>> {
    if level == 0 {
        module
    } else {
        let segs = nonempty_pieces(pieces(importer, splitter(false)));
        let own = if !is_package_init && segs.len() > 0 { segs.drop_last() } else { segs };
        let joined = join_with(drop_back(own, level - 1), "."@);
        let target = match module {
            Some(m) => if joined.len() > 0 { joined + "."@ + m } else { m },
            None => joined,
        };
        if target.len() == 0 {
            None
        } else {
            Some(target)
        }
    }
}

proof fn lemma_pieces_nonempty(s: Seq<char>, brk: spec_fn(char) -> bool)
    ensures
        pieces(s, brk).len() >= 1,
    decreases s.len(),
{
    if s.len() > 0 {
        lemma_pieces_nonempty(s.drop_last(), brk);
    }
}

/// The non-empty segments of `s` between white space, or between dots.
pub(crate) fn split_nonempty(s: &str, on_space: bool) -> (r: Vec<String>)
    ensures
        views(r@) == nonempty_pieces(pieces(s@, splitter(on_space))),
{
    let v = chars_of(s);
    let mut r: Vec<String> = Vec::new();
    let mut cur: Vec<char> = Vec::new();
    let mut i: usize = 0;
    assert(v@.take(0) =~= Seq::<char>::empty());
    while i < v.len()
        invariant
            i <= v@.len(),
            v@ == s@,
            pieces(v@.take(i as int), splitter(on_space)).len() >= 1,
            pieces(v@.take(i as int), splitter(on_space)).last() == cur@,
            views(r@) == nonempty_pieces(pieces(v@.take(i as int), splitter(on_space)).drop_last()),
        decreases v@.len() - i,
    {
        let c = v[i];
        let ghost p = pieces(v@.take(i as int), splitter(on_space));
        assert(v@.take(i + 1).drop_last() =~= v@.take(i as int));
        assert(v@.take(i + 1).last() == c);
        let splits = if on_space { whitespace(c) } else { c == '.' };
        if splits {
            let ghost before = views(r@);
            if cur.len() > 0 {
                r.push(string_of(cur.as_slice()));
            }
            assert(p.push(Seq::<char>::empty()).drop_last() =~= p);
            assert(p =~= p.drop_last().push(p.last()));
            assert(views(r@) =~= nonempty_pieces(p)) by {
                if cur@.len() > 0 {
                    assert(views(r@) =~= before.push(cur@));
                }
            }
            cur = Vec::new();
        } else {
            cur.push(c);
            assert(p.update(p.len() - 1, p.last().push(c)).drop_last() =~= p.drop_last());
        }
        i = i + 1;
    }
    assert(v@.take(v@.len() as int) =~= v@);
    let ghost p = pieces(v@, splitter(on_space));
    let ghost before = views(r@);
    if cur.len() > 0 {
        r.push(string_of(cur.as_slice()));
        assert(views(r@) =~= before.push(cur@));
    }
    assert(p =~= p.drop_last().push(p.last()));
    r
}

/// The characters of an optional text.
pub open spec fn opt_view(o: Option<&str>) -> Option<Seq<char>> {
    match o {
        Some(m) => Some(m@),
        None => None,
    }
}

/// The module a Python import statement names, as the importing module
/// `importer` resolves it: exactly [`relative_target`].
pub fn python_relative_target(importer: &str, is_package_init: bool, level: u32, module: Option<&str>) -> (r: Option<String>)
    ensures
        match r {
            Some(t) => relative_target(importer@, is_package_init, level, opt_view(module)) == Some(t@),
            None => relative_target(importer@, is_package_init, level, opt_view(module)) is None,
        },
{
    if level == 0 {
        return match module {
            Some(m) => Some(owned(m)),
            None => None,
        };
    }
    let mut segments = split_nonempty(importer, false);
    let ghost segs = views(segments@);
    proof {
        lemma_nonempty_pieces(pieces(importer@, splitter(false)));
    }
    if !is_package_init && segments.len() > 0 {
        segments.pop();
        assert(views(segments@) =~= segs.drop_last());
    }
    let ghost own = views(segments@);
    let mut k: u32 = 1;
    while k < level
        invariant
            1 <= k <= level,
            views(segments@) == drop_back(own, k - 1),
            forall|i: int| 0 <= i < views(segments@).len() ==> (#[trigger] views(segments@)[i]).len() > 0,
        decreases level - k,
    {
        let ghost before = views(segments@);
        if segments.len() > 0 {
            segments.pop();
            assert(views(segments@) =~= before.drop_last());
        }
        assert(views(segments@) =~= drop_back(own, k as int));
        k = k + 1;
    }
    let joined = join_segments(&segments, ".");
    proof {
        reveal_strlit(".");
        lemma_join_empty(views(segments@));
    }
    let target = match module {
        Some(m) => if joined.as_str().unicode_len() > 0 { cat3(joined.as_str(), ".", m) } else { owned(m) },
        None => joined,
    };
    if target.as_str().unicode_len() == 0 {
        None
    } else {
        Some(target)
    }
}

proof fn lemma_nonempty_pieces(p: Seq<Seq<char>>)
    ensures
        forall|i: int| 0 <= i < nonempty_pieces(p).len() ==> (#[trigger] nonempty_pieces(p)[i]).len() > 0,
    decreases p.len(),
{
    if p.len() > 0 {
        lemma_nonempty_pieces(p.drop_last());
        let prior = nonempty_pieces(p.drop_last());
        assert forall|i: int| 0 <= i < nonempty_pieces(p).len() implies (#[trigger] nonempty_pieces(p)[i]).len() > 0 by {
            if i < prior.len() {
                assert(nonempty_pieces(p)[i] == prior[i]);
            }
        }
    }
}

proof fn lemma_join_empty(segs: Seq<Seq<char>>)
    requires
        forall|i: int| 0 <= i < segs.len() ==> (#[trigger] segs[i]).len() > 0,
    ensures
        (join_with(segs, "."@).len() == 0) <==> (segs.len() == 0),
    decreases segs.len(),
{
    if segs.len() > 1 {
        lemma_join_empty(segs.drop_last());
    }
}

/// A character a distribution name can hold: alphanumeric, `-`, `_`, or `.`.
pub open spec fn name_char(c: char) -> bool {
    unicode_alphanumeric(c) || c == '-' || c == '_' || c == '.'
}

/// The length of the longest prefix of `s` made of name characters.
pub open spec fn name_prefix_len(s: Seq<char>) -> nat
    decreases s.len(),
{
    if s.len() == 0 || !name_char(s[0]) {
        0
    } else {
        1 + name_prefix_len(s.drop_first())
    }
}

proof fn lemma_name_prefix(s: Seq<char>, i: int)
    requires
        0 <= i <= s.len(),
        forall|k: int| 0 <= k < i ==> name_char(#[trigger] s[k]),
        i == s.len() || !name_char(s[i]),
    ensures
        name_prefix_len(s) == i,
    decreases s.len(),
{
    if s.len() > 0 && i > 0 {
        assert forall|k: int| 0 <= k < i - 1 implies name_char(#[trigger] s.drop_first()[k]) by {
            assert(s.drop_first()[k] == s[k + 1]);
        }
        if i < s.len() {
            assert(s.drop_first()[i - 1] == s[i]);
        }
        lemma_name_prefix(s.drop_first(), i - 1);
    }
}

/// `char::is_alphanumeric`, through the same named answer as word tokens use.
fn name_char_exec(c: char) -> (b: bool)
    ensures
        b == name_char(c),
{
    crate::clone_tokens::alphanumeric(c) || c == '-' || c == '_' || c == '.'
}

/// The distribution name a requirement line starts with: its longest prefix
/// of alphanumeric characters, `-`, `_`, and `.`.
pub fn python_dependency_name(requirement: &str) -> (r: String)
    ensures
        r@ == requirement@.take(name_prefix_len(requirement@) as int),
{
    let v = chars_of(requirement);
    let mut end: usize = 0;
    while end < v.len() && name_char_exec(v[end])
        invariant
            end <= v@.len(),
            v@ == requirement@,
            forall|k: int| 0 <= k < end ==> name_char(#[trigger] v@[k]),
        decreases v@.len() - end,
    {
        end = end + 1;
    }
    proof {
        lemma_name_prefix(v@, end as int);
    }
    string_between(v.as_slice(), 0, end)
}


/// The segments up to `end` name a package directory: the artifacts hold
/// its `__init__.py`.
pub open spec fn package_dir(paths: Seq<Seq<char>>, segs: Seq<Seq<char>>, end: int) -> bool {
    paths.contains(join_with(segs.take(end + 1), "/"@) + "/__init__.py"@)
}

/// The first of the first `k` segment prefixes that names a package directory.
pub open spec fn first_package_dir(paths: Seq<Seq<char>>, segs: Seq<Seq<char>>, k: int) -> Option<int>
    decreases k,
{
    if k <= 0 {
        None
    } else {
        match first_package_dir(paths, segs, k - 1) {
            Some(e) => Some(e),
            None => if package_dir(paths, segs, k - 1) {
                Some(k - 1)
            } else {
                None
            },
        }
    }
}

/// The import path of a Python file under a source root: its directory
/// chain (without the file name of a package's `__init__.py`) from the
/// first directory that is a package, joined by `.`, when that directory is
/// not the chain's first segment.
pub open spec fn python_package_module(paths: Seq<Seq<char>>, path: Seq<char>) -> Option<Seq<char>> {
    if !seq_ends_with(path, ".py"@) {
        None
    } else {
        let segs = split_slash(strip_suffix(strip_suffix(path, ".py"@), "/__init__"@));
        match first_package_dir(paths, segs, segs.len() as int) {
            Some(start) => if start > 0 {
                Some(join_with(segs.skip(start), "."@))
            } else {
                None
            },
            None => None,
        }
    }
}

impl crate::builder::BuilderState {
    /// The package-relative import path of the Python file at
    /// `artifact_path`, as [`python_package_module`] says.
    pub fn python_package_relative_module(&self, artifact_path: &str) -> (r: Option<String>)
        requires
            self.wf(),
        ensures
            match r {
                Some(m) => python_package_module(crate::strmap::views(self.artifact_paths@), artifact_path@) == Some(m@),
                None => python_package_module(crate::strmap::views(self.artifact_paths@), artifact_path@).is_none(),
            },
    {
        if !str_ends_with(artifact_path, ".py") {
            return None;
        }
        let trimmed = strip_suffix_of(artifact_path, ".py");
        let chain = strip_suffix_of(trimmed.as_str(), "/__init__");
        let segs = path_segments(chain.as_str());
        let ghost paths = crate::strmap::views(self.artifact_paths@);
        let ghost sv = crate::strmap::views(segs@);
        let mut end: usize = 0;
        let mut dir = String::new();
        let mut start: Option<usize> = None;
        while end < segs.len() && start.is_none()
            invariant
                end <= sv.len(),
                sv == crate::strmap::views(segs@),
                paths == crate::strmap::views(self.artifact_paths@),
                crate::strmap::strictly_sorted(paths),
                end > 0 ==> dir@ == join_with(sv.take(end as int), "/"@),
                match start {
                    Some(e) => first_package_dir(paths, sv, sv.len() as int) == Some(e as int),
                    None => first_package_dir(paths, sv, end as int).is_none(),
                },
            decreases sv.len() - end,
        {
            if end == 0 {
                dir = owned(segs[0].as_str());
            } else {
                dir = cat3(dir.as_str(), "/", segs[end].as_str());
            }
            proof {
                assert(sv.take(end + 1).drop_last() =~= sv.take(end as int));
                assert(sv.take(end + 1).last() == sv[end as int]);
                if end == 0 {
                    assert(sv.take(1) =~= seq![sv[0]]);
                }
            }
            let candidate = cat(dir.as_str(), "/__init__.py");
            let (found, _at) = crate::strmap::locate_str(&self.artifact_paths, candidate.as_str());
            if found {
                proof {
                    assert(package_dir(paths, sv, end as int));
                    lemma_first_package_dir_stays(paths, sv, end + 1, sv.len() as int);
                }
                start = Some(end);
            }
            end = end + 1;
        }
        match start {
            Some(e) => {
                proof {
                    lemma_first_package_dir_bound(paths, sv, sv.len() as int);
                }
                if e > 0 {
                    let mut rest: Vec<String> = Vec::new();
                    assert(crate::strmap::views(rest@) =~= sv.subrange(e as int, e as int));
                    let mut k: usize = e;
                    while k < segs.len()
                        invariant
                            e <= k <= sv.len(),
                            sv == crate::strmap::views(segs@),
                            crate::strmap::views(rest@) == sv.subrange(e as int, k as int),
                        decreases sv.len() - k,
                    {
                        let ghost before = crate::strmap::views(rest@);
                        rest.push(owned(segs[k].as_str()));
                        assert(crate::strmap::views(rest@) =~= before.push(sv[k as int]));
                        assert(crate::strmap::views(rest@) =~= sv.subrange(e as int, k + 1));
                        k = k + 1;
                    }
                    assert(sv.subrange(e as int, sv.len() as int) =~= sv.skip(e as int));
                    Some(join_segments(&rest, "."))
                } else {
                    None
                }
            },
            None => None,
        }
    }
}

/// The first package directory among the first `k` prefixes is one of them.
proof fn lemma_first_package_dir_bound(paths: Seq<Seq<char>>, segs: Seq<Seq<char>>, k: int)
    ensures
        first_package_dir(paths, segs, k) matches Some(e) ==> 0 <= e < k,
    decreases k,
{
    if k > 0 {
        lemma_first_package_dir_bound(paths, segs, k - 1);
    }
}

/// Once found among the first `k` prefixes, the first package directory stays the same.
proof fn lemma_first_package_dir_stays(paths: Seq<Seq<char>>, segs: Seq<Seq<char>>, k: int, m: int)
    requires
        0 <= k <= m,
        first_package_dir(paths, segs, k).is_some(),
    ensures
        first_package_dir(paths, segs, m) == first_package_dir(paths, segs, k),
    decreases m - k,
{
    if k < m {
        lemma_first_package_dir_stays(paths, segs, k, m - 1);
    }
}

} // verus!

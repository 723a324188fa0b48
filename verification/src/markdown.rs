//! Markdown documents as graph facts: a documentation node per heading,
//! references to the repository files that local links and path mentions
//! name, and a command node per shell command in a code block.

use vstd::prelude::*;
use crate::builder::{command_origin, documentation_shape, node_keys, node_under, Artifact, BuilderState};
use crate::clone_tokens::{unicode_whitespace, whitespace};
use crate::infra::{
    command_id, keeps_nodes, lemma_keeps_step, lemma_named_other, lemma_named_step, named_by_id, new_nodes_named, observed,
    recorded_as, same_frame, PlannedRelation,
};
use crate::model::{Confidence, EvidenceRef, GraphNodeId, RelationKind};
use crate::strmap::views;
use crate::text::{cat, chars_of, decimal, decimal_string, owned, string_between, trim_start_all, trim_start_matching};

verus! {

broadcast use vstd::seq_lib::group_seq_properties;

/// A heading: its text and where it stands.
pub struct MarkdownHeading {
    pub text: String,
    pub evidence: EvidenceRef,
}

/// A link: its target as written, whether it points into the repository,
/// and `relative`, the repository path that the target's path part names
/// when read against the document's directory.
pub struct MarkdownLink {
    pub target: String,
    pub local: bool,
    pub relative: String,
    pub evidence: EvidenceRef,
}

/// A file path mentioned in prose, with `relative` as for a link.
pub struct MarkdownPathRef {
    pub path: String,
    pub relative: String,
    pub evidence: EvidenceRef,
}

/// A shell command in a code block.
pub struct MarkdownCommand {
    pub command: String,
    pub evidence: EvidenceRef,
}

/// What a Markdown analyzer found in one document.
pub struct MarkdownAnalysis {
    pub headings: Vec<MarkdownHeading>,
    pub links: Vec<MarkdownLink>,
    pub source_paths: Vec<MarkdownPathRef>,
    pub commands: Vec<MarkdownCommand>,
}

/// One finding of a document, in the order the builder takes them:
/// headings, links, path mentions, commands.
pub enum MarkdownItem {
    Heading(MarkdownHeading),
    Link(MarkdownLink),
    PathRef(MarkdownPathRef),
    Command(MarkdownCommand),
}

/// The findings of a document in the builder's order.
#[verifier::opaque]
pub open spec fn markdown_items(a: MarkdownAnalysis) -> Seq<MarkdownItem> {
    a.headings@.map_values(|h: MarkdownHeading| MarkdownItem::Heading(h)) + a.links@.map_values(|l: MarkdownLink| MarkdownItem::Link(l))
        + a.source_paths@.map_values(|p: MarkdownPathRef| MarkdownItem::PathRef(p)) + a.commands@.map_values(
        |c: MarkdownCommand| MarkdownItem::Command(c),
    )
}

/// The key of a finding: the line it starts on, or 0 without a span, in decimal.
pub open spec fn span_key(e: EvidenceRef) -> Seq<char> {
    decimal(
        match e.span {
            Some(sp) => sp.start_line as nat,
            None => 0,
        },
    )
}

/// The id of the documentation node `key` of the document at `path`.
pub open spec fn doc_id(path: Seq<char>, key: Seq<char>) -> Seq<char> {
    "doc:"@ + path + "#"@ + key
}

/// Where a fragment (`#`) or query (`?`) starts in `s`, or its length.
pub open spec fn fragment_start(s: Seq<char>) -> int
    decreases s.len(),
{
    if s.len() == 0 {
        0
    } else if fragment_start(s.drop_last()) < s.len() - 1 {
        fragment_start(s.drop_last())
    } else if s.last() == '#' || s.last() == '?' {
        s.len() - 1
    } else {
        s.len() as int
    }
}

/// `s` without leading white space.
pub open spec fn trim_front(s: Seq<char>) -> Seq<char>
    decreases s.len(),
{
    if s.len() > 0 && unicode_whitespace(s[0]) {
        trim_front(s.drop_first())
    } else {
        s
    }
}

/// `s` without trailing white space.
pub open spec fn trim_back(s: Seq<char>) -> Seq<char>
    decreases s.len(),
{
    if s.len() > 0 && unicode_whitespace(s.last()) {
        trim_back(s.drop_last())
    } else {
        s
    }
}

/// The path part of a link target: up to its fragment or query, without
/// surrounding white space.
pub open spec fn link_path(target: Seq<char>) -> Seq<char> {
    trim_back(trim_front(target.take(fragment_start(target))))
}

/// The artifact node a link or path mention names, if any: the path part
/// read from the repository root when it starts with `/`, else `relative`;
/// failing that, the path part itself with any leading `./` removed.
pub open spec fn doc_target(paths: Seq<Seq<char>>, target: Seq<char>, relative: Seq<char>) -> Option<Seq<char>> {
    let p = link_path(target);
    if p.len() == 0 {
        None
    } else {
        let normalized = if p[0] == '/' { trim_start_all(p, "/"@) } else { relative };
        if paths.contains(normalized) {
            Some("artifact:"@ + normalized)
        } else if paths.contains(trim_start_all(p, "./"@)) {
            Some("artifact:"@ + trim_start_all(p, "./"@))
        } else {
            None
        }
    }
}

/// The relation one finding gives the document's node `node`: a heading
/// contains its section, a local link or path mention that names an artifact
/// references it, and a command is run.
pub open spec fn item_plan(node: Seq<char>, path: Seq<char>, paths: Seq<Seq<char>>, it: MarkdownItem) -> Seq<PlannedRelation> {
    match it {
        MarkdownItem::Heading(h) => seq![observed(node, doc_id(path, span_key(h.evidence)), RelationKind::Contains, h.evidence)],
        MarkdownItem::Link(l) => if l.local {
            match doc_target(paths, l.target@, l.relative@) {
                Some(t) => seq![observed(node, t, RelationKind::References, l.evidence)],
                None => Seq::empty(),
            }
        } else {
            Seq::empty()
        },
        MarkdownItem::PathRef(p) => match doc_target(paths, p.path@, p.relative@) {
            Some(t) => seq![observed(node, t, RelationKind::References, p.evidence)],
            None => Seq::empty(),
        },
        MarkdownItem::Command(c) => seq![observed(node, command_id(path, span_key(c.evidence)), RelationKind::RunsCommand, c.evidence)],
    }
}

/// The relations the findings give, in order.
pub open spec fn items_plan(node: Seq<char>, path: Seq<char>, paths: Seq<Seq<char>>, items: Seq<MarkdownItem>) -> Seq<PlannedRelation>
    decreases items.len(),
{
    if items.len() == 0 {
        Seq::empty()
    } else {
        items_plan(node, path, paths, items.drop_last()) + item_plan(node, path, paths, items.last())
    }
}

/// The relations a document gives.
pub open spec fn markdown_plan(node: Seq<char>, path: Seq<char>, paths: Seq<Seq<char>>, a: MarkdownAnalysis) -> Seq<PlannedRelation> {
    items_plan(node, path, paths, markdown_items(a))
}

/// The node a finding makes, if it makes one: a heading its section, a command its command.
pub open spec fn item_node(path: Seq<char>, it: MarkdownItem) -> Option<Seq<char>> {
    match it {
        MarkdownItem::Heading(h) => Some(doc_id(path, span_key(h.evidence))),
        MarkdownItem::Command(c) => Some(command_id(path, span_key(c.evidence))),
        _ => None,
    }
}

/// The nodes the findings make.
pub open spec fn items_nodes(path: Seq<char>, items: Seq<MarkdownItem>) -> Set<Seq<char>>
    decreases items.len(),
{
    if items.len() == 0 {
        Set::empty()
    } else {
        let prior = items_nodes(path, items.drop_last());
        match item_node(path, items.last()) {
            Some(x) => prior.insert(x),
            None => prior,
        }
    }
}

/// The nodes a document makes.
pub open spec fn markdown_nodes(path: Seq<char>, a: MarkdownAnalysis) -> Set<Seq<char>> {
    items_nodes(path, markdown_items(a))
}

/// The `i`th finding makes its node: no node had its id before, and no
/// earlier finding makes that id.
pub open spec fn fresh_item(before: Seq<crate::model::GraphNode>, path: Seq<char>, items: Seq<MarkdownItem>, i: int) -> bool {
    &&& item_node(path, items[i]) matches Some(x) && !node_keys(before).contains(x)
    &&& forall|j: int| 0 <= j < i ==> #[trigger] item_node(path, items[j]) != item_node(path, items[i])
}

/// The node under a finding's id is what it says: the section with the
/// heading's text, or the command with its text, its provenance read from
/// the artifact's category and the evidence path.
pub open spec fn one_made(nodes: Seq<crate::model::GraphNode>, category: crate::model::ArtifactCategory, path: Seq<char>, it: MarkdownItem) -> bool {
    match it {
        MarkdownItem::Heading(h) => node_under(nodes, doc_id(path, span_key(h.evidence))) matches Some(n) && documentation_shape(
            n,
            h.text@,
            h.evidence,
        ),
        MarkdownItem::Command(c) => node_under(nodes, command_id(path, span_key(c.evidence))) matches Some(n)
            && crate::builder::command_shape(n, c.command@, command_origin(category, c.evidence.path@), c.evidence),
        _ => true,
    }
}

/// The node under the `i`th finding's id is what it says ([`one_made`]).
pub open spec fn item_made(
    nodes: Seq<crate::model::GraphNode>,
    category: crate::model::ArtifactCategory,
    path: Seq<char>,
    items: Seq<MarkdownItem>,
    i: int,
) -> bool {
    one_made(nodes, category, path, items[i])
}

/// The ids a finding makes, as a set.
pub open spec fn node_set(path: Seq<char>, it: MarkdownItem) -> Set<Seq<char>> {
    match item_node(path, it) {
        Some(x) => set![x],
        None => Set::empty(),
    }
}

proof fn lemma_items_plan_grows(node: Seq<char>, path: Seq<char>, paths: Seq<Seq<char>>, items: Seq<MarkdownItem>, i: int, j: int)
    requires
        0 <= i <= j <= items.len(),
    ensures
        items_plan(node, path, paths, items.take(i)).len() <= items_plan(node, path, paths, items.take(j)).len(),
    decreases j - i,
{
    if i < j {
        lemma_items_plan_grows(node, path, paths, items, i, j - 1);
        assert(items.take(j).drop_last() =~= items.take(j - 1));
    }
}

proof fn lemma_items_nodes_from(path: Seq<char>, items: Seq<MarkdownItem>, i: int, t: Seq<char>)
    requires
        0 <= i <= items.len(),
        items_nodes(path, items.take(i)).contains(t),
    ensures
        exists|j: int| 0 <= j < i && item_node(path, #[trigger] items[j]) == Some(t),
    decreases i,
{
    let prior = items.take(i - 1);
    assert(items.take(i).drop_last() =~= prior);
    assert(items.take(i).last() == items[i - 1]);
    if items_nodes(path, prior).contains(t) {
        lemma_items_nodes_from(path, items, i - 1, t);
        let j = choose|j: int| 0 <= j < i - 1 && item_node(path, #[trigger] items[j]) == Some(t);
        assert(0 <= j < i);
    } else {
        assert(item_node(path, items[i - 1]) == Some(t));
    }
}

proof fn lemma_fragment_stays(s: Seq<char>, i: int, k: int)
    requires
        0 <= i < s.len(),
        fragment_start(s.take(i + 1)) == i,
        i < k <= s.len(),
    ensures
        fragment_start(s.take(k)) == i,
    decreases k,
{
    if k > i + 1 {
        lemma_fragment_stays(s, i, k - 1);
        assert(s.take(k).drop_last() =~= s.take(k - 1));
    }
}

proof fn lemma_made_step(
    start: Seq<crate::model::GraphNode>,
    nodes0: Seq<crate::model::GraphNode>,
    nodes1: Seq<crate::model::GraphNode>,
    category: crate::model::ArtifactCategory,
    path: Seq<char>,
    its: Seq<MarkdownItem>,
    i: int,
)
    requires
        0 <= i < its.len(),
        crate::strmap::strictly_sorted(node_keys(nodes0)),
        forall|q: int| 0 <= q < i && fresh_item(start, path, its, q) ==> #[trigger] item_made(nodes0, category, path, its, q),
        keeps_nodes(nodes0, nodes1),
        node_keys(nodes0).to_set() == node_keys(start).to_set() + items_nodes(path, its.take(i)),
        item_node(path, its[i]) matches Some(x) && !node_keys(nodes0).contains(x) ==> one_made(nodes1, category, path, its[i]),
    ensures
        forall|q: int| 0 <= q < i + 1 && fresh_item(start, path, its, q) ==> #[trigger] item_made(nodes1, category, path, its, q),
{
    assert forall|q: int| 0 <= q < i + 1 && fresh_item(start, path, its, q) implies #[trigger] item_made(nodes1, category, path, its, q) by {
        let t = item_node(path, its[q])->0;
        if q < i {
            assert(item_made(nodes0, category, path, its, q));
            match its[q] {
                MarkdownItem::Heading(_) | MarkdownItem::Command(_) => {
                    let c = choose|c: int| 0 <= c < nodes0.len() && crate::model::node_id(#[trigger] nodes0[c]) == t;
                    assert(node_keys(nodes0)[c] == t);
                    assert(node_keys(nodes0).contains(t));
                    assert(node_under(nodes1, t) == node_under(nodes0, t));
                },
                _ => {},
            }
        } else {
            assert(!node_keys(nodes0).contains(t)) by {
                if node_keys(nodes0).contains(t) {
                    assert(node_keys(nodes0).to_set().contains(t));
                    if !node_keys(start).to_set().contains(t) {
                        lemma_items_nodes_from(path, its, i, t);
                        let j = choose|j: int| 0 <= j < i && item_node(path, #[trigger] its[j]) == Some(t);
                        assert(false);
                    } else {
                        assert(node_keys(start).contains(t));
                    }
                }
            }
        }
    }
}

/// Where the fragment or query of `v` starts, or its length.
fn fragment_cut(v: &Vec<char>) -> (i: usize)
    ensures
        i <= v@.len(),
        i == fragment_start(v@),
{
    let n = v.len();
    let mut i: usize = 0;
    while i < n && v[i] != '#' && v[i] != '?'
        invariant
            i <= n,
            n == v@.len(),
            fragment_start(v@.take(i as int)) == i,
        decreases n - i,
    {
        assert(v@.take(i + 1).drop_last() =~= v@.take(i as int));
        i = i + 1;
    }
    proof {
        if i < n {
            assert(v@.take(i + 1).drop_last() =~= v@.take(i as int));
            lemma_fragment_stays(v@, i as int, n as int);
        }
        assert(v@.take(n as int) =~= v@);
    }
    i
}

/// Where the white space at the front of `v[..i]` ends.
fn front_end(v: &Vec<char>, i: usize) -> (a: usize)
    requires
        i <= v@.len(),
    ensures
        a <= i,
        trim_front(v@.take(i as int)) == v@.subrange(a as int, i as int),
{
    let ghost cut = v@.take(i as int);
    let mut a: usize = 0;
    assert(cut.subrange(0, i as int) =~= cut);
    while a < i && whitespace(v[a])
        invariant
            a <= i <= v@.len(),
            cut == v@.take(i as int),
            trim_front(cut) == trim_front(cut.subrange(a as int, i as int)),
        decreases i - a,
    {
        assert(cut.subrange(a as int, i as int).drop_first() =~= cut.subrange(a + 1, i as int));
        a = a + 1;
    }
    let ghost front = cut.subrange(a as int, i as int);
    assert(front =~= v@.subrange(a as int, i as int));
    assert(trim_front(front) == front) by {
        if a < i {
            assert(front[0] == v@[a as int]);
        }
    }
    a
}

/// Where the white space at the back of `v[a..i]` starts.
fn back_start(v: &Vec<char>, a: usize, i: usize) -> (b: usize)
    requires
        a <= i <= v@.len(),
    ensures
        a <= b <= i,
        trim_back(v@.subrange(a as int, i as int)) == v@.subrange(a as int, b as int),
{
    let mut b: usize = i;
    while b > a && whitespace(v[b - 1])
        invariant
            a <= b <= i <= v@.len(),
            trim_back(v@.subrange(a as int, i as int)) == trim_back(v@.subrange(a as int, b as int)),
        decreases b - a,
    {
        assert(v@.subrange(a as int, b as int).drop_last() =~= v@.subrange(a as int, b - 1));
        b = b - 1;
    }
    let ghost rest = v@.subrange(a as int, b as int);
    assert(trim_back(rest) == rest) by {
        if b > a {
            assert(rest.last() == v@[b - 1]);
        }
    }
    b
}

/// The path part of a link target.
pub fn link_path_of(target: &str) -> (r: String)
    ensures
        r@ == link_path(target@),
{
    let v = chars_of(target);
    let i = fragment_cut(&v);
    let a = front_end(&v, i);
    let b = back_start(&v, a, i);
    string_between(v.as_slice(), a, b)
}


impl Clone for MarkdownItem {
    fn clone(&self) -> (r: Self)
        ensures
            r == *self,
    {
        match self {
            MarkdownItem::Heading(h) => MarkdownItem::Heading(MarkdownHeading { text: h.text.clone(), evidence: h.evidence.clone() }),
            MarkdownItem::Link(l) => MarkdownItem::Link(
                MarkdownLink { target: l.target.clone(), local: l.local, relative: l.relative.clone(), evidence: l.evidence.clone() },
            ),
            MarkdownItem::PathRef(p) => MarkdownItem::PathRef(
                MarkdownPathRef { path: p.path.clone(), relative: p.relative.clone(), evidence: p.evidence.clone() },
            ),
            MarkdownItem::Command(c) => MarkdownItem::Command(MarkdownCommand { command: c.command.clone(), evidence: c.evidence.clone() }),
        }
    }
}

/// The findings of a document in the builder's order.
fn items_of(a: &MarkdownAnalysis) -> (r: Vec<MarkdownItem>)
    ensures
        r@ == markdown_items(*a),
{
    reveal(markdown_items);
    let mut r: Vec<MarkdownItem> = Vec::new();
    let ghost hs = a.headings@.map_values(|h: MarkdownHeading| MarkdownItem::Heading(h));
    let ghost ls = a.links@.map_values(|l: MarkdownLink| MarkdownItem::Link(l));
    let ghost ps = a.source_paths@.map_values(|p: MarkdownPathRef| MarkdownItem::PathRef(p));
    let ghost cs = a.commands@.map_values(|c: MarkdownCommand| MarkdownItem::Command(c));
    let mut i: usize = 0;
    while i < a.headings.len()
        invariant
            i <= hs.len(),
            hs == a.headings@.map_values(|h: MarkdownHeading| MarkdownItem::Heading(h)),
            r@ == hs.take(i as int),
        decreases hs.len() - i,
    {
        let h = &a.headings[i];
        let it = MarkdownItem::Heading(MarkdownHeading { text: h.text.clone(), evidence: h.evidence.clone() });
        r.push(it);
        assert(hs.take(i + 1) =~= hs.take(i as int).push(hs[i as int]));
        i = i + 1;
    }
    assert(hs.take(i as int) =~= hs);
    let mut i: usize = 0;
    while i < a.links.len()
        invariant
            i <= ls.len(),
            ls == a.links@.map_values(|l: MarkdownLink| MarkdownItem::Link(l)),
            r@ == hs + ls.take(i as int),
        decreases ls.len() - i,
    {
        let l = &a.links[i];
        r.push(MarkdownItem::Link(MarkdownLink { target: l.target.clone(), local: l.local, relative: l.relative.clone(), evidence: l.evidence.clone() }));
        assert(ls.take(i + 1) =~= ls.take(i as int).push(ls[i as int]));
        i = i + 1;
    }
    assert(ls.take(i as int) =~= ls);
    let mut i: usize = 0;
    while i < a.source_paths.len()
        invariant
            i <= ps.len(),
            ps == a.source_paths@.map_values(|p: MarkdownPathRef| MarkdownItem::PathRef(p)),
            r@ == hs + ls + ps.take(i as int),
        decreases ps.len() - i,
    {
        let p = &a.source_paths[i];
        r.push(MarkdownItem::PathRef(MarkdownPathRef { path: p.path.clone(), relative: p.relative.clone(), evidence: p.evidence.clone() }));
        assert(ps.take(i + 1) =~= ps.take(i as int).push(ps[i as int]));
        i = i + 1;
    }
    assert(ps.take(i as int) =~= ps);
    let mut i: usize = 0;
    while i < a.commands.len()
        invariant
            i <= cs.len(),
            cs == a.commands@.map_values(|c: MarkdownCommand| MarkdownItem::Command(c)),
            r@ == hs + ls + ps + cs.take(i as int),
        decreases cs.len() - i,
    {
        let c = &a.commands[i];
        r.push(MarkdownItem::Command(MarkdownCommand { command: c.command.clone(), evidence: c.evidence.clone() }));
        assert(cs.take(i + 1) =~= cs.take(i as int).push(cs[i as int]));
        i = i + 1;
    }
    assert(cs.take(i as int) =~= cs);
    r
}

/// The key of a finding's evidence: its start line, or 0, in decimal.
fn span_key_of(e: &EvidenceRef) -> (k: String)
    ensures
        k@ == span_key(*e),
{
    match &e.span {
        Some(sp) => decimal_string(sp.start_line as usize),
        None => decimal_string(0),
    }
}

impl BuilderState {
    /// The artifact node a link or path mention names, if any ([`doc_target`]).
    pub fn doc_target_of(&self, target: &str, relative: &str) -> (r: Option<GraphNodeId>)
        requires
            self.wf(),
        ensures
            match doc_target(views(self.artifact_paths@), target@, relative@) {
                Some(t) => r matches Some(id) && id@ == t,
                None => r is None,
            },
    {
        let p = link_path_of(target);
        let pv = chars_of(p.as_str());
        if pv.len() == 0 {
            return None;
        }
        let normalized = if pv[0] == '/' {
            trim_start_matching(p.as_str(), "/")
        } else {
            owned(relative)
        };
        if self.path_listed(normalized.as_str()) {
            return Some(GraphNodeId::from_string(cat("artifact:", normalized.as_str())));
        }
        self.resolve_path(p.as_str())
    }
}


impl BuilderState {
    /// Records one finding of a Markdown document after the plan `prior`.
    fn markdown_step(
        &mut self,
        artifact: &Artifact,
        item: &MarkdownItem,
        artifact_node: &GraphNodeId,
        Ghost(from): Ghost<int>,
        Ghost(count): Ghost<int>,
        Ghost(prior): Ghost<Seq<PlannedRelation>>,
    )
        requires
            old(self).wf(),
            0 <= from,
            recorded_as(old(self).relations@, from, count, prior),
            old(self).relation_count == count + prior.len(),
            old(self).relation_count + item_plan(artifact_node@, artifact.path@, views(old(self).artifact_paths@), *item).len() < usize::MAX,
        ensures
            final(self).wf(),
            same_frame(*old(self), *final(self), from),
            final(self).relation_count == old(self).relation_count + item_plan(
                artifact_node@,
                artifact.path@,
                views(old(self).artifact_paths@),
                *item,
            ).len(),
            recorded_as(
                final(self).relations@,
                from,
                count,
                prior + item_plan(artifact_node@, artifact.path@, views(old(self).artifact_paths@), *item),
            ),
            node_keys(final(self).nodes@).to_set() == node_keys(old(self).nodes@).to_set() + node_set(artifact.path@, *item),
            keeps_nodes(old(self).nodes@, final(self).nodes@),
            new_nodes_named(old(self).nodes@, final(self).nodes@),
            item_node(artifact.path@, *item) matches Some(x) && !node_keys(old(self).nodes@).contains(x) ==> one_made(
                final(self).nodes@,
                artifact.category,
                artifact.path@,
                *item,
            ),
    {
        let ghost nodes0 = self.nodes@;
        let ghost node = artifact_node@;
        let ghost path = artifact.path@;
        let ghost paths = views(self.artifact_paths@);
        proof {
            assert(keeps_nodes(nodes0, nodes0));
            assert(new_nodes_named(nodes0, nodes0));
            assert(node_keys(nodes0).to_set().subset_of(node_keys(nodes0).to_set()));
        }
        match item {
            MarkdownItem::Heading(h) => {
                let key = span_key_of(&h.evidence);
                let target = self.documentation(artifact.path.as_str(), key.as_str(), h.text.as_str(), h.evidence.clone());
                proof {
                    crate::builder::lemma_kept_or_added_keys(nodes0, self.nodes@, target@);
                    lemma_keeps_step(nodes0, nodes0, self.nodes@, target@);
                    if !node_keys(nodes0).contains(target@) {
                        reveal_strlit("doc:");
                        assert(target@[0] == 'd');
                        lemma_named_other(node_under(self.nodes@, target@)->0, target@);
                    }
                    lemma_named_step(nodes0, nodes0, self.nodes@, target@);
                    assert(node_keys(nodes0).to_set().insert(target@) =~= node_keys(nodes0).to_set() + node_set(path, *item));
                }
                self.record(artifact_node, target, RelationKind::Contains, Confidence::High, &h.evidence, Ghost(from), Ghost(count), Ghost(prior));
            },
            MarkdownItem::Link(l) => {
                assert(node_keys(nodes0).to_set() =~= node_keys(nodes0).to_set() + node_set(path, *item));
                if l.local {
                    match self.doc_target_of(l.target.as_str(), l.relative.as_str()) {
                        Some(target) => {
                            self.record(artifact_node, target, RelationKind::References, Confidence::High, &l.evidence, Ghost(from), Ghost(count), Ghost(prior));
                        },
                        None => {
                            assert(prior + item_plan(node, path, paths, *item) =~= prior);
                        },
                    }
                } else {
                    assert(prior + item_plan(node, path, paths, *item) =~= prior);
                }
            },
            MarkdownItem::PathRef(p) => {
                assert(node_keys(nodes0).to_set() =~= node_keys(nodes0).to_set() + node_set(path, *item));
                match self.doc_target_of(p.path.as_str(), p.relative.as_str()) {
                    Some(target) => {
                        self.record(artifact_node, target, RelationKind::References, Confidence::High, &p.evidence, Ghost(from), Ghost(count), Ghost(prior));
                    },
                    None => {
                        assert(prior + item_plan(node, path, paths, *item) =~= prior);
                    },
                }
            },
            MarkdownItem::Command(c) => {
                let key = span_key_of(&c.evidence);
                let target = self.command(artifact, key.as_str(), c.command.as_str(), c.evidence.clone());
                proof {
                    crate::builder::lemma_kept_or_added_keys(nodes0, self.nodes@, target@);
                    lemma_keeps_step(nodes0, nodes0, self.nodes@, target@);
                    if !node_keys(nodes0).contains(target@) {
                        reveal_strlit("command:");
                        assert(target@[0] == 'c');
                        lemma_named_other(node_under(self.nodes@, target@)->0, target@);
                    }
                    lemma_named_step(nodes0, nodes0, self.nodes@, target@);
                    assert(node_keys(nodes0).to_set().insert(target@) =~= node_keys(nodes0).to_set() + node_set(path, *item));
                }
                self.record(artifact_node, target, RelationKind::RunsCommand, Confidence::High, &c.evidence, Ghost(from), Ghost(count), Ghost(prior));
            },
        }
    }
}

impl BuilderState {
    /// Records a Markdown document for the artifact node `artifact_node`:
    /// the relations [`markdown_plan`] lists, numbered on from the state's
    /// count, and the nodes [`markdown_nodes`] lists. A heading or command
    /// that makes its node gives it what [`item_made`] says. Nodes recorded
    /// before stay as they were.
    #[verifier::spinoff_prover]
    #[verifier::rlimit(60)]
    pub fn process_markdown(&mut self, artifact: &Artifact, analysis: &MarkdownAnalysis, artifact_node: &GraphNodeId)
        requires
            old(self).wf(),
            old(self).relation_count + markdown_plan(artifact_node@, artifact.path@, views(old(self).artifact_paths@), *analysis).len()
                < usize::MAX,
        ensures
            final(self).wf(),
            same_frame(*old(self), *final(self), old(self).relations@.len() as int),
            final(self).relation_count == old(self).relation_count + markdown_plan(
                artifact_node@,
                artifact.path@,
                views(old(self).artifact_paths@),
                *analysis,
            ).len(),
            recorded_as(
                final(self).relations@,
                old(self).relations@.len() as int,
                old(self).relation_count as int,
                markdown_plan(artifact_node@, artifact.path@, views(old(self).artifact_paths@), *analysis),
            ),
            node_keys(final(self).nodes@).to_set() == node_keys(old(self).nodes@).to_set() + markdown_nodes(artifact.path@, *analysis),
            keeps_nodes(old(self).nodes@, final(self).nodes@),
            new_nodes_named(old(self).nodes@, final(self).nodes@),
            forall|i: int|
                0 <= i < markdown_items(*analysis).len() && fresh_item(old(self).nodes@, artifact.path@, markdown_items(*analysis), i)
                    ==> #[trigger] item_made(final(self).nodes@, artifact.category, artifact.path@, markdown_items(*analysis), i),
    {
        let ghost start = *self;
        let ghost from = self.relations@.len() as int;
        let ghost count = self.relation_count as int;
        let ghost path = artifact.path@;
        let ghost paths = views(self.artifact_paths@);
        let ghost node = artifact_node@;
        let items = items_of(analysis);
        let ghost its = items@;
        proof {
            assert(its.take(0) =~= Seq::<MarkdownItem>::empty());
            assert(node_keys(self.nodes@).to_set() =~= node_keys(start.nodes@).to_set() + items_nodes(path, its.take(0)));
            assert(keeps_nodes(start.nodes@, self.nodes@));
            assert(its.take(its.len() as int) =~= its);
        }
        let mut i: usize = 0;
        while i < items.len()
            invariant
                i <= its.len(),
                its == items@,
                its == markdown_items(*analysis),
                count == start.relation_count,
                from == start.relations@.len(),
                path == artifact.path@,
                node == artifact_node@,
                paths == views(start.artifact_paths@),
                self.wf(),
                same_frame(start, *self, from),
                start.relation_count + items_plan(node, path, paths, its.take(its.len() as int)).len() < usize::MAX,
                self.relation_count == count + items_plan(node, path, paths, its.take(i as int)).len(),
                recorded_as(self.relations@, from, count, items_plan(node, path, paths, its.take(i as int))),
                node_keys(self.nodes@).to_set() == node_keys(start.nodes@).to_set() + items_nodes(path, its.take(i as int)),
                keeps_nodes(start.nodes@, self.nodes@),
                new_nodes_named(start.nodes@, self.nodes@),
                forall|q: int|
                    0 <= q < i && fresh_item(start.nodes@, path, its, q) ==> #[trigger] item_made(self.nodes@, artifact.category, path, its, q),
            decreases its.len() - i,
        {
            let ghost prior = items_plan(node, path, paths, its.take(i as int));
            let ghost nodes0 = self.nodes@;
            let ghost keys0 = node_keys(self.nodes@).to_set();
            proof {
                assert(node_keys(start.nodes@).to_set().subset_of(keys0));
                assert(its.take(i + 1).drop_last() =~= its.take(i as int));
                assert(its.take(i + 1).last() == its[i as int]);
                assert(views(self.artifact_paths@) == paths);
                lemma_items_plan_grows(node, path, paths, its, i + 1, its.len() as int);
                assert(items_plan(node, path, paths, its.take(i + 1)) == prior + item_plan(node, path, paths, its[i as int]));
            }
            let ghost mid = *self;
            self.markdown_step(artifact, &items[i], artifact_node, Ghost(from), Ghost(count), Ghost(prior));
            proof {
                assert forall|k: int| 0 <= k < from implies #[trigger] self.relations@[k] == start.relations@[k] by {
                    assert(self.relations@[k] == mid.relations@[k]);
                }
                assert(node_keys(self.nodes@).to_set() =~= node_keys(start.nodes@).to_set() + items_nodes(path, its.take(i + 1)));
                crate::infra::lemma_keeps_trans(start.nodes@, nodes0, self.nodes@);
                crate::infra::lemma_named_trans(start.nodes@, nodes0, self.nodes@);
                lemma_made_step(start.nodes@, nodes0, self.nodes@, artifact.category, path, its, i as int);
            }
            i = i + 1;
        }
        proof {
            assert(its.take(its.len() as int) =~= its);
        }
    }
}

} // verus!

//! A canonical, unambiguous text rendering of graph content: every string is
//! length-prefixed and every enum is rendered by its declaration position, so
//! two renderings are equal exactly when the rendered content is equal.

use vstd::prelude::*;
use crate::model::{
    kind_position, kind_rank, ArtifactCategory, ArtifactNode, CommandNode, ConfigNode,
    ContainerImageNode, DocumentationNode, EnvVarNode, ModuleNode, PackageNode, RationaleNode,
    SymbolNode, UnresolvedNode, CommandProvenance, ConfigNodeKind, Confidence,
    EvidenceRef, GraphNode, ModuleLanguage, RationaleKind, Relation, RelationProvenance,
    RelationResolution, RelationView, SourceSpan, SymbolKind,
};
use crate::text::{chars_of, decimal, decimal_string, string_of};

verus! {

/// A length-prefixed string: `len:chars`.
pub open spec fn field(s: Seq<char>) -> Seq<char> {
    decimal(s.len()) + seq![':'] + s
}

/// A number followed by `;`.
pub open spec fn num(n: nat) -> Seq<char> {
    decimal(n) + seq![';']
}

pub open spec fn opt_field(s: Option<Seq<char>>) -> Seq<char> {
    match s {
        Some(v) => seq!['+'] + field(v),
        None => seq!['-'],
    }
}

pub open spec fn opt_string_view(s: Option<String>) -> Option<Seq<char>> {
    match s {
        Some(v) => Some(v@),
        None => None,
    }
}

pub open spec fn span_text(s: Option<SourceSpan>) -> Seq<char> {
    match s {
        Some(sp) => seq!['+'] + num(sp.start_line as nat) + num(sp.end_line as nat),
        None => seq!['-'],
    }
}

pub open spec fn evidence_text(e: EvidenceRef) -> Seq<char> {
    field(e.artifact_id@) + field(e.path@) + span_text(e.span)
}

pub open spec fn evidence_list_text(v: Seq<EvidenceRef>) -> Seq<char>
    decreases v.len(),
{
    if v.len() == 0 {
        seq![]
    } else {
        evidence_list_text(v.drop_last()) + evidence_text(v.last())
    }
}

pub open spec fn confidence_rank(c: Confidence) -> nat {
    match c {
        Confidence::High => 0,
        Confidence::Low => 1,
    }
}

pub open spec fn resolution_rank(r: RelationResolution) -> nat {
    match r {
        RelationResolution::SyntaxOnly => 0,
        RelationResolution::HybridResolved => 1,
        RelationResolution::Fallback => 2,
    }
}

pub open spec fn provenance_text(p: Option<RelationProvenance>) -> Seq<char> {
    match p {
        Some(v) => seq!['+'] + opt_field(opt_string_view(v.language)) + field(v.resolver_strategy@)
            + num(resolution_rank(v.resolution)) + num(confidence_rank(v.confidence)),
        None => seq!['-'],
    }
}

pub open spec fn relation_text(r: RelationView) -> Seq<char> {
    field(r.id) + field(r.source) + field(r.target) + num(kind_rank(r.kind) as nat) + num(
        confidence_rank(r.confidence),
    ) + num(r.evidence.len()) + evidence_list_text(r.evidence) + provenance_text(r.provenance)
}

pub open spec fn category_rank(c: ArtifactCategory) -> nat {
    match c {
        ArtifactCategory::SourceCode => 0,
        ArtifactCategory::GeneratedSource => 1,
        ArtifactCategory::Test => 2,
        ArtifactCategory::Documentation => 3,
        ArtifactCategory::BuildDefinition => 4,
        ArtifactCategory::ContinuousIntegration => 5,
        ArtifactCategory::Configuration => 6,
        ArtifactCategory::Data => 7,
        ArtifactCategory::Other => 8,
    }
}

pub open spec fn symbol_kind_rank(k: SymbolKind) -> nat {
    match k {
        SymbolKind::Function => 0,
        SymbolKind::Method => 1,
        SymbolKind::Class => 2,
        SymbolKind::Struct => 3,
        SymbolKind::Enum => 4,
        SymbolKind::Trait => 5,
        SymbolKind::Definition => 6,
        SymbolKind::External => 7,
    }
}

pub open spec fn config_kind_rank(k: ConfigNodeKind) -> nat {
    match k {
        ConfigNodeKind::Key => 0,
        ConfigNodeKind::Service => 1,
        ConfigNodeKind::Port => 2,
        ConfigNodeKind::Job => 3,
        ConfigNodeKind::Route => 4,
    }
}

pub open spec fn language_rank(k: ModuleLanguage) -> nat {
    match k {
        ModuleLanguage::Python => 0,
        ModuleLanguage::Rust => 1,
        ModuleLanguage::TypeScript => 2,
        ModuleLanguage::SyntaxIndexed => 3,
    }
}

pub open spec fn command_rank(k: CommandProvenance) -> nat {
    match k {
        CommandProvenance::Executable => 0,
        CommandProvenance::BuildAutomation => 1,
        CommandProvenance::DocumentationExample => 2,
    }
}

pub open spec fn rationale_rank(k: RationaleKind) -> nat {
    match k {
        RationaleKind::Note => 0,
        RationaleKind::Why => 1,
        RationaleKind::Todo => 2,
    }
}

pub open spec fn bool_rank(b: bool) -> nat {
    if b {
        1
    } else {
        0
    }
}

pub open spec fn node_text(n: GraphNode) -> Seq<char> {
    match n {
        GraphNode::Artifact(v) => num(0) + field(v.id@) + field(v.path@) + num(category_rank(v.category))
            + evidence_text(v.evidence),
        GraphNode::Symbol(v) => num(1) + field(v.id@) + num(symbol_kind_rank(v.kind)) + field(
            v.qualified_name@,
        ) + opt_field(opt_string_view(v.doc)) + evidence_text(v.evidence),
        GraphNode::Config(v) => num(2) + field(v.id@) + num(config_kind_rank(v.kind)) + field(v.name@)
            + evidence_text(v.evidence),
        GraphNode::Documentation(v) => num(3) + field(v.id@) + field(v.title@) + evidence_text(
            v.evidence,
        ),
        GraphNode::Container(v) => num(4) + field(v.id@) + field(v.reference@) + num(
            bool_rank(v.is_dynamic),
        ),
        GraphNode::Command(v) => num(5) + field(v.id@) + field(v.text@) + num(command_rank(v.provenance))
            + evidence_text(v.evidence),
        GraphNode::EnvVar(v) => num(6) + field(v.id@) + field(v.name@),
        GraphNode::Module(v) => num(7) + field(v.id@) + field(v.path@) + num(language_rank(v.language))
            + evidence_text(v.evidence),
        GraphNode::Package(v) => num(8) + field(v.id@) + field(v.name@) + num(bool_rank(v.is_external)),
        GraphNode::Unresolved(v) => num(9) + field(v.id@) + field(v.value@),
        GraphNode::Rationale(v) => num(10) + field(v.id@) + num(rationale_rank(v.kind)) + field(v.text@)
            + evidence_text(v.evidence),
    }
}

pub open spec fn nodes_text(v: Seq<GraphNode>) -> Seq<char>
    decreases v.len(),
{
    if v.len() == 0 {
        seq![]
    } else {
        nodes_text(v.drop_last()) + node_text(v.last())
    }
}

pub open spec fn relations_text(v: Seq<RelationView>) -> Seq<char>
    decreases v.len(),
{
    if v.len() == 0 {
        seq![]
    } else {
        relations_text(v.drop_last()) + relation_text(v.last())
    }
}

/// The canonical rendering of a list of nodes and a list of relations.
pub open spec fn content_text(nodes: Seq<GraphNode>, relations: Seq<RelationView>) -> Seq<char> {
    num(nodes.len()) + nodes_text(nodes) + num(relations.len()) + relations_text(relations)
}

fn put_str(out: &mut Vec<char>, s: &str)
    ensures
        final(out)@ == old(out)@ + s@,
{
    let v = chars_of(s);
    let mut i: usize = 0;
    let ghost start = out@;
    while i < v.len()
        invariant
            i <= v@.len(),
            out@ == start + v@.subrange(0, i as int),
        decreases v@.len() - i,
    {
        out.push(v[i]);
        assert(v@.subrange(0, i + 1) =~= v@.subrange(0, i as int).push(v@[i as int]));
        assert(out@ =~= start + v@.subrange(0, i + 1));
        i = i + 1;
    }
    assert(v@.subrange(0, v@.len() as int) =~= v@);
}

fn put_char(out: &mut Vec<char>, c: char)
    ensures
        final(out)@ == old(out)@ + seq![c],
{
    out.push(c);
    assert(old(out)@.push(c) =~= old(out)@ + seq![c]);
}

fn put_num(out: &mut Vec<char>, n: usize)
    ensures
        final(out)@ == old(out)@ + num(n as nat),
{
    let d = decimal_string(n);
    put_str(out, d.as_str());
    put_char(out, ';');
    assert(final(out)@ =~= old(out)@ + num(n as nat));
}

fn put_field(out: &mut Vec<char>, s: &str)
    ensures
        final(out)@ == old(out)@ + field(s@),
{
    let n = s.unicode_len();
    let d = decimal_string(n);
    put_str(out, d.as_str());
    put_char(out, ':');
    put_str(out, s);
    assert(final(out)@ =~= old(out)@ + field(s@));
}

fn put_opt_field(out: &mut Vec<char>, s: &Option<String>)
    ensures
        final(out)@ == old(out)@ + opt_field(opt_string_view(*s)),
{
    match s {
        Some(v) => {
            put_char(out, '+');
            put_field(out, v.as_str());
            assert(final(out)@ =~= old(out)@ + opt_field(opt_string_view(*s)));
        },
        None => {
            put_char(out, '-');
        },
    }
}

fn put_span(out: &mut Vec<char>, s: Option<SourceSpan>)
    ensures
        final(out)@ == old(out)@ + span_text(s),
{
    match s {
        Some(sp) => {
            put_char(out, '+');
            put_num(out, sp.start_line as usize);
            put_num(out, sp.end_line as usize);
            assert(final(out)@ =~= old(out)@ + span_text(s));
        },
        None => {
            put_char(out, '-');
        },
    }
}

fn put_evidence(out: &mut Vec<char>, e: &EvidenceRef)
    ensures
        final(out)@ == old(out)@ + evidence_text(*e),
{
    put_field(out, e.artifact_id.as_str());
    put_field(out, e.path.as_str());
    put_span(out, e.span);
    assert(final(out)@ =~= old(out)@ + evidence_text(*e));
}

fn confidence_number(c: Confidence) -> (r: usize)
    ensures
        r as nat == confidence_rank(c),
{
    match c {
        Confidence::High => 0,
        Confidence::Low => 1,
    }
}

fn resolution_number(r: RelationResolution) -> (n: usize)
    ensures
        n as nat == resolution_rank(r),
{
    match r {
        RelationResolution::SyntaxOnly => 0,
        RelationResolution::HybridResolved => 1,
        RelationResolution::Fallback => 2,
    }
}

fn put_evidence_list(out: &mut Vec<char>, v: &Vec<EvidenceRef>)
    ensures
        final(out)@ == old(out)@ + evidence_list_text(v@),
{
    let ghost before_list = out@;
    let mut i: usize = 0;
    while i < v.len()
        invariant
            i <= v@.len(),
            out@ == before_list + evidence_list_text(v@.subrange(0, i as int)),
        decreases v@.len() - i,
    {
        let ghost mid = out@;
        put_evidence(out, &v[i]);
        assert(v@.subrange(0, i + 1).drop_last() =~= v@.subrange(0, i as int));
        assert(evidence_list_text(v@.subrange(0, i + 1)) == evidence_list_text(v@.subrange(0, i as int)) + evidence_text(v@[i as int]));
        assert(out@ =~= before_list + evidence_list_text(v@.subrange(0, i + 1)));
        i = i + 1;
    }
    assert(v@.subrange(0, v@.len() as int) =~= v@);
}

fn put_provenance(out: &mut Vec<char>, p: &Option<RelationProvenance>)
    ensures
        final(out)@ == old(out)@ + provenance_text(*p),
{
    match p {
        Some(v) => {
            let ghost o = out@;
            put_char(out, '+');
            put_opt_field(out, &v.language);
            put_field(out, v.resolver_strategy.as_str());
            put_num(out, resolution_number(v.resolution));
            put_num(out, confidence_number(v.confidence));
            assert(out@ =~= o + provenance_text(*p));
        },
        None => {
            put_char(out, '-');
        },
    }
}

#[verifier::rlimit(40)]
fn put_relation(out: &mut Vec<char>, r: &Relation)
    ensures
        final(out)@ == old(out)@ + relation_text(r@),
{
    let ghost o = out@;
    put_field(out, r.id.as_str());
    put_field(out, r.source.as_str());
    put_field(out, r.target.as_str());
    let ghost a = out@;
    assert(a =~= o + (field(r.id@) + field(r.source@) + field(r.target@)));
    put_num(out, kind_position(r.kind) as usize);
    put_num(out, confidence_number(r.confidence));
    put_num(out, r.evidence.len());
    let ghost b = out@;
    assert(b =~= a + (num(kind_rank(r.kind) as nat) + num(confidence_rank(r.confidence)) + num(r.evidence@.len())));
    put_evidence_list(out, &r.evidence);
    put_provenance(out, &r.provenance);
    let ghost c = out@;
    assert(c =~= b + (evidence_list_text(r.evidence@) + provenance_text(r.provenance)));
    assert(relation_text(r@) =~= (field(r.id@) + field(r.source@) + field(r.target@)) + (num(kind_rank(r.kind) as nat) + num(confidence_rank(r.confidence)) + num(r.evidence@.len())) + (evidence_list_text(r.evidence@) + provenance_text(r.provenance)));
}

fn category_number(c: ArtifactCategory) -> (r: usize)
    ensures
        r as nat == category_rank(c),
{
    match c {
        ArtifactCategory::SourceCode => 0,
        ArtifactCategory::GeneratedSource => 1,
        ArtifactCategory::Test => 2,
        ArtifactCategory::Documentation => 3,
        ArtifactCategory::BuildDefinition => 4,
        ArtifactCategory::ContinuousIntegration => 5,
        ArtifactCategory::Configuration => 6,
        ArtifactCategory::Data => 7,
        ArtifactCategory::Other => 8,
    }
}

fn symbol_kind_number(k: SymbolKind) -> (r: usize)
    ensures
        r as nat == symbol_kind_rank(k),
{
    match k {
        SymbolKind::Function => 0,
        SymbolKind::Method => 1,
        SymbolKind::Class => 2,
        SymbolKind::Struct => 3,
        SymbolKind::Enum => 4,
        SymbolKind::Trait => 5,
        SymbolKind::Definition => 6,
        SymbolKind::External => 7,
    }
}

fn config_kind_number(k: ConfigNodeKind) -> (r: usize)
    ensures
        r as nat == config_kind_rank(k),
{
    match k {
        ConfigNodeKind::Key => 0,
        ConfigNodeKind::Service => 1,
        ConfigNodeKind::Port => 2,
        ConfigNodeKind::Job => 3,
        ConfigNodeKind::Route => 4,
    }
}

fn language_number(k: ModuleLanguage) -> (r: usize)
    ensures
        r as nat == language_rank(k),
{
    match k {
        ModuleLanguage::Python => 0,
        ModuleLanguage::Rust => 1,
        ModuleLanguage::TypeScript => 2,
        ModuleLanguage::SyntaxIndexed => 3,
    }
}

fn command_number(k: CommandProvenance) -> (r: usize)
    ensures
        r as nat == command_rank(k),
{
    match k {
        CommandProvenance::Executable => 0,
        CommandProvenance::BuildAutomation => 1,
        CommandProvenance::DocumentationExample => 2,
    }
}

fn rationale_number(k: RationaleKind) -> (r: usize)
    ensures
        r as nat == rationale_rank(k),
{
    match k {
        RationaleKind::Note => 0,
        RationaleKind::Why => 1,
        RationaleKind::Todo => 2,
    }
}

fn bool_number(b: bool) -> (r: usize)
    ensures
        r as nat == bool_rank(b),
{
    if b {
        1
    } else {
        0
    }
}

fn put_artifact(out: &mut Vec<char>, v: &ArtifactNode)
    ensures
        final(out)@ == old(out)@ + node_text(GraphNode::Artifact(*v)),
{
    put_num(out, 0);
    put_field(out, v.id.as_str());
    put_field(out, v.path.as_str());
    put_num(out, category_number(v.category));
    put_evidence(out, &v.evidence);
    assert(final(out)@ =~= old(out)@ + node_text(GraphNode::Artifact(*v)));
}

fn put_symbol(out: &mut Vec<char>, v: &SymbolNode)
    ensures
        final(out)@ == old(out)@ + node_text(GraphNode::Symbol(*v)),
{
    put_num(out, 1);
    put_field(out, v.id.as_str());
    put_num(out, symbol_kind_number(v.kind));
    put_field(out, v.qualified_name.as_str());
    put_opt_field(out, &v.doc);
    put_evidence(out, &v.evidence);
    assert(final(out)@ =~= old(out)@ + node_text(GraphNode::Symbol(*v)));
}

fn put_config(out: &mut Vec<char>, v: &ConfigNode)
    ensures
        final(out)@ == old(out)@ + node_text(GraphNode::Config(*v)),
{
    put_num(out, 2);
    put_field(out, v.id.as_str());
    put_num(out, config_kind_number(v.kind));
    put_field(out, v.name.as_str());
    put_evidence(out, &v.evidence);
    assert(final(out)@ =~= old(out)@ + node_text(GraphNode::Config(*v)));
}

fn put_documentation(out: &mut Vec<char>, v: &DocumentationNode)
    ensures
        final(out)@ == old(out)@ + node_text(GraphNode::Documentation(*v)),
{
    put_num(out, 3);
    put_field(out, v.id.as_str());
    put_field(out, v.title.as_str());
    put_evidence(out, &v.evidence);
    assert(final(out)@ =~= old(out)@ + node_text(GraphNode::Documentation(*v)));
}

fn put_container(out: &mut Vec<char>, v: &ContainerImageNode)
    ensures
        final(out)@ == old(out)@ + node_text(GraphNode::Container(*v)),
{
    put_num(out, 4);
    put_field(out, v.id.as_str());
    put_field(out, v.reference.as_str());
    put_num(out, bool_number(v.is_dynamic));
    assert(final(out)@ =~= old(out)@ + node_text(GraphNode::Container(*v)));
}

fn put_command(out: &mut Vec<char>, v: &CommandNode)
    ensures
        final(out)@ == old(out)@ + node_text(GraphNode::Command(*v)),
{
    put_num(out, 5);
    put_field(out, v.id.as_str());
    put_field(out, v.text.as_str());
    put_num(out, command_number(v.provenance));
    put_evidence(out, &v.evidence);
    assert(final(out)@ =~= old(out)@ + node_text(GraphNode::Command(*v)));
}

fn put_envvar(out: &mut Vec<char>, v: &EnvVarNode)
    ensures
        final(out)@ == old(out)@ + node_text(GraphNode::EnvVar(*v)),
{
    put_num(out, 6);
    put_field(out, v.id.as_str());
    put_field(out, v.name.as_str());
    assert(final(out)@ =~= old(out)@ + node_text(GraphNode::EnvVar(*v)));
}

fn put_module(out: &mut Vec<char>, v: &ModuleNode)
    ensures
        final(out)@ == old(out)@ + node_text(GraphNode::Module(*v)),
{
    put_num(out, 7);
    put_field(out, v.id.as_str());
    put_field(out, v.path.as_str());
    put_num(out, language_number(v.language));
    put_evidence(out, &v.evidence);
    assert(final(out)@ =~= old(out)@ + node_text(GraphNode::Module(*v)));
}

fn put_package(out: &mut Vec<char>, v: &PackageNode)
    ensures
        final(out)@ == old(out)@ + node_text(GraphNode::Package(*v)),
{
    put_num(out, 8);
    put_field(out, v.id.as_str());
    put_field(out, v.name.as_str());
    put_num(out, bool_number(v.is_external));
    assert(final(out)@ =~= old(out)@ + node_text(GraphNode::Package(*v)));
}

fn put_unresolved(out: &mut Vec<char>, v: &UnresolvedNode)
    ensures
        final(out)@ == old(out)@ + node_text(GraphNode::Unresolved(*v)),
{
    put_num(out, 9);
    put_field(out, v.id.as_str());
    put_field(out, v.value.as_str());
    assert(final(out)@ =~= old(out)@ + node_text(GraphNode::Unresolved(*v)));
}

fn put_rationale(out: &mut Vec<char>, v: &RationaleNode)
    ensures
        final(out)@ == old(out)@ + node_text(GraphNode::Rationale(*v)),
{
    put_num(out, 10);
    put_field(out, v.id.as_str());
    put_num(out, rationale_number(v.kind));
    put_field(out, v.text.as_str());
    put_evidence(out, &v.evidence);
    assert(final(out)@ =~= old(out)@ + node_text(GraphNode::Rationale(*v)));
}

fn put_node(out: &mut Vec<char>, n: &GraphNode)
    ensures
        final(out)@ == old(out)@ + node_text(*n),
{
    match n {
        GraphNode::Artifact(v) => put_artifact(out, v),
        GraphNode::Symbol(v) => put_symbol(out, v),
        GraphNode::Config(v) => put_config(out, v),
        GraphNode::Documentation(v) => put_documentation(out, v),
        GraphNode::Container(v) => put_container(out, v),
        GraphNode::Command(v) => put_command(out, v),
        GraphNode::EnvVar(v) => put_envvar(out, v),
        GraphNode::Module(v) => put_module(out, v),
        GraphNode::Package(v) => put_package(out, v),
        GraphNode::Unresolved(v) => put_unresolved(out, v),
        GraphNode::Rationale(v) => put_rationale(out, v),
    }
}

/// The canonical rendering of `nodes` and `relations`.
pub fn render_content(nodes: &Vec<GraphNode>, relations: &Vec<Relation>) -> (s: String)
    ensures
        s@ == content_text(nodes@, relations@.map_values(|r: Relation| r@)),
{
    let mut out: Vec<char> = Vec::new();
    put_num(&mut out, nodes.len());
    let ghost mark = out@;
    let mut i: usize = 0;
    while i < nodes.len()
        invariant
            i <= nodes@.len(),
            out@ == mark + nodes_text(nodes@.subrange(0, i as int)),
        decreases nodes@.len() - i,
    {
        put_node(&mut out, &nodes[i]);
        assert(nodes@.subrange(0, i + 1).drop_last() =~= nodes@.subrange(0, i as int));
        assert(out@ =~= mark + nodes_text(nodes@.subrange(0, i + 1)));
        i = i + 1;
    }
    assert(nodes@.subrange(0, nodes@.len() as int) =~= nodes@);
    put_num(&mut out, relations.len());
    let ghost rv = relations@.map_values(|r: Relation| r@);
    let ghost mark2 = out@;
    let mut j: usize = 0;
    while j < relations.len()
        invariant
            j <= relations@.len(),
            rv == relations@.map_values(|r: Relation| r@),
            out@ == mark2 + relations_text(rv.subrange(0, j as int)),
        decreases relations@.len() - j,
    {
        put_relation(&mut out, &relations[j]);
        assert(rv.subrange(0, j + 1).drop_last() =~= rv.subrange(0, j as int));
        assert(out@ =~= mark2 + relations_text(rv.subrange(0, j + 1)));
        j = j + 1;
    }
    assert(rv.subrange(0, rv.len() as int) =~= rv);
    assert(out@ =~= content_text(nodes@, rv));
    string_of(out.as_slice())
}

} // verus!

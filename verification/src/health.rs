//! Conservative, deterministic graph code-health findings.
//!
//! Every finding comes from a counted, explainable rule over the graph:
//! degrees of nodes, kinds and reversals of relations, co-change counts, and
//! the cohesion of communities handed in by the caller. The findings are
//! ordered by rule, then id, and each id is reported once.

use vstd::prelude::*;
use vstd::multiset::Multiset;
use crate::model::{Confidence, Graph, GraphNode, GraphNodeId, Relation, RelationKind, RelationView, node_id};
use crate::sorting::{dedup_by, dedup_spec, lemma_dedup_map, lemma_sort_map, sort_by, sort_spec};
use crate::strmap::{count_add, count_touch, counts, keys_of, lemma_counts_empty, lemma_sorted_listing, sorted_listing};
use crate::text::{cat, owned, seq_less, str_eq, str_less};

verus! {

broadcast use {vstd::seq_lib::group_seq_properties, vstd::seq_lib::group_to_multiset_ensures};

/// Conservative thresholds for local graph-health detectors.
#[derive(Debug, Clone, Copy, PartialEq, Eq)]
pub struct HealthThresholds {
    /// Minimum total degree before reporting a god-class candidate.
    pub god_class_degree: usize,
    /// Minimum incident edges before reporting a bridge bottleneck.
    pub bridge_degree: usize,
    /// Maximum cohesion considered weak.
    pub low_cohesion_percent: u8,
    /// Minimum co-change neighbors for shotgun-surgery risk.
    pub shotgun_neighbors: usize,
}

impl Default for HealthThresholds {
    fn default() -> (t: Self)
        ensures
            t.god_class_degree == 12,
            t.bridge_degree == 8,
            t.low_cohesion_percent == 25,
            t.shotgun_neighbors == 5,
    {
        HealthThresholds { god_class_degree: 12, bridge_degree: 8, low_cohesion_percent: 25, shotgun_neighbors: 5 }
    }
}

/// Stable finding category, in report order.
#[derive(Debug, Clone, Copy, PartialEq, Eq, Structural, PartialOrd, Ord, Hash)]
pub enum HealthRule {
    /// Oversized high-degree class-like node.
    GodClass,
    /// High-degree bridge node.
    BridgeBottleneck,
    /// Directed two-node dependency cycle.
    Cycle,
    /// Node with no graph relations.
    OrphanedCode,
    /// Explicit co-change coupling.
    HiddenCoupling,
    /// Explicit service/layer-boundary crossing.
    LayerViolation,
    /// Community below the configured cohesion threshold.
    LowCohesionCluster,
    /// File coupled to many co-change neighbors.
    ShotgunSurgery,
}

/// Triage severity.
#[derive(Debug, Clone, Copy, PartialEq, Eq, Structural, PartialOrd, Ord, Hash)]
pub enum HealthSeverity {
    /// Worth tracking during normal maintenance.
    Low,
    /// Needs an investigation when modifying the area.
    Medium,
    /// Likely architectural risk.
    High,
}

/// Explainable code-health finding.
#[derive(Debug, PartialEq, Eq)]
pub struct HealthFinding {
    /// Deterministic rule and affected-node identity.
    pub id: String,
    /// Detector that produced the result.
    pub rule: HealthRule,
    /// Conservative triage level.
    pub severity: HealthSeverity,
    /// Confidence in the graph evidence.
    pub confidence: Confidence,
    /// Affected graph nodes in stable order.
    pub affected_nodes: Vec<GraphNodeId>,
    /// Supporting relation ids or node ids.
    pub evidence: Vec<String>,
    /// Named detector values used for the decision, by name.
    pub metric_inputs: Vec<(String, usize)>,
    /// Local typed-query starting point for investigation.
    pub investigation_query: String,
}

/// A detected community as the cohesion detector reads it: its members, the
/// relations leaving it, and its cohesion in whole percent.
#[derive(Debug, PartialEq, Eq)]
pub struct CommunityCohesion {
    pub members: Vec<GraphNodeId>,
    pub boundary_edges: Vec<String>,
    pub cohesion_percent: usize,
}

/// The value of a finding.
pub struct HealthFindingView {
    pub id: Seq<char>,
    pub rule: HealthRule,
    pub severity: HealthSeverity,
    pub confidence: Confidence,
    pub affected: Seq<Seq<char>>,
    pub evidence: Seq<Seq<char>>,
    pub metrics: Seq<(Seq<char>, nat)>,
    pub query: Seq<char>,
}

/// The ids of a list of node ids.
pub open spec fn id_views(v: Seq<GraphNodeId>) -> Seq<Seq<char>> {
    v.map_values(|g: GraphNodeId| g@)
}

/// The texts of a list of strings.
pub open spec fn string_views(v: Seq<String>) -> Seq<Seq<char>> {
    v.map_values(|s: String| s@)
}

/// The named values of a metric table.
pub open spec fn metric_views(v: Seq<(String, usize)>) -> Seq<(Seq<char>, nat)> {
    v.map_values(|p: (String, usize)| (p.0@, p.1 as nat))
}

impl View for HealthFinding {
    type V = HealthFindingView;

    open spec fn view(&self) -> HealthFindingView {
        HealthFindingView {
            id: self.id@,
            rule: self.rule,
            severity: self.severity,
            confidence: self.confidence,
            affected: id_views(self.affected_nodes@),
            evidence: string_views(self.evidence@),
            metrics: metric_views(self.metric_inputs@),
            query: self.investigation_query@,
        }
    }
}

impl Clone for HealthFinding {
    fn clone(&self) -> (r: Self)
        ensures
            r@ == self@,
    {
        HealthFinding {
            id: owned(self.id.as_str()),
            rule: self.rule,
            severity: self.severity,
            confidence: self.confidence,
            affected_nodes: crate::model::clone_node_ids(&self.affected_nodes),
            evidence: clone_strings(&self.evidence),
            metric_inputs: clone_metrics(&self.metric_inputs),
            investigation_query: owned(self.investigation_query.as_str()),
        }
    }
}

impl Clone for CommunityCohesion {
    fn clone(&self) -> (r: Self)
        ensures
            r.members@ == self.members@,
            string_views(r.boundary_edges@) == string_views(self.boundary_edges@),
            r.cohesion_percent == self.cohesion_percent,
    {
        CommunityCohesion {
            members: crate::model::clone_node_ids(&self.members),
            boundary_edges: clone_strings(&self.boundary_edges),
            cohesion_percent: self.cohesion_percent,
        }
    }
}

fn clone_metrics(v: &Vec<(String, usize)>) -> (r: Vec<(String, usize)>)
    ensures
        metric_views(r@) == metric_views(v@),
{
    let mut r: Vec<(String, usize)> = Vec::new();
    let mut i: usize = 0;
    while i < v.len()
        invariant
            i <= v@.len(),
            r@.len() == i,
            forall|j: int| 0 <= j < i ==> (#[trigger] r@[j]).0@ == v@[j].0@ && r@[j].1 == v@[j].1,
        decreases v@.len() - i,
    {
        r.push((owned(v[i].0.as_str()), v[i].1));
        i = i + 1;
    }
    assert(metric_views(r@) =~= metric_views(v@));
    r
}

/// The views of a list of findings.
pub open spec fn finding_views(v: Seq<HealthFinding>) -> Seq<HealthFindingView> {
    v.map_values(|f: HealthFinding| f@)
}

/// The name a rule is reported under.
pub open spec fn rule_name(rule: HealthRule) -> Seq<char> {
    match rule {
        HealthRule::GodClass => "GodClass"@,
        HealthRule::BridgeBottleneck => "BridgeBottleneck"@,
        HealthRule::Cycle => "Cycle"@,
        HealthRule::OrphanedCode => "OrphanedCode"@,
        HealthRule::HiddenCoupling => "HiddenCoupling"@,
        HealthRule::LayerViolation => "LayerViolation"@,
        HealthRule::LowCohesionCluster => "LowCohesionCluster"@,
        HealthRule::ShotgunSurgery => "ShotgunSurgery"@,
    }
}

/// The position of a rule in report order.
pub open spec fn rule_rank(rule: HealthRule) -> int {
    match rule {
        HealthRule::GodClass => 0,
        HealthRule::BridgeBottleneck => 1,
        HealthRule::Cycle => 2,
        HealthRule::OrphanedCode => 3,
        HealthRule::HiddenCoupling => 4,
        HealthRule::LayerViolation => 5,
        HealthRule::LowCohesionCluster => 6,
        HealthRule::ShotgunSurgery => 7,
    }
}

/// The texts joined by commas.
pub open spec fn join_commas(s: Seq<Seq<char>>) -> Seq<char>
    decreases s.len(),
{
    if s.len() == 0 {
        Seq::empty()
    } else if s.len() == 1 {
        s[0]
    } else {
        join_commas(s.drop_last()) + ","@ + s.last()
    }
}

/// Strict text order as a value.
pub open spec fn text_order() -> spec_fn(Seq<char>, Seq<char>) -> bool {
    |a: Seq<char>, b: Seq<char>| seq_less(a, b)
}

/// Text equality as a value.
pub open spec fn text_same() -> spec_fn(Seq<char>, Seq<char>) -> bool {
    |a: Seq<char>, b: Seq<char>| a == b
}

/// Node ids sorted and with repeats removed.
pub open spec fn canonical_nodes(nodes: Seq<Seq<char>>) -> Seq<Seq<char>> {
    dedup_spec(sort_spec(nodes, text_order()), text_same())
}

/// The query every finding suggests.
pub open spec fn investigation_text() -> Seq<char> {
    "MATCH (n)-[r]-(m) RETURN n,r,m"@
}

/// What a detector decided: rule, severity, the nodes and evidence it
/// names, and the one metric it measured.
pub struct FindingPlan {
    pub rule: HealthRule,
    pub severity: HealthSeverity,
    pub nodes: Seq<Seq<char>>,
    pub evidence: Seq<Seq<char>>,
    pub metric: Seq<char>,
    pub value: nat,
}

/// The finding a plan produces.
pub open spec fn plan_view(p: FindingPlan) -> HealthFindingView {
    HealthFindingView {
        id: rule_name(p.rule) + ":"@ + join_commas(canonical_nodes(p.nodes)),
        rule: p.rule,
        severity: p.severity,
        confidence: Confidence::High,
        affected: canonical_nodes(p.nodes),
        evidence: p.evidence,
        metrics: seq![(p.metric, p.value)],
        query: investigation_text(),
    }
}

/// [`plan_view`] as a value.
pub open spec fn plan_view_fn() -> spec_fn(FindingPlan) -> HealthFindingView {
    |p: FindingPlan| plan_view(p)
}

/// Report order: by rule, then id.
pub open spec fn finding_lt(a: HealthFindingView, b: HealthFindingView) -> bool {
    rule_rank(a.rule) < rule_rank(b.rule) || (a.rule == b.rule && seq_less(a.id, b.id))
}

/// [`finding_lt`] as a value.
pub open spec fn finding_order() -> spec_fn(HealthFindingView, HealthFindingView) -> bool {
    |a: HealthFindingView, b: HealthFindingView| finding_lt(a, b)
}

/// Findings with the same id.
pub open spec fn same_finding_id() -> spec_fn(HealthFindingView, HealthFindingView) -> bool {
    |a: HealthFindingView, b: HealthFindingView| a.id == b.id
}

/// Both endpoints of every relation, in order.
pub open spec fn endpoints(rels: Seq<RelationView>) -> Seq<Seq<char>>
    decreases rels.len(),
{
    if rels.len() == 0 {
        Seq::empty()
    } else {
        endpoints(rels.drop_last()).push(rels.last().source).push(rels.last().target)
    }
}

/// For every co-change relation, in order, each endpoint paired with the
/// other: `(source, target)` then `(target, source)`.
pub open spec fn cochange_pairs(rels: Seq<RelationView>) -> Seq<(Seq<char>, Seq<char>)>
    decreases rels.len(),
{
    if rels.len() == 0 {
        Seq::empty()
    } else if rels.last().kind == RelationKind::FileChangesWith {
        cochange_pairs(rels.drop_last()).push((rels.last().source, rels.last().target)).push((rels.last().target, rels.last().source))
    } else {
        cochange_pairs(rels.drop_last())
    }
}

/// The first occurrence of every element, in order.
pub open spec fn first_occurrences<T>(s: Seq<T>) -> Seq<T>
    decreases s.len(),
{
    if s.len() == 0 {
        Seq::empty()
    } else if s.drop_last().contains(s.last()) {
        first_occurrences(s.drop_last())
    } else {
        first_occurrences(s.drop_last()).push(s.last())
    }
}

/// A node once for each of its distinct co-change neighbours.
pub open spec fn cochange_neighbours(rels: Seq<RelationView>) -> Seq<Seq<char>> {
    first_occurrences(cochange_pairs(rels)).map_values(|p: (Seq<char>, Seq<char>)| p.0)
}

pub(crate) proof fn lemma_first_occurrences_contains<T>(s: Seq<T>, x: T)
    ensures
        first_occurrences(s).contains(x) <==> s.contains(x),
    decreases s.len(),
{
    if s.len() > 0 {
        lemma_first_occurrences_contains(s.drop_last(), x);
        if s.contains(x) && !s.drop_last().contains(x) {
            assert(x == s.last()) by {
                let i = choose|i: int| 0 <= i < s.len() && s[i] == x;
                if i < s.len() - 1 {
                    assert(s.drop_last()[i] == x);
                }
            }
        }
        if s.drop_last().contains(x) {
            let i = choose|i: int| 0 <= i < s.drop_last().len() && s.drop_last()[i] == x;
            assert(s[i] == x);
        }
    }
}

/// The ids of the nodes.
pub open spec fn node_ids(nodes: Seq<GraphNode>) -> Seq<Seq<char>> {
    nodes.map_values(|n: GraphNode| node_id(n))
}

/// Every node and every relation endpoint, once each, in increasing order,
/// with the number of relation ends at it (a self-loop counts twice).
pub open spec fn degree_entries(nodes: Seq<GraphNode>, rels: Seq<RelationView>) -> Seq<(Seq<char>, nat)> {
    let ends = endpoints(rels).to_multiset();
    sorted_listing(node_ids(nodes).to_set().union(ends.dom())).map_values(|k: Seq<char>| (k, ends.count(k)))
}

/// Every co-change endpoint, once each, in increasing order, with its
/// number of distinct co-change neighbours.
pub open spec fn cochange_entries(rels: Seq<RelationView>) -> Seq<(Seq<char>, nat)> {
    let ends = cochange_neighbours(rels).to_multiset();
    sorted_listing(ends.dom()).map_values(|k: Seq<char>| (k, ends.count(k)))
}

/// A one-node plan whose evidence is that node.
pub open spec fn node_plan(rule: HealthRule, severity: HealthSeverity, node: Seq<char>, metric: Seq<char>, value: nat) -> FindingPlan {
    FindingPlan { rule, severity, nodes: seq![node], evidence: seq![node], metric, value }
}

/// Orphan, god-class, and bridge plans for one degree entry.
pub open spec fn degree_plans(e: (Seq<char>, nat), t: HealthThresholds) -> Seq<FindingPlan> {
    let orphan = if e.1 == 0 {
        seq![node_plan(HealthRule::OrphanedCode, HealthSeverity::Low, e.0, "degree"@, e.1)]
    } else {
        Seq::empty()
    };
    let god = if e.1 >= t.god_class_degree {
        seq![node_plan(HealthRule::GodClass, HealthSeverity::High, e.0, "degree"@, e.1)]
    } else {
        Seq::empty()
    };
    let bridge = if e.1 >= t.bridge_degree {
        seq![node_plan(HealthRule::BridgeBottleneck, HealthSeverity::Medium, e.0, "degree"@, e.1)]
    } else {
        Seq::empty()
    };
    orphan + god + bridge
}

/// The degree plans of every entry, in order.
pub open spec fn node_plans(entries: Seq<(Seq<char>, nat)>, t: HealthThresholds) -> Seq<FindingPlan>
    decreases entries.len(),
{
    if entries.len() == 0 {
        Seq::empty()
    } else {
        node_plans(entries.drop_last(), t) + degree_plans(entries.last(), t)
    }
}

/// Some relation of `rels` runs from `e`'s target back to its source.
pub open spec fn has_reverse(rels: Seq<RelationView>, e: RelationView) -> bool {
    exists|k: int| 0 <= k < rels.len() && #[trigger] rels[k].source == e.target && rels[k].target == e.source
}

/// A two-node plan whose evidence is the relation's id.
pub open spec fn edge_plan(rule: HealthRule, e: RelationView, metric: Seq<char>, value: nat) -> FindingPlan {
    FindingPlan {
        rule,
        severity: HealthSeverity::Medium,
        nodes: seq![e.source, e.target],
        evidence: seq![e.id],
        metric,
        value,
    }
}

/// Coupling, layer, and cycle plans for one relation, cycles judged against `all`.
pub open spec fn relation_plans(e: RelationView, all: Seq<RelationView>) -> Seq<FindingPlan> {
    let coupling = if e.kind == RelationKind::FileChangesWith {
        seq![edge_plan(HealthRule::HiddenCoupling, e, "cochange_edges"@, 1)]
    } else {
        Seq::empty()
    };
    let layer = if e.kind == RelationKind::CrossesServiceBoundary {
        seq![edge_plan(HealthRule::LayerViolation, e, "boundary_crossings"@, 1)]
    } else {
        Seq::empty()
    };
    let cycle = if has_reverse(all, e) && seq_less(e.source, e.target) {
        seq![edge_plan(HealthRule::Cycle, e, "cycle_size"@, 2)]
    } else {
        Seq::empty()
    };
    coupling + layer + cycle
}

/// The relation plans of every relation of `rels`, in order.
pub open spec fn edge_plans(rels: Seq<RelationView>, all: Seq<RelationView>) -> Seq<FindingPlan>
    decreases rels.len(),
{
    if rels.len() == 0 {
        Seq::empty()
    } else {
        edge_plans(rels.drop_last(), all) + relation_plans(rels.last(), all)
    }
}

/// Shotgun-surgery plans for the co-change entries at or above the threshold.
pub open spec fn shotgun_plans(entries: Seq<(Seq<char>, nat)>, t: HealthThresholds) -> Seq<FindingPlan>
    decreases entries.len(),
{
    if entries.len() == 0 {
        Seq::empty()
    } else if entries.last().1 >= t.shotgun_neighbors {
        shotgun_plans(entries.drop_last(), t).push(
            node_plan(HealthRule::ShotgunSurgery, HealthSeverity::High, entries.last().0, "cochange_neighbors"@, entries.last().1),
        )
    } else {
        shotgun_plans(entries.drop_last(), t)
    }
}

/// Low-cohesion plans for the communities at or below the threshold.
pub open spec fn cohesion_plans(communities: Seq<CommunityCohesion>, t: HealthThresholds) -> Seq<FindingPlan>
    decreases communities.len(),
{
    if communities.len() == 0 {
        Seq::empty()
    } else {
        let c = communities.last();
        let prior = cohesion_plans(communities.drop_last(), t);
        if c.cohesion_percent <= t.low_cohesion_percent {
            prior.push(
                FindingPlan {
                    rule: HealthRule::LowCohesionCluster,
                    severity: HealthSeverity::Low,
                    nodes: id_views(c.members@),
                    evidence: string_views(c.boundary_edges@),
                    metric: "cohesion_percent"@,
                    value: c.cohesion_percent as nat,
                },
            )
        } else {
            prior
        }
    }
}

/// Everything the detectors decide, in detection order.
pub open spec fn health_plans(g: crate::model::GraphView, t: HealthThresholds, communities: Seq<CommunityCohesion>) -> Seq<FindingPlan> {
    node_plans(degree_entries(g.nodes, g.relations), t) + edge_plans(g.relations, g.relations) + shotgun_plans(
        cochange_entries(g.relations),
        t,
    ) + cohesion_plans(communities, t)
}

/// The report: every planned finding, ordered by rule then id, each id once
/// (the first in order wins).
pub open spec fn health_report(g: crate::model::GraphView, t: HealthThresholds, communities: Seq<CommunityCohesion>) -> Seq<HealthFindingView> {
    dedup_spec(sort_spec(health_plans(g, t, communities).map_values(plan_view_fn()), finding_order()), same_finding_id())
}

/// A finding's id starts with its rule's name and a colon.
pub open spec fn id_names_rule(f: HealthFindingView) -> bool {
    let name = rule_name(f.rule);
    &&& f.id.len() > name.len()
    &&& f.id.take(name.len() as int) == name
    &&& f.id[name.len() as int] == ':'
}

proof fn lemma_plan_names_rule(p: FindingPlan)
    ensures
        id_names_rule(plan_view(p)),
{
    reveal_strlit(":");
    let name = rule_name(p.rule);
    let id = plan_view(p).id;
    let rest = join_commas(canonical_nodes(p.nodes));
    assert(id == name + ":"@ + rest);
    assert(id.take(name.len() as int) =~= name);
    assert(id[name.len() as int] == ":"@[0]);
}

proof fn lemma_id_names_rule(a: HealthFindingView, b: HealthFindingView)
    requires
        id_names_rule(a),
        id_names_rule(b),
        a.id == b.id,
    ensures
        a.rule == b.rule,
{
    reveal_strlit("GodClass");
    reveal_strlit("BridgeBottleneck");
    reveal_strlit("Cycle");
    reveal_strlit("OrphanedCode");
    reveal_strlit("HiddenCoupling");
    reveal_strlit("LayerViolation");
    reveal_strlit("LowCohesionCluster");
    reveal_strlit("ShotgunSurgery");
    let na = rule_name(a.rule);
    let nb = rule_name(b.rule);
    if na.len() < nb.len() {
        assert(a.id.take(nb.len() as int)[na.len() as int] == a.id[na.len() as int]);
        assert(nb[na.len() as int] == ':');
    } else if nb.len() < na.len() {
        assert(b.id.take(na.len() as int)[nb.len() as int] == b.id[nb.len() as int]);
        assert(na[nb.len() as int] == ':');
    } else {
        assert(na == nb);
        assert(na.len() == nb.len() && na[0] == nb[0]);
    }
}

proof fn lemma_finding_order()
    ensures
        crate::sorting::transitive(finding_order()),
        crate::sorting::irreflexive(finding_order()),
{
    assert forall|a: HealthFindingView, b: HealthFindingView, c: HealthFindingView|
        #[trigger] finding_order()(a, b) && #[trigger] finding_order()(b, c) implies finding_order()(a, c) by {
        if a.rule == b.rule && b.rule == c.rule && seq_less(a.id, b.id) && seq_less(b.id, c.id) {
            crate::text::lemma_less_transitive(a.id, b.id, c.id);
        }
    }
    assert forall|a: HealthFindingView| !#[trigger] finding_order()(a, a) by {
        crate::text::lemma_less_irreflexive(a.id);
    }
}

/// No two findings of a health report share an id: findings with one id
/// have one rule, so ordering by rule then id puts them next to each other,
/// and only the first of them is kept.
pub proof fn lemma_report_ids_unique(g: crate::model::GraphView, t: HealthThresholds, communities: Seq<CommunityCohesion>)
    ensures
        forall|i: int, j: int|
            0 <= i < j < health_report(g, t, communities).len() ==> #[trigger] health_report(g, t, communities)[i].id
                != #[trigger] health_report(g, t, communities)[j].id,
{
    let plans = health_plans(g, t, communities);
    let views = plans.map_values(plan_view_fn());
    let lt = finding_order();
    let same = same_finding_id();
    let sorted = sort_spec(views, lt);
    lemma_finding_order();
    crate::sorting::lemma_sort_spec(views, lt);
    assert forall|k: int| 0 <= k < sorted.len() implies id_names_rule(#[trigger] sorted[k]) by {
        assert(sorted.to_multiset().count(sorted[k]) > 0);
        assert(views.contains(sorted[k]));
        let m = choose|m: int| 0 <= m < views.len() && views[m] == sorted[k];
        lemma_plan_names_rule(plans[m]);
    }
    assert forall|i: int, j: int, k: int|
        #![trigger same(sorted[i], sorted[k]), sorted[j]]
        0 <= i <= j <= k < sorted.len() && same(sorted[i], sorted[k]) implies same(sorted[j], sorted[k]) by {
        let a = sorted[i];
        let b = sorted[j];
        let c = sorted[k];
        lemma_id_names_rule(a, c);
        if i < j {
            assert(!lt(b, a));
        }
        if j < k {
            assert(!lt(c, b));
        }
        crate::text::lemma_less_total(b.id, c.id);
    }
    crate::sorting::lemma_dedup_distinct(sorted, same);
    let d = dedup_spec(sorted, same);
    assert forall|i: int, j: int| 0 <= i < j < d.len() implies #[trigger] d[i].id != #[trigger] d[j].id by {
        assert(!same(d[i], d[j]));
    }
}

fn rule_label(rule: HealthRule) -> (r: &'static str)
    ensures
        r@ == rule_name(rule),
{
    match rule {
        HealthRule::GodClass => "GodClass",
        HealthRule::BridgeBottleneck => "BridgeBottleneck",
        HealthRule::Cycle => "Cycle",
        HealthRule::OrphanedCode => "OrphanedCode",
        HealthRule::HiddenCoupling => "HiddenCoupling",
        HealthRule::LayerViolation => "LayerViolation",
        HealthRule::LowCohesionCluster => "LowCohesionCluster",
        HealthRule::ShotgunSurgery => "ShotgunSurgery",
    }
}

fn rule_position(rule: HealthRule) -> (r: u8)
    ensures
        r as int == rule_rank(rule),
{
    match rule {
        HealthRule::GodClass => 0,
        HealthRule::BridgeBottleneck => 1,
        HealthRule::Cycle => 2,
        HealthRule::OrphanedCode => 3,
        HealthRule::HiddenCoupling => 4,
        HealthRule::LayerViolation => 5,
        HealthRule::LowCohesionCluster => 6,
        HealthRule::ShotgunSurgery => 7,
    }
}

fn id_less(a: &GraphNodeId, b: &GraphNodeId) -> (r: bool)
    ensures
        r == seq_less(a@, b@),
{
    str_less(a.as_str(), b.as_str())
}

fn id_same(a: &GraphNodeId, b: &GraphNodeId) -> (r: bool)
    ensures
        r == (a@ == b@),
{
    a.same(b)
}

/// Orders node ids by their text.
pub open spec fn id_order() -> spec_fn(GraphNodeId, GraphNodeId) -> bool {
    |a: GraphNodeId, b: GraphNodeId| seq_less(a@, b@)
}

/// Node ids with the same text.
pub open spec fn id_same_order() -> spec_fn(GraphNodeId, GraphNodeId) -> bool {
    |a: GraphNodeId, b: GraphNodeId| a@ == b@
}

/// [`GraphNodeId`]'s view as a value.
pub open spec fn id_view_fn() -> spec_fn(GraphNodeId) -> Seq<char> {
    |g: GraphNodeId| g@
}

pub fn canonical(nodes: Vec<GraphNodeId>) -> (r: Vec<GraphNodeId>)
    ensures
        id_views(r@) == canonical_nodes(id_views(nodes@)),
{
    let ghost before = nodes@;
    let sorted = sort_by(nodes, id_less, Ghost(id_order()));
    let ghost sorted_view = sorted@;
    let deduped = dedup_by(sorted, id_same, Ghost(id_same_order()));
    proof {
        assert forall|a: GraphNodeId, b: GraphNodeId| #[trigger] (id_order())(a, b) == (text_order())(
            (id_view_fn())(a),
            (id_view_fn())(b),
        ) by {}
        lemma_sort_map(before, id_view_fn(), id_order(), text_order());
        assert forall|a: GraphNodeId, b: GraphNodeId| #[trigger] (id_same_order())(a, b) == (text_same())(
            (id_view_fn())(a),
            (id_view_fn())(b),
        ) by {}
        lemma_dedup_map(sorted_view, id_view_fn(), id_same_order(), text_same());
        assert(id_views(before) =~= before.map_values(id_view_fn()));
        assert(id_views(sorted_view) =~= sorted_view.map_values(id_view_fn()));
        assert(id_views(deduped@) =~= deduped@.map_values(id_view_fn()));
    }
    deduped
}

fn joined(nodes: &Vec<GraphNodeId>) -> (r: String)
    ensures
        r@ == join_commas(id_views(nodes@)),
{
    let mut out = String::new();
    let mut i: usize = 0;
    proof {
        reveal_strlit("");
    }
    assert(id_views(nodes@).subrange(0, 0) =~= Seq::<Seq<char>>::empty());
    while i < nodes.len()
        invariant
            i <= nodes@.len(),
            out@ == join_commas(id_views(nodes@).subrange(0, i as int)),
        decreases nodes@.len() - i,
    {
        let ghost prefix = id_views(nodes@).subrange(0, i + 1);
        assert(prefix.drop_last() =~= id_views(nodes@).subrange(0, i as int));
        if i == 0 {
            out = owned(nodes[i].as_str());
            assert(out@ =~= join_commas(prefix));
        } else {
            let with_comma = cat(out.as_str(), ",");
            out = cat(with_comma.as_str(), nodes[i].as_str());
        }
        i = i + 1;
    }
    assert(id_views(nodes@).subrange(0, i as int) =~= id_views(nodes@));
    out
}

fn investigation() -> (r: String)
    ensures
        r@ == investigation_text(),
{
    owned("MATCH (n)-[r]-(m) RETURN n,r,m")
}

fn one_metric(name: &str, value: usize) -> (r: Vec<(String, usize)>)
    ensures
        metric_views(r@) == seq![(name@, value as nat)],
{
    let r = vec![(owned(name), value)];
    assert(metric_views(r@) =~= seq![(name@, value as nat)]);
    r
}

fn finding(
    rule: HealthRule,
    severity: HealthSeverity,
    nodes: Vec<GraphNodeId>,
    evidence: Vec<String>,
    metric: &str,
    value: usize,
) -> (f: HealthFinding)
    ensures
        f@ == plan_view(
            FindingPlan {
                rule,
                severity,
                nodes: id_views(nodes@),
                evidence: string_views(evidence@),
                metric: metric@,
                value: value as nat,
            },
        ),
{
    let affected = canonical(nodes);
    let ids = joined(&affected);
    let head = cat(rule_label(rule), ":");
    let id = cat(head.as_str(), ids.as_str());
    HealthFinding {
        id,
        rule,
        severity,
        confidence: Confidence::High,
        affected_nodes: affected,
        evidence,
        metric_inputs: one_metric(metric, value),
        investigation_query: investigation(),
    }
}

fn node_finding(rule: HealthRule, severity: HealthSeverity, node: &str, metric: &str, value: usize) -> (f: HealthFinding)
    ensures
        f@ == plan_view(node_plan(rule, severity, node@, metric@, value as nat)),
{
    let nodes = vec![GraphNodeId::new(node)];
    let evidence = vec![owned(node)];
    assert(id_views(nodes@) =~= seq![node@]);
    assert(string_views(evidence@) =~= seq![node@]);
    finding(rule, severity, nodes, evidence, metric, value)
}

fn edge_finding(rule: HealthRule, e: &Relation, metric: &str, value: usize) -> (f: HealthFinding)
    ensures
        f@ == plan_view(edge_plan(rule, e@, metric@, value as nat)),
{
    let nodes = vec![e.source.clone(), e.target.clone()];
    let evidence = vec![e.id.clone()];
    assert(id_views(nodes@) =~= seq![e.source@, e.target@]);
    assert(string_views(evidence@) =~= seq![e.id@]);
    finding(rule, HealthSeverity::Medium, nodes, evidence, metric, value)
}

/// The table of relation ends per node: every node id with zero, then one
/// more for each end of each relation.
fn degree_table(graph: &Graph) -> (t: Vec<(String, usize)>)
    requires
        graph.relations@.len() * 2 < usize::MAX,
    ensures
        counts(t@, node_ids(graph.nodes@).to_set(), endpoints(graph@.relations).to_multiset()),
{
    let ghost g = graph@;
    let mut table: Vec<(String, usize)> = Vec::new();
    proof {
        lemma_counts_empty();
        assert(node_ids(graph.nodes@).subrange(0, 0).to_set() =~= Set::<Seq<char>>::empty());
    }
    let mut i: usize = 0;
    while i < graph.nodes.len()
        invariant
            i <= graph.nodes@.len(),
            counts(table@, node_ids(graph.nodes@).subrange(0, i as int).to_set(), Multiset::empty()),
        decreases graph.nodes@.len() - i,
    {
        let ghost keys = node_ids(graph.nodes@).subrange(0, i as int).to_set();
        count_touch(&mut table, graph.nodes[i].id().as_str(), Ghost(keys), Ghost(Multiset::empty()));
        assert(node_ids(graph.nodes@).subrange(0, i + 1) =~= node_ids(graph.nodes@).subrange(0, i as int).push(
            node_id(graph.nodes@[i as int]),
        ));
        assert(node_ids(graph.nodes@).subrange(0, i + 1).to_set() =~= keys.insert(node_id(graph.nodes@[i as int])));
        i = i + 1;
    }
    assert(node_ids(graph.nodes@).subrange(0, i as int) =~= node_ids(graph.nodes@));
    assert(g.relations.subrange(0, 0) =~= Seq::<RelationView>::empty());
    assert(endpoints(g.relations.subrange(0, 0)) =~= Seq::<Seq<char>>::empty());
    assert(Seq::<Seq<char>>::empty().to_multiset() =~= Multiset::<Seq<char>>::empty());
    let ghost keys = node_ids(graph.nodes@).to_set();
    let mut j: usize = 0;
    while j < graph.relations.len()
        invariant
            j <= graph.relations@.len(),
            graph.relations@.len() * 2 < usize::MAX,
            g == graph@,
            keys == node_ids(graph.nodes@).to_set(),
            counts(table@, keys, endpoints(g.relations.subrange(0, j as int)).to_multiset()),
            endpoints(g.relations.subrange(0, j as int)).len() == 2 * j,
        decreases graph.relations@.len() - j,
    {
        let r = &graph.relations[j];
        let ghost prior = endpoints(g.relations.subrange(0, j as int));
        assert(g.relations.subrange(0, j + 1).drop_last() =~= g.relations.subrange(0, j as int));
        assert(g.relations[j as int] == r@);
        count_add(&mut table, r.source.as_str(), Ghost(keys), Ghost(prior.to_multiset()));
        assert(prior.push(r.source@).to_multiset() =~= prior.to_multiset().insert(r.source@));
        count_add(&mut table, r.target.as_str(), Ghost(keys), Ghost(prior.push(r.source@).to_multiset()));
        assert(prior.push(r.source@).push(r.target@).to_multiset() =~= prior.push(r.source@).to_multiset().insert(r.target@));
        j = j + 1;
    }
    assert(g.relations.subrange(0, j as int) =~= g.relations);
    table
}

/// Whether the pair `(a, b)` is among `seen`.
fn seen_pair(seen: &Vec<(String, String)>, a: &str, b: &str) -> (r: bool)
    ensures
        r == pair_views(seen@).contains((a@, b@)),
{
    let mut i: usize = 0;
    while i < seen.len()
        invariant
            i <= seen@.len(),
            forall|k: int| 0 <= k < i ==> pair_views(seen@)[k] != (a@, b@),
        decreases seen@.len() - i,
    {
        if str_eq(seen[i].0.as_str(), a) && str_eq(seen[i].1.as_str(), b) {
            assert(pair_views(seen@)[i as int] == (a@, b@));
            return true;
        }
        i = i + 1;
    }
    false
}

/// The values of a list of text pairs.
pub open spec fn pair_views(s: Seq<(String, String)>) -> Seq<(Seq<char>, Seq<char>)> {
    s.map_values(|p: (String, String)| (p.0@, p.1@))
}

/// Records the pair `(a, b)` unless it is recorded, counting a new pair for `a`.
fn note_pair(
    seen: &mut Vec<(String, String)>,
    table: &mut Vec<(String, usize)>,
    a: &str,
    b: &str,
    Ghost(prior): Ghost<Seq<(Seq<char>, Seq<char>)>>,
)
    requires
        pair_views(old(seen)@) == first_occurrences(prior),
        counts(old(table)@, Set::empty(), first_occurrences(prior).map_values(|p: (Seq<char>, Seq<char>)| p.0).to_multiset()),
        old(seen)@.len() < usize::MAX - 1,
    ensures
        pair_views(final(seen)@) == first_occurrences(prior.push((a@, b@))),
        counts(
            final(table)@,
            Set::empty(),
            first_occurrences(prior.push((a@, b@))).map_values(|p: (Seq<char>, Seq<char>)| p.0).to_multiset(),
        ),
        final(seen)@.len() <= old(seen)@.len() + 1,
{
    let ghost x = (a@, b@);
    let ghost next = prior.push(x);
    assert(next.drop_last() =~= prior);
    assert(next.last() == x);
    proof {
        lemma_first_occurrences_contains(prior, x);
    }
    if !seen_pair(seen, a, b) {
        let ghost fo = first_occurrences(prior);
        assert(fo.map_values(|p: (Seq<char>, Seq<char>)| p.0).len() == fo.len());
        count_add(table, a, Ghost(Set::empty()), Ghost(fo.map_values(|p: (Seq<char>, Seq<char>)| p.0).to_multiset()));
        seen.push((owned(a), owned(b)));
        assert(pair_views(seen@) =~= fo.push(x));
        assert(fo.push(x).map_values(|p: (Seq<char>, Seq<char>)| p.0) =~= fo.map_values(|p: (Seq<char>, Seq<char>)| p.0).push(a@));
    }
}

/// The table of distinct co-change neighbours per node.
fn cochange_table(graph: &Graph) -> (t: Vec<(String, usize)>)
    requires
        graph.relations@.len() * 2 < usize::MAX,
    ensures
        counts(t@, Set::empty(), cochange_neighbours(graph@.relations).to_multiset()),
{
    let ghost g = graph@;
    let mut table: Vec<(String, usize)> = Vec::new();
    let mut seen: Vec<(String, String)> = Vec::new();
    proof {
        lemma_counts_empty();
    }
    assert(g.relations.subrange(0, 0) =~= Seq::<RelationView>::empty());
    assert(cochange_pairs(g.relations.subrange(0, 0)) =~= Seq::<(Seq<char>, Seq<char>)>::empty());
    assert(pair_views(seen@) =~= Seq::<(Seq<char>, Seq<char>)>::empty());
    assert(first_occurrences(Seq::<(Seq<char>, Seq<char>)>::empty()).map_values(|p: (Seq<char>, Seq<char>)| p.0).to_multiset()
        =~= Multiset::<Seq<char>>::empty());
    let mut j: usize = 0;
    while j < graph.relations.len()
        invariant
            j <= graph.relations@.len(),
            graph.relations@.len() * 2 < usize::MAX,
            g == graph@,
            pair_views(seen@) == first_occurrences(cochange_pairs(g.relations.subrange(0, j as int))),
            counts(
                table@,
                Set::empty(),
                first_occurrences(cochange_pairs(g.relations.subrange(0, j as int))).map_values(|p: (Seq<char>, Seq<char>)| p.0).to_multiset(),
            ),
            seen@.len() <= 2 * j,
        decreases graph.relations@.len() - j,
    {
        let r = &graph.relations[j];
        let ghost prior = cochange_pairs(g.relations.subrange(0, j as int));
        assert(g.relations.subrange(0, j + 1).drop_last() =~= g.relations.subrange(0, j as int));
        assert(g.relations[j as int] == r@);
        if r.kind == RelationKind::FileChangesWith {
            note_pair(&mut seen, &mut table, r.source.as_str(), r.target.as_str(), Ghost(prior));
            note_pair(&mut seen, &mut table, r.target.as_str(), r.source.as_str(), Ghost(prior.push((r.source@, r.target@))));
        }
        j = j + 1;
    }
    assert(g.relations.subrange(0, j as int) =~= g.relations);
    table
}

/// The `(key, count)` values of a count table.
pub open spec fn entry_views(t: Seq<(String, usize)>) -> Seq<(Seq<char>, nat)> {
    t.map_values(|p: (String, usize)| (p.0@, p.1 as nat))
}

proof fn lemma_table_entries(t: Seq<(String, usize)>, keys: Set<Seq<char>>, items: Multiset<Seq<char>>)
    requires
        counts(t, keys, items),
    ensures
        entry_views(t) == sorted_listing(keys.union(items.dom())).map_values(|k: Seq<char>| (k, items.count(k))),
{
    lemma_sorted_listing(keys_of(t), keys.union(items.dom()));
    assert(entry_views(t) =~= keys_of(t).map_values(|k: Seq<char>| (k, items.count(k))));
}

fn has_reverse_edge(rels: &Vec<Relation>, e: &Relation, Ghost(all): Ghost<Seq<RelationView>>) -> (b: bool)
    requires
        all == rels@.map_values(|r: Relation| r@),
    ensures
        b == has_reverse(all, e@),
{
    let mut k: usize = 0;
    while k < rels.len()
        invariant
            k <= rels@.len(),
            all == rels@.map_values(|r: Relation| r@),
            forall|m: int| 0 <= m < k ==> !(#[trigger] all[m].source == e@.target && all[m].target == e@.source),
        decreases rels@.len() - k,
    {
        if rels[k].source.same(&e.target) && rels[k].target.same(&e.source) {
            assert(all[k as int].source == e@.target && all[k as int].target == e@.source);
            return true;
        }
        k = k + 1;
    }
    false
}

fn finding_less(a: &HealthFinding, b: &HealthFinding) -> (r: bool)
    ensures
        r == finding_lt(a@, b@),
{
    let ra = rule_position(a.rule);
    let rb = rule_position(b.rule);
    ra < rb || (ra == rb && str_less(a.id.as_str(), b.id.as_str()))
}

fn finding_same(a: &HealthFinding, b: &HealthFinding) -> (r: bool)
    ensures
        r == (a@.id == b@.id),
{
    str_eq(a.id.as_str(), b.id.as_str())
}

/// Report order on findings.
pub open spec fn finding_value_order() -> spec_fn(HealthFinding, HealthFinding) -> bool {
    |a: HealthFinding, b: HealthFinding| finding_lt(a@, b@)
}

/// Findings with the same id, as values.
pub open spec fn finding_value_same() -> spec_fn(HealthFinding, HealthFinding) -> bool {
    |a: HealthFinding, b: HealthFinding| a@.id == b@.id
}

/// A finding's view as a value.
pub open spec fn finding_view_fn() -> spec_fn(HealthFinding) -> HealthFindingView {
    |f: HealthFinding| f@
}

/// Runs every offline detector with the supplied conservative thresholds:
/// orphaned, god-class, and bridge nodes by degree; hidden coupling, layer
/// violations, and two-node cycles by relation; shotgun surgery by the number of distinct co-change
/// neighbours; and low-cohesion clusters among `communities`. The result is
/// exactly [`health_report`]: ordered by rule then id, each id once.
pub fn detect_health(graph: &Graph, thresholds: &HealthThresholds, communities: &Vec<CommunityCohesion>) -> (r: Vec<HealthFinding>)
    requires
        graph.relations@.len() * 2 < usize::MAX,
    ensures
        finding_views(r@) == health_report(graph@, *thresholds, communities@),
{
    let ghost g = graph@;
    let ghost t = *thresholds;
    let degrees = degree_table(graph);
    let ghost dentries = entry_views(degrees@);
    proof {
        lemma_table_entries(degrees@, node_ids(graph.nodes@).to_set(), endpoints(g.relations).to_multiset());
        assert(dentries == degree_entries(g.nodes, g.relations));
    }
    let mut findings: Vec<HealthFinding> = Vec::new();
    let mut i: usize = 0;
    while i < degrees.len()
        invariant
            i <= degrees@.len(),
            dentries == entry_views(degrees@),
            t == *thresholds,
            finding_views(findings@) == node_plans(dentries.subrange(0, i as int), t).map_values(plan_view_fn()),
        decreases degrees@.len() - i,
    {
        let ghost before = finding_views(findings@);
        let key = degrees[i].0.as_str();
        let degree = degrees[i].1;
        assert(dentries.subrange(0, i + 1).drop_last() =~= dentries.subrange(0, i as int));
        assert(dentries[i as int] == (key@, degree as nat));
        let ghost plans = degree_plans((key@, degree as nat), t);
        if degree == 0 {
            findings.push(node_finding(HealthRule::OrphanedCode, HealthSeverity::Low, key, "degree", degree));
        }
        if degree >= thresholds.god_class_degree {
            findings.push(node_finding(HealthRule::GodClass, HealthSeverity::High, key, "degree", degree));
        }
        if degree >= thresholds.bridge_degree {
            findings.push(node_finding(HealthRule::BridgeBottleneck, HealthSeverity::Medium, key, "degree", degree));
        }
        assert(finding_views(findings@) =~= before + plans.map_values(plan_view_fn()));
        i = i + 1;
    }
    assert(dentries.subrange(0, i as int) =~= dentries);
    let ghost after_nodes = finding_views(findings@);
    let ghost all = g.relations;
    let mut j: usize = 0;
    while j < graph.relations.len()
        invariant
            j <= graph.relations@.len(),
            g == graph@,
            all == g.relations,
            finding_views(findings@) == after_nodes + edge_plans(all.subrange(0, j as int), all).map_values(plan_view_fn()),
        decreases graph.relations@.len() - j,
    {
        let ghost before = finding_views(findings@);
        let e = &graph.relations[j];
        assert(all.subrange(0, j + 1).drop_last() =~= all.subrange(0, j as int));
        assert(all[j as int] == e@);
        if e.kind == RelationKind::FileChangesWith {
            findings.push(edge_finding(HealthRule::HiddenCoupling, e, "cochange_edges", 1));
        }
        if e.kind == RelationKind::CrossesServiceBoundary {
            findings.push(edge_finding(HealthRule::LayerViolation, e, "boundary_crossings", 1));
        }
        if has_reverse_edge(&graph.relations, e, Ghost(all)) && str_less(e.source.as_str(), e.target.as_str()) {
            findings.push(edge_finding(HealthRule::Cycle, e, "cycle_size", 2));
        }
        assert(finding_views(findings@) =~= before + relation_plans(e@, all).map_values(plan_view_fn()));
        assert(edge_plans(all.subrange(0, j + 1), all) == edge_plans(all.subrange(0, j as int), all) + relation_plans(e@, all));
        j = j + 1;
    }
    assert(all.subrange(0, j as int) =~= all);
    let cochange = cochange_table(graph);
    let ghost centries = entry_views(cochange@);
    proof {
        lemma_table_entries(cochange@, Set::empty(), cochange_neighbours(g.relations).to_multiset());
        assert(Set::<Seq<char>>::empty().union(cochange_neighbours(g.relations).to_multiset().dom())
            =~= cochange_neighbours(g.relations).to_multiset().dom());
        assert(centries == cochange_entries(g.relations));
    }
    let ghost after_edges = finding_views(findings@);
    let mut c: usize = 0;
    while c < cochange.len()
        invariant
            c <= cochange@.len(),
            centries == entry_views(cochange@),
            t == *thresholds,
            finding_views(findings@) == after_edges + shotgun_plans(centries.subrange(0, c as int), t).map_values(plan_view_fn()),
        decreases cochange@.len() - c,
    {
        let ghost before = finding_views(findings@);
        let key = cochange[c].0.as_str();
        let count = cochange[c].1;
        assert(centries.subrange(0, c + 1).drop_last() =~= centries.subrange(0, c as int));
        assert(centries[c as int] == (key@, count as nat));
        let ghost prior = shotgun_plans(centries.subrange(0, c as int), t);
        assert(centries.subrange(0, c + 1).last() == (key@, count as nat));
        if count >= thresholds.shotgun_neighbors {
            let f = node_finding(HealthRule::ShotgunSurgery, HealthSeverity::High, key, "cochange_neighbors", count);
            findings.push(f);
            let ghost p = node_plan(HealthRule::ShotgunSurgery, HealthSeverity::High, key@, "cochange_neighbors"@, count as nat);
            assert(shotgun_plans(centries.subrange(0, c + 1), t) == prior.push(p));
            assert(prior.push(p).map_values(plan_view_fn()) =~= prior.map_values(plan_view_fn()).push(plan_view(p)));
            assert(finding_views(findings@) =~= before.push(f@));
        } else {
            assert(shotgun_plans(centries.subrange(0, c + 1), t) == prior);
        }
        assert(finding_views(findings@) =~= after_edges + shotgun_plans(centries.subrange(0, c + 1), t).map_values(plan_view_fn()));
        c = c + 1;
    }
    assert(centries.subrange(0, c as int) =~= centries);
    let ghost after_shotgun = finding_views(findings@);
    let mut m: usize = 0;
    while m < communities.len()
        invariant
            m <= communities@.len(),
            t == *thresholds,
            finding_views(findings@) == after_shotgun + cohesion_plans(communities@.subrange(0, m as int), t).map_values(plan_view_fn()),
        decreases communities@.len() - m,
    {
        let ghost before = finding_views(findings@);
        let community = &communities[m];
        assert(communities@.subrange(0, m + 1).drop_last() =~= communities@.subrange(0, m as int));
        assert(communities@.subrange(0, m + 1).last() == *community);
        let ghost prior = cohesion_plans(communities@.subrange(0, m as int), t);
        if community.cohesion_percent <= thresholds.low_cohesion_percent as usize {
            let members = crate::model::clone_node_ids(&community.members);
            let boundary = clone_strings(&community.boundary_edges);
            let f = finding(
                HealthRule::LowCohesionCluster,
                HealthSeverity::Low,
                members,
                boundary,
                "cohesion_percent",
                community.cohesion_percent,
            );
            findings.push(f);
            let ghost p = FindingPlan {
                rule: HealthRule::LowCohesionCluster,
                severity: HealthSeverity::Low,
                nodes: id_views(community.members@),
                evidence: string_views(community.boundary_edges@),
                metric: "cohesion_percent"@,
                value: community.cohesion_percent as nat,
            };
            assert(cohesion_plans(communities@.subrange(0, m + 1), t) == prior.push(p));
            assert(prior.push(p).map_values(plan_view_fn()) =~= prior.map_values(plan_view_fn()).push(plan_view(p)));
            assert(finding_views(findings@) =~= before.push(f@));
        } else {
            assert(cohesion_plans(communities@.subrange(0, m + 1), t) == prior);
        }
        assert(finding_views(findings@) =~= after_shotgun + cohesion_plans(communities@.subrange(0, m + 1), t).map_values(plan_view_fn()));
        m = m + 1;
    }
    assert(communities@.subrange(0, m as int) =~= communities@);
    let ghost planned = findings@;
    assert(finding_views(planned) == health_plans(g, t, communities@).map_values(plan_view_fn()));
    let sorted = sort_by(findings, finding_less, Ghost(finding_value_order()));
    let ghost sorted_v = sorted@;
    let deduped = dedup_by(sorted, finding_same, Ghost(finding_value_same()));
    proof {
        assert forall|a: HealthFinding, b: HealthFinding| #[trigger] (finding_value_order())(a, b) == (finding_order())(
            (finding_view_fn())(a),
            (finding_view_fn())(b),
        ) by {}
        lemma_sort_map(planned, finding_view_fn(), finding_value_order(), finding_order());
        assert forall|a: HealthFinding, b: HealthFinding| #[trigger] (finding_value_same())(a, b) == (same_finding_id())(
            (finding_view_fn())(a),
            (finding_view_fn())(b),
        ) by {}
        lemma_dedup_map(sorted_v, finding_view_fn(), finding_value_same(), same_finding_id());
        assert(finding_views(planned) =~= planned.map_values(finding_view_fn()));
        assert(finding_views(sorted_v) =~= sorted_v.map_values(finding_view_fn()));
        assert(finding_views(deduped@) =~= deduped@.map_values(finding_view_fn()));
    }
    deduped
}

fn clone_strings(v: &Vec<String>) -> (r: Vec<String>)
    ensures
        string_views(r@) == string_views(v@),
{
    let mut r: Vec<String> = Vec::new();
    let mut i: usize = 0;
    while i < v.len()
        invariant
            i <= v@.len(),
            r@.len() == i,
            forall|j: int| 0 <= j < i ==> (#[trigger] r@[j])@ == v@[j]@,
        decreases v@.len() - i,
    {
        r.push(owned(v[i].as_str()));
        i = i + 1;
    }
    assert(string_views(r@) =~= string_views(v@));
    r
}

} // verus!

//! Package manifests as graph facts: the package a manifest belongs to and
//! the packages it depends on, related with the provenance of the
//! manifest's format.

use vstd::prelude::*;
use crate::builder::{lemma_package_keeps_local, lemma_package_step, local_package_under, package_slot, node_keys, numbered, BuilderState};
use crate::builder::Artifact;
use crate::infra::{observed, same_frame, AnalyzerOutput, PlannedRelation};
use crate::model::{Confidence, EvidenceRef, GraphNodeId, Relation, RelationKind, RelationProvenance, RelationResolution};
use crate::clone_tokens::unicode_alphanumeric;
use crate::text::{chars_of, owned, string_between};

verus! {

broadcast use vstd::seq_lib::group_seq_properties;

/// A package that a manifest names, with the evidence of where it is named.
pub struct DeclaredPackage {
    pub name: String,
    pub evidence: EvidenceRef,
}

/// What a package manifest declares: the package it belongs to, when its
/// format names one, and the packages it depends on, in file order.
pub struct PackageManifestAnalysis {
    pub local_package: Option<DeclaredPackage>,
    pub dependencies: Vec<DeclaredPackage>,
}

/// The id of the package node named `name`.
pub open spec fn package_id(name: Seq<char>) -> Seq<char> {
    "package:"@ + name
}

/// `p` is the provenance of a relation read from a file of format
/// `language`: the resolver strategy that the language registry lists for
/// the format (`listed`), or syntax extraction where it lists none.
pub open spec fn format_provenance_of(
    p: RelationProvenance,
    language: Seq<char>,
    listed: Option<Seq<char>>,
    resolution: RelationResolution,
    confidence: Confidence,
) -> bool {
    &&& p.language matches Some(l) && l@ == language
    &&& p.resolver_strategy@ == match listed {
        Some(s) => s,
        None => "syntax-extraction"@,
    }
    &&& p.resolution == resolution
    &&& p.confidence == confidence
}

/// The provenance of a relation read from a file of format `language`,
/// given the resolver strategy the language registry lists for it, if any.
pub fn format_provenance(language: &str, listed: Option<&str>, resolution: RelationResolution, confidence: Confidence) -> (p:
    RelationProvenance)
    ensures
        format_provenance_of(p, language@, listed_view(listed), resolution, confidence),
{
    let resolver_strategy = match listed {
        Some(s) => owned(s),
        None => owned("syntax-extraction"),
    };
    RelationProvenance { language: Some(owned(language)), resolver_strategy, resolution, confidence }
}

/// `r` is the relation recorded for `p` as the `number`th, with provenance `prov`.
pub open spec fn provenanced_relation(r: Relation, number: int, p: PlannedRelation, prov: RelationProvenance) -> bool {
    &&& numbered(r@, number)
    &&& r@.source == p.source
    &&& r@.target == p.target
    &&& r.kind == p.kind
    &&& r.confidence == p.confidence
    &&& r.evidence@ == p.evidence
    &&& r.provenance == Some(prov)
}

/// From position `from` on, `rels` are exactly the plan with provenance
/// `prov`, numbered on from `count`.
pub open spec fn recorded_with(rels: Seq<Relation>, from: int, count: int, plan: Seq<PlannedRelation>, prov: RelationProvenance) -> bool {
    &&& rels.len() == from + plan.len()
    &&& forall|i: int| 0 <= i < plan.len() ==> provenanced_relation(#[trigger] rels[from + i], count + i + 1, plan[i], prov)
}

/// One `DependsOnPackage` relation from `source` to each dependency, in order.
pub open spec fn dependency_plans(source: Seq<char>, deps: Seq<DeclaredPackage>) -> Seq<PlannedRelation> {
    deps.map_values(|d: DeclaredPackage| observed(source, package_id(d.name@), RelationKind::DependsOnPackage, d.evidence))
}

/// What a manifest relates: the artifact belongs to its local package, and
/// the dependencies hang off that package, or off the artifact when the
/// format names no package of its own.
pub open spec fn manifest_plan(node: Seq<char>, a: PackageManifestAnalysis) -> Seq<PlannedRelation> {
    match a.local_package {
        Some(l) => seq![observed(node, package_id(l.name@), RelationKind::BelongsToPackage, l.evidence)] + dependency_plans(
            package_id(l.name@),
            a.dependencies@,
        ),
        None => dependency_plans(node, a.dependencies@),
    }
}

/// The package ids of the given declarations.
pub open spec fn declared_ids(ds: Seq<DeclaredPackage>) -> Set<Seq<char>> {
    ds.map_values(|d: DeclaredPackage| package_id(d.name@)).to_set()
}

/// The package nodes a manifest adds: its local package and its dependencies.
pub open spec fn manifest_packages(a: PackageManifestAnalysis) -> Set<Seq<char>> {
    match a.local_package {
        Some(l) => declared_ids(a.dependencies@).insert(package_id(l.name@)),
        None => declared_ids(a.dependencies@),
    }
}

/// Every node under an id outside `package:` stays as it was.
pub open spec fn others_kept(before: Seq<crate::model::GraphNode>, after: Seq<crate::model::GraphNode>) -> bool {
    forall|x: Seq<char>|
        #[trigger] node_keys(before).contains(x) && !"package:"@.is_prefix_of(x) ==> crate::builder::node_under(after, x)
            == crate::builder::node_under(before, x)
}

/// Every local package node stays local.
pub open spec fn locals_kept(before: Seq<crate::model::GraphNode>, after: Seq<crate::model::GraphNode>) -> bool {
    forall|o: Seq<char>| #[trigger] local_package_under(before, o) ==> local_package_under(after, o)
}

proof fn lemma_package_call_keeps(
    start: Seq<crate::model::GraphNode>,
    before: Seq<crate::model::GraphNode>,
    after: Seq<crate::model::GraphNode>,
    name: Seq<char>,
    e: bool,
)
    requires
        crate::strmap::strictly_sorted(node_keys(before)),
        crate::strmap::strictly_sorted(node_keys(after)),
        others_kept(start, before),
        locals_kept(start, before),
        node_keys(start).to_set().subset_of(node_keys(before).to_set()),
        crate::builder::package_recorded(before, after, "package:"@ + name, name, e),
    ensures
        others_kept(start, after),
        locals_kept(start, after),
{
    assert forall|x: Seq<char>| #[trigger] node_keys(start).contains(x) && !"package:"@.is_prefix_of(x) implies crate::builder::node_under(
        after,
        x,
    ) == crate::builder::node_under(start, x) by {
        assert(node_keys(start).to_set().contains(x));
        assert(node_keys(before).to_set().contains(x));
        assert(node_keys(before).contains(x));
        assert("package:"@.is_prefix_of("package:"@ + name));
        crate::builder::lemma_package_keeps_others(before, after, name, e, x);
    }
    assert forall|o: Seq<char>| #[trigger] local_package_under(start, o) implies local_package_under(after, o) by {
        assert(local_package_under(before, o));
        lemma_package_keeps_local(before, after, name, o, e);
    }
}

impl BuilderState {
    /// Records the next planned relation with provenance `prov`.
    fn record_with(
        &mut self,
        source: &GraphNodeId,
        target: GraphNodeId,
        kind: RelationKind,
        evidence: &EvidenceRef,
        prov: &RelationProvenance,
        Ghost(from): Ghost<int>,
        Ghost(count): Ghost<int>,
        Ghost(plan): Ghost<Seq<PlannedRelation>>,
    )
        requires
            old(self).wf(),
            old(self).relation_count < usize::MAX,
            0 <= from,
            recorded_with(old(self).relations@, from, count, plan, *prov),
            old(self).relation_count == count + plan.len(),
        ensures
            final(self).wf(),
            final(self).nodes == old(self).nodes,
            same_frame(*old(self), *final(self), from),
            final(self).relation_count == old(self).relation_count + 1,
            recorded_with(final(self).relations@, from, count, plan.push(observed(source@, target@, kind, *evidence)), *prov),
    {
        let ghost p = observed(source@, target@, kind, *evidence);
        let ghost before = self.relations@;
        let mut evidence_list: Vec<EvidenceRef> = Vec::new();
        evidence_list.push(evidence.clone());
        assert(evidence_list@ =~= seq![*evidence]);
        self.relate_with_provenance(source.clone(), target, kind, Confidence::High, evidence_list, Some(prov.clone()));
        proof {
            let rels = self.relations@;
            let np = plan.push(p);
            assert(provenanced_relation(rels.last(), count + plan.len() + 1, p, *prov));
            assert forall|i: int| 0 <= i < np.len() implies provenanced_relation(#[trigger] rels[from + i], count + i + 1, np[i], *prov) by {
                if i < plan.len() {
                    assert(rels[from + i] == before[from + i]);
                } else {
                    assert(rels[from + i] == rels.last());
                }
            }
        }
    }

    /// Relates a package manifest: the artifact belongs to the package the
    /// manifest names (recorded as local), and each dependency (recorded as
    /// an external package unless already known) is depended on by that
    /// package, or by the artifact when the format names no package. Every
    /// relation is observed with high confidence and carries `provenance`.
    pub fn process_package_manifest(
        &mut self,
        analysis: &PackageManifestAnalysis,
        provenance: &RelationProvenance,
        artifact_node: &GraphNodeId,
    )
        requires
            old(self).wf(),
            old(self).relation_count + manifest_plan(artifact_node@, *analysis).len() < usize::MAX,
        ensures
            final(self).wf(),
            manifest_recorded(*old(self), *final(self), *analysis, artifact_node@, *provenance),
    {
        let ghost from = self.relations@.len() as int;
        let ghost count = self.relation_count as int;
        let ghost start = *self;
        let ghost start_keys = node_keys(self.nodes@).to_set();
        let ghost plan = manifest_plan(artifact_node@, *analysis);
        let ghost deps = analysis.dependencies@;
        let ghost an = *analysis;
        let ghost mut prefix: Seq<PlannedRelation> = Seq::empty();
        let ghost mut local_ids: Set<Seq<char>> = Set::empty();
        let source = match &analysis.local_package {
            Some(local) => {
                let ghost nodes_before = self.nodes@;
                let package = self.package(local.name.as_str(), false);
                proof {
                    if package_slot(nodes_before, package@, local.name@) {
                        lemma_package_step(nodes_before, self.nodes@, local.name@, false);
                    }
                    assert(others_kept(nodes_before, nodes_before));
                    assert(locals_kept(nodes_before, nodes_before));
                    lemma_package_call_keeps(nodes_before, nodes_before, self.nodes@, local.name@, false);
                }
                self.record_with(
                    artifact_node,
                    package.clone(),
                    RelationKind::BelongsToPackage,
                    &local.evidence,
                    provenance,
                    Ghost(from),
                    Ghost(count),
                    Ghost(prefix),
                );
                proof {
                    prefix = prefix.push(observed(artifact_node@, package@, RelationKind::BelongsToPackage, local.evidence));
                    local_ids = local_ids.insert(package@);
                }
                package
            },
            None => artifact_node.clone(),
        };
        assert(plan =~= prefix + dependency_plans(source@, deps));
        let mut i: usize = 0;
        while i < analysis.dependencies.len()
            invariant
                i <= deps.len(),
                deps == analysis.dependencies@,
                an == *analysis,
                others_kept(start.nodes@, self.nodes@),
                locals_kept(start.nodes@, self.nodes@),
                start_keys == node_keys(start.nodes@).to_set(),
                plan == manifest_plan(artifact_node@, *analysis),
                plan =~= prefix + dependency_plans(source@, deps),
                self.wf(),
                0 <= from,
                same_frame(start, *self, from),
                self.relation_count == count + prefix.len() + i,
                count + plan.len() < usize::MAX,
                recorded_with(self.relations@, from, count, prefix + dependency_plans(source@, deps).take(i as int), *provenance),
                node_keys(self.nodes@).to_set() == start_keys.union(local_ids).union(declared_ids(deps.take(i as int))),
                analysis.local_package matches Some(l) ==> (package_slot(start.nodes@, package_id(l.name@), l.name@)
                    ==> local_package_under(self.nodes@, l.name@)),
                local_ids == match analysis.local_package {
                    Some(l) => Set::empty().insert(package_id(l.name@)),
                    None => Set::<Seq<char>>::empty(),
                },
            decreases deps.len() - i,
        {
            let dependency = &analysis.dependencies[i];
            let ghost nodes_before = self.nodes@;
            let target = self.package(dependency.name.as_str(), true);
            proof {
                assert(node_keys(start.nodes@).to_set().subset_of(node_keys(nodes_before).to_set()));
                lemma_package_call_keeps(start.nodes@, nodes_before, self.nodes@, dependency.name@, true);
                match an.local_package {
                    Some(l) => {
                        if local_package_under(nodes_before, l.name@) {
                            lemma_package_keeps_local(nodes_before, self.nodes@, dependency.name@, l.name@, true);
                        }
                    },
                    None => {},
                }
                assert(deps.take(i + 1) =~= deps.take(i as int).push(deps[i as int]));
                assert(declared_ids(deps.take(i + 1)) =~= declared_ids(deps.take(i as int)).insert(target@)) by {
                    assert(deps.take(i + 1).map_values(|d: DeclaredPackage| package_id(d.name@)) =~= deps.take(i as int).map_values(
                        |d: DeclaredPackage| package_id(d.name@),
                    ).push(target@));
                }
                assert(dependency_plans(source@, deps).take(i + 1) =~= dependency_plans(source@, deps).take(i as int).push(
                    observed(source@, target@, RelationKind::DependsOnPackage, dependency.evidence),
                ));
                assert(prefix + dependency_plans(source@, deps).take(i + 1) =~= (prefix + dependency_plans(source@, deps).take(
                    i as int,
                )).push(observed(source@, target@, RelationKind::DependsOnPackage, dependency.evidence)));
            }
            let ghost mid = *self;
            self.record_with(
                &source,
                target,
                RelationKind::DependsOnPackage,
                &dependency.evidence,
                provenance,
                Ghost(from),
                Ghost(count),
                Ghost(prefix + dependency_plans(source@, deps).take(i as int)),
            );
            proof {
                assert forall|k: int| 0 <= k < from implies #[trigger] self.relations@[k] == start.relations@[k] by {
                    assert(self.relations@[k] == mid.relations@[k]);
                }
            }
            i = i + 1;
        }
        proof {
            assert(deps.take(deps.len() as int) =~= deps);
            assert(dependency_plans(source@, deps).take(deps.len() as int) =~= dependency_plans(source@, deps));
            match an.local_package {
                Some(l) => {
                    assert(start_keys.union(local_ids).union(declared_ids(deps)) =~= start_keys.union(manifest_packages(*analysis)));
                },
                None => {
                    assert(start_keys.union(local_ids).union(declared_ids(deps)) =~= start_keys.union(manifest_packages(*analysis)));
                },
            }
        }
    }
}


/// `after` is `before` with the manifest `a` of the artifact node `node`
/// related, every relation carrying `prov`: the relations
/// [`manifest_plan`] lists, numbered on from the count; the package nodes
/// [`manifest_packages`] lists; and the manifest's own package local when
/// its id held no other node.
pub open spec fn manifest_recorded(
    before: BuilderState,
    after: BuilderState,
    a: PackageManifestAnalysis,
    node: Seq<char>,
    prov: RelationProvenance,
) -> bool {
    &&& same_frame(before, after, before.relations@.len() as int)
    &&& after.relation_count == before.relation_count + manifest_plan(node, a).len()
    &&& recorded_with(after.relations@, before.relations@.len() as int, before.relation_count as int, manifest_plan(node, a), prov)
    &&& node_keys(after.nodes@).to_set() == node_keys(before.nodes@).to_set().union(manifest_packages(a))
    &&& others_kept(before.nodes@, after.nodes@)
    &&& locals_kept(before.nodes@, after.nodes@)
    &&& a.local_package matches Some(l) ==> (package_slot(before.nodes@, package_id(l.name@), l.name@) ==> local_package_under(
        after.nodes@,
        l.name@,
    ))
}

/// As [`manifest_recorded`], with the provenance of the format `language`
/// given the strategy `listed` that the language registry lists for it.
pub open spec fn manifest_processed(
    before: BuilderState,
    after: BuilderState,
    a: PackageManifestAnalysis,
    node: Seq<char>,
    language: Seq<char>,
    listed: Option<Seq<char>>,
) -> bool {
    exists|prov: RelationProvenance|
        format_provenance_of(prov, language, listed, RelationResolution::SyntaxOnly, Confidence::High) && #[trigger] manifest_recorded(
            before,
            after,
            a,
            node,
            prov,
        )
}

/// The `[package]` table of a Cargo manifest, as far as the builder reads it.
pub struct CargoPackage {
    pub name: Option<String>,
    pub evidence: EvidenceRef,
}

/// A Cargo manifest: its package table, if any, and its dependencies in file order.
pub struct CargoProfile {
    pub package: Option<CargoPackage>,
    pub dependencies: Vec<DeclaredPackage>,
}

/// A `requirements.txt`: the requirement names in file order.
pub struct RequirementsProfile {
    pub requirements: Vec<DeclaredPackage>,
}

/// What a Cargo manifest relates: nothing unless its package table names
/// the package; then that package and its dependencies.
pub open spec fn cargo_analysis(p: CargoProfile) -> Option<PackageManifestAnalysis> {
    match p.package {
        Some(pk) => match pk.name {
            Some(n) => Some(
                PackageManifestAnalysis {
                    local_package: Some(DeclaredPackage { name: n, evidence: pk.evidence }),
                    dependencies: p.dependencies,
                },
            ),
            None => None,
        },
        None => None,
    }
}

/// What a requirements file relates: each requirement, hung off the artifact.
pub open spec fn requirements_analysis(p: RequirementsProfile) -> PackageManifestAnalysis {
    PackageManifestAnalysis { local_package: None, dependencies: p.requirements }
}

/// The registry's strategy for a format, as a view.
pub open spec fn listed_view(listed: Option<&str>) -> Option<Seq<char>> {
    match listed {
        Some(s) => Some(s@),
        None => None,
    }
}

impl Clone for DeclaredPackage {
    fn clone(&self) -> (r: Self)
        ensures
            r == *self,
    {
        DeclaredPackage { name: self.name.clone(), evidence: self.evidence.clone() }
    }
}

/// A copy of the declarations.
fn copy_declared(ds: &Vec<DeclaredPackage>) -> (r: Vec<DeclaredPackage>)
    ensures
        r@ == ds@,
{
    let mut r: Vec<DeclaredPackage> = Vec::new();
    let mut i: usize = 0;
    while i < ds.len()
        invariant
            i <= ds@.len(),
            r@ == ds@.take(i as int),
        decreases ds@.len() - i,
    {
        r.push(ds[i].clone());
        assert(ds@.take(i + 1) =~= ds@.take(i as int).push(ds@[i as int]));
        i = i + 1;
    }
    assert(ds@.take(ds@.len() as int) =~= ds@);
    r
}

impl BuilderState {
    /// Relates a Cargo manifest under the provenance of `toml`: when its
    /// package table names the package, the artifact belongs to it and it
    /// depends on each dependency; otherwise nothing is recorded.
    pub fn process_cargo(&mut self, profile: &CargoProfile, listed: Option<&str>, artifact_node: &GraphNodeId)
        requires
            old(self).wf(),
            cargo_analysis(*profile) matches Some(a) ==> old(self).relation_count + manifest_plan(artifact_node@, a).len() < usize::MAX,
        ensures
            final(self).wf(),
            cargo_analysis(*profile) is None ==> *final(self) == *old(self),
            cargo_analysis(*profile) matches Some(a) ==> manifest_processed(
                *old(self),
                *final(self),
                a,
                artifact_node@,
                "toml"@,
                listed_view(listed),
            ),
    {
        let package = match &profile.package {
            Some(p) => p,
            None => return,
        };
        let name = match &package.name {
            Some(n) => n,
            None => return,
        };
        let analysis = PackageManifestAnalysis {
            local_package: Some(DeclaredPackage { name: name.clone(), evidence: package.evidence.clone() }),
            dependencies: copy_declared(&profile.dependencies),
        };
        let provenance = format_provenance("toml", listed, RelationResolution::SyntaxOnly, Confidence::High);
        let ghost spec_analysis = cargo_analysis(*profile).unwrap();
        assert(spec_analysis.local_package == analysis.local_package);
        assert(spec_analysis.dependencies@ == analysis.dependencies@);
        let ghost before = *self;
        self.process_package_manifest(&analysis, &provenance, artifact_node);
        assert(manifest_recorded(before, *self, spec_analysis, artifact_node@, provenance));
    }

    /// Relates a requirements file under the provenance of
    /// `requirements-txt`: the artifact depends on each requirement.
    pub fn process_requirements(&mut self, profile: &RequirementsProfile, listed: Option<&str>, artifact_node: &GraphNodeId)
        requires
            old(self).wf(),
            old(self).relation_count + manifest_plan(artifact_node@, requirements_analysis(*profile)).len() < usize::MAX,
        ensures
            final(self).wf(),
            manifest_processed(
                *old(self),
                *final(self),
                requirements_analysis(*profile),
                artifact_node@,
                "requirements-txt"@,
                listed_view(listed),
            ),
    {
        let analysis = PackageManifestAnalysis { local_package: None, dependencies: copy_declared(&profile.requirements) };
        let provenance = format_provenance("requirements-txt", listed, RelationResolution::SyntaxOnly, Confidence::High);
        let ghost spec_analysis = requirements_analysis(*profile);
        assert(spec_analysis.dependencies@ == analysis.dependencies@);
        let ghost before = *self;
        self.process_package_manifest(&analysis, &provenance, artifact_node);
        assert(manifest_recorded(before, *self, spec_analysis, artifact_node@, provenance));
    }
}


/// A dependency of a `pyproject.toml` project: its requirement string, as written.
pub struct PyDependency {
    pub requirement: String,
    pub evidence: EvidenceRef,
}

/// The `[project]` table of a `pyproject.toml`, as far as the builder reads it.
pub struct PyProject {
    pub name: Option<String>,
    pub evidence: EvidenceRef,
    pub dependencies: Vec<PyDependency>,
}

/// A `pyproject.toml`: its project table, if any.
pub struct PyProjectProfile {
    pub project: Option<PyProject>,
}

/// A character that can stand in a Python requirement's package name.
pub open spec fn name_char(c: char) -> bool {
    unicode_alphanumeric(c) || c == '-' || c == '_' || c == '.'
}

/// The length of the run of name characters that the first `k` characters
/// of `s` start with.
pub open spec fn name_run(s: Seq<char>, k: nat) -> nat
    decreases k,
{
    if k == 0 {
        0
    } else if name_run(s, (k - 1) as nat) == k - 1 && name_char(s[k - 1]) {
        k
    } else {
        name_run(s, (k - 1) as nat)
    }
}

/// The package name a Python requirement starts with: its leading run of
/// letters, digits, `-`, `_` and `.` (`requests>=2` names `requests`).
pub open spec fn requirement_name(s: Seq<char>) -> Seq<char> {
    s.take(name_run(s, s.len()) as int)
}

proof fn lemma_run_stops(s: Seq<char>, i: nat, k: nat)
    requires
        i < s.len(),
        name_run(s, i) == i,
        !name_char(s[i as int]),
        i < k <= s.len(),
    ensures
        name_run(s, k) == i,
    decreases k,
{
    if k > i + 1 {
        lemma_run_stops(s, i, (k - 1) as nat);
    }
}

/// Whether `c` can stand in a Python requirement's package name.
fn is_name_char(c: char) -> (b: bool)
    ensures
        b == name_char(c),
{
    crate::clone_tokens::alphanumeric(c) || c == '-' || c == '_' || c == '.'
}

/// The package name a Python requirement starts with.
pub fn python_dependency_name(requirement: &str) -> (r: String)
    ensures
        r@ == requirement_name(requirement@),
{
    let v = chars_of(requirement);
    let mut i: usize = 0;
    while i < v.len() && is_name_char(v[i])
        invariant
            i <= v@.len(),
            v@ == requirement@,
            name_run(v@, i as nat) == i,
        decreases v@.len() - i,
    {
        i = i + 1;
    }
    proof {
        if i < v@.len() {
            lemma_run_stops(v@, i as nat, v@.len());
        }
    }
    string_between(v.as_slice(), 0, i)
}

/// `a` is what a `pyproject.toml` project named `name` relates: the
/// project's package, and the package each requirement names.
pub open spec fn pyproject_manifest(a: PackageManifestAnalysis, project: PyProject, name: String) -> bool {
    &&& a.local_package == Some(DeclaredPackage { name, evidence: project.evidence })
    &&& a.dependencies@.len() == project.dependencies@.len()
    &&& forall|i: int|
        0 <= i < project.dependencies@.len() ==> (#[trigger] a.dependencies@[i]).name@ == requirement_name(
            project.dependencies@[i].requirement@,
        ) && a.dependencies@[i].evidence == project.dependencies@[i].evidence
}

impl BuilderState {
    /// Relates a `pyproject.toml` under the provenance of `toml`: when its
    /// project table names the project, the artifact belongs to that
    /// package and it depends on the package each requirement names;
    /// otherwise nothing is recorded.
    pub fn process_pyproject(&mut self, profile: &PyProjectProfile, listed: Option<&str>, artifact_node: &GraphNodeId)
        requires
            old(self).wf(),
            profile.project matches Some(p) ==> old(self).relation_count + p.dependencies@.len() + 1 < usize::MAX,
        ensures
            final(self).wf(),
            profile.project matches Some(p) ==> (p.name matches Some(n) ==> exists|a: PackageManifestAnalysis|
                pyproject_manifest(a, p, n) && #[trigger] manifest_processed(
                    *old(self),
                    *final(self),
                    a,
                    artifact_node@,
                    "toml"@,
                    listed_view(listed),
                )),
            !(profile.project matches Some(p) && p.name is Some) ==> *final(self) == *old(self),
    {
        let project = match &profile.project {
            Some(p) => p,
            None => return,
        };
        let name = match &project.name {
            Some(n) => n,
            None => return,
        };
        let mut dependencies: Vec<DeclaredPackage> = Vec::new();
        let mut i: usize = 0;
        while i < project.dependencies.len()
            invariant
                i <= project.dependencies@.len(),
                dependencies@.len() == i,
                forall|j: int|
                    0 <= j < i ==> (#[trigger] dependencies@[j]).name@ == requirement_name(project.dependencies@[j].requirement@)
                        && dependencies@[j].evidence == project.dependencies@[j].evidence,
            decreases project.dependencies@.len() - i,
        {
            let d = &project.dependencies[i];
            dependencies.push(DeclaredPackage { name: python_dependency_name(d.requirement.as_str()), evidence: d.evidence.clone() });
            i = i + 1;
        }
        let analysis = PackageManifestAnalysis {
            local_package: Some(DeclaredPackage { name: name.clone(), evidence: project.evidence.clone() }),
            dependencies,
        };
        let provenance = format_provenance("toml", listed, RelationResolution::SyntaxOnly, Confidence::High);
        assert(manifest_plan(artifact_node@, analysis).len() == analysis.dependencies@.len() + 1);
        let ghost before = *self;
        self.process_package_manifest(&analysis, &provenance, artifact_node);
        assert(manifest_recorded(before, *self, analysis, artifact_node@, provenance));
        assert(pyproject_manifest(analysis, *project, *name));
        assert(manifest_processed(before, *self, analysis, artifact_node@, "toml"@, listed_view(listed)));
    }
}


/// `p` carrying the provenance `prov`.
pub open spec fn stamped(p: PlannedRelation, prov: RelationProvenance) -> PlannedRelation {
    PlannedRelation { source: p.source, target: p.target, kind: p.kind, confidence: p.confidence, evidence: p.evidence, origin: Some(prov) }
}

/// Every relation of `plan` carrying the provenance `prov`.
pub open spec fn stamp_all(plan: Seq<PlannedRelation>, prov: RelationProvenance) -> Seq<PlannedRelation> {
    plan.map_values(|p: PlannedRelation| stamped(p, prov))
}

proof fn lemma_recorded_stamped(rels: Seq<Relation>, from: int, count: int, plan: Seq<PlannedRelation>, prov: RelationProvenance)
    requires
        recorded_with(rels, from, count, plan, prov),
    ensures
        crate::infra::recorded_as(rels, from, count, stamp_all(plan, prov)),
{
    assert forall|i: int| 0 <= i < plan.len() implies crate::infra::builder_relation(
        #[trigger] rels[from + i],
        count + i + 1,
        stamp_all(plan, prov)[i],
    ) by {
        assert(provenanced_relation(rels[from + i], count + i + 1, plan[i], prov));
    }
}

/// The relations the package manifests among the first `k` outputs give,
/// in artifact order, each with its manifest's provenance.
pub open spec fn manifests_plan(artifacts: Seq<Artifact>, outputs: Seq<Option<AnalyzerOutput>>, k: int) -> Seq<PlannedRelation>
    decreases k,
{
    if k <= 0 {
        Seq::empty()
    } else {
        manifests_plan(artifacts, outputs, k - 1) + match outputs[k - 1] {
            Some(AnalyzerOutput::PackageManifest(m, prov)) => stamp_all(manifest_plan("artifact:"@ + artifacts[k - 1].path@, m), prov),
            _ => Seq::empty(),
        }
    }
}

/// The package ids the package manifests among the first `k` outputs add.
pub open spec fn manifests_nodes(artifacts: Seq<Artifact>, outputs: Seq<Option<AnalyzerOutput>>, k: int) -> Set<Seq<char>>
    decreases k,
{
    if k <= 0 {
        Set::empty()
    } else {
        manifests_nodes(artifacts, outputs, k - 1) + match outputs[k - 1] {
            Some(AnalyzerOutput::PackageManifest(m, _)) => manifest_packages(m),
            _ => Set::empty(),
        }
    }
}

proof fn lemma_manifests_plan_grows(artifacts: Seq<Artifact>, outputs: Seq<Option<AnalyzerOutput>>, i: int, j: int)
    requires
        0 <= i <= j,
    ensures
        manifests_plan(artifacts, outputs, i).len() <= manifests_plan(artifacts, outputs, j).len(),
    decreases j - i,
{
    if i < j {
        lemma_manifests_plan_grows(artifacts, outputs, i, j - 1);
    }
}

proof fn lemma_kept_trans(a: Seq<crate::model::GraphNode>, b: Seq<crate::model::GraphNode>, c: Seq<crate::model::GraphNode>)
    requires
        others_kept(a, b),
        others_kept(b, c),
        locals_kept(a, b),
        locals_kept(b, c),
        node_keys(a).to_set().subset_of(node_keys(b).to_set()),
    ensures
        others_kept(a, c),
        locals_kept(a, c),
{
    assert forall|x: Seq<char>| #[trigger] node_keys(a).contains(x) && !"package:"@.is_prefix_of(x) implies crate::builder::node_under(
        c,
        x,
    ) == crate::builder::node_under(a, x) by {
        assert(node_keys(a).to_set().contains(x));
        assert(node_keys(b).contains(x));
    }
    assert forall|o: Seq<char>| #[trigger] local_package_under(a, o) implies local_package_under(c, o) by {
        assert(local_package_under(b, o));
    }
}

impl BuilderState {
    /// Relates the package manifest of every artifact whose output is one,
    /// in artifact order, to that artifact's node: the relations
    /// [`manifests_plan`] lists, numbered on from the state's count, and the
    /// package nodes [`manifests_nodes`] lists. Nodes under other ids stay as
    /// they were, and local packages stay local.
    pub fn apply_manifests(&mut self, artifacts: &Vec<Artifact>, outputs: &Vec<Option<AnalyzerOutput>>)
        requires
            old(self).wf(),
            outputs@.len() == artifacts@.len(),
            old(self).relation_count + manifests_plan(artifacts@, outputs@, artifacts@.len() as int).len() < usize::MAX,
        ensures
            final(self).wf(),
            same_frame(*old(self), *final(self), old(self).relations@.len() as int),
            final(self).relation_count == old(self).relation_count + manifests_plan(artifacts@, outputs@, artifacts@.len() as int).len(),
            crate::infra::recorded_as(
                final(self).relations@,
                old(self).relations@.len() as int,
                old(self).relation_count as int,
                manifests_plan(artifacts@, outputs@, artifacts@.len() as int),
            ),
            node_keys(final(self).nodes@).to_set() == node_keys(old(self).nodes@).to_set() + manifests_nodes(
                artifacts@,
                outputs@,
                artifacts@.len() as int,
            ),
            others_kept(old(self).nodes@, final(self).nodes@),
            locals_kept(old(self).nodes@, final(self).nodes@),
    {
        let ghost start = *self;
        let ghost from = self.relations@.len() as int;
        let ghost count = self.relation_count as int;
        let ghost n = artifacts@.len() as int;
        proof {
            assert(manifests_plan(artifacts@, outputs@, 0) =~= Seq::<PlannedRelation>::empty());
            assert(node_keys(self.nodes@).to_set() =~= node_keys(start.nodes@).to_set() + manifests_nodes(artifacts@, outputs@, 0));
        }
        let mut k: usize = 0;
        while k < artifacts.len()
            invariant
                k <= artifacts@.len(),
                n == artifacts@.len(),
                outputs@.len() == artifacts@.len(),
                0 <= from == start.relations@.len(),
                count == start.relation_count,
                self.wf(),
                same_frame(start, *self, from),
                count + manifests_plan(artifacts@, outputs@, n).len() < usize::MAX,
                self.relation_count == count + manifests_plan(artifacts@, outputs@, k as int).len(),
                self.relations@.len() == from + manifests_plan(artifacts@, outputs@, k as int).len(),
                crate::infra::recorded_as(self.relations@, from, count, manifests_plan(artifacts@, outputs@, k as int)),
                node_keys(self.nodes@).to_set() == node_keys(start.nodes@).to_set() + manifests_nodes(artifacts@, outputs@, k as int),
                others_kept(start.nodes@, self.nodes@),
                locals_kept(start.nodes@, self.nodes@),
            decreases artifacts@.len() - k,
        {
            let artifact = &artifacts[k];
            let ghost prior = manifests_plan(artifacts@, outputs@, k as int);
            proof {
                lemma_manifests_plan_grows(artifacts@, outputs@, k + 1, n);
            }
            match &outputs[k] {
                Some(AnalyzerOutput::PackageManifest(m, prov)) => {
                    let node = crate::builder::artifact_node_id(artifact);
                    let ghost before = *self;
                    let ghost q = stamp_all(manifest_plan(node@, *m), *prov);
                    assert(manifests_plan(artifacts@, outputs@, k + 1) == prior + q);
                    self.process_package_manifest(m, prov, &node);
                    proof {
                        lemma_recorded_stamped(self.relations@, before.relations@.len() as int, before.relation_count as int, manifest_plan(node@, *m), *prov);
                        crate::infra::lemma_recorded_concat(before.relations@, self.relations@, from, count, prior, q);
                        assert(node_keys(start.nodes@).to_set().subset_of(node_keys(before.nodes@).to_set()));
                        lemma_kept_trans(start.nodes@, before.nodes@, self.nodes@);
                        assert forall|i: int| 0 <= i < from implies #[trigger] self.relations@[i] == start.relations@[i] by {
                            assert(self.relations@[i] == before.relations@[i]);
                        }
                        assert(node_keys(self.nodes@).to_set() =~= node_keys(start.nodes@).to_set() + manifests_nodes(artifacts@, outputs@, k + 1));
                    }
                },
                _ => {
                    proof {
                        assert(manifests_plan(artifacts@, outputs@, k + 1) =~= prior);
                        assert(manifests_nodes(artifacts@, outputs@, k + 1) =~= manifests_nodes(artifacts@, outputs@, k as int));
                    }
                },
            }
            k = k + 1;
        }
    }
}


/// The manifests add package ids only.
pub proof fn lemma_manifests_nodes_packages(artifacts: Seq<Artifact>, outputs: Seq<Option<AnalyzerOutput>>, k: int, x: Seq<char>)
    requires
        manifests_nodes(artifacts, outputs, k).contains(x),
    ensures
        "package:"@.is_prefix_of(x),
    decreases k,
{
    if k > 0 {
        if manifests_nodes(artifacts, outputs, k - 1).contains(x) {
            lemma_manifests_nodes_packages(artifacts, outputs, k - 1, x);
        } else {
            match outputs[k - 1] {
                Some(AnalyzerOutput::PackageManifest(m, _)) => {
                    let ids = m.dependencies@.map_values(|d: DeclaredPackage| package_id(d.name@));
                    if ids.to_set().contains(x) {
                        let i = choose|i: int| 0 <= i < ids.len() && ids[i] == x;
                        assert(x == package_id(m.dependencies@[i].name@));
                    }
                    assert("package:"@.is_prefix_of(x));
                },
                _ => {},
            }
        }
    }
}

} // verus!

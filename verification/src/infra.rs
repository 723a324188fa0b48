//! Infrastructure files as graph facts: the images, variables, and commands
//! of a Dockerfile; the services of a Compose file; the jobs and steps of a
//! GitHub Actions workflow. Each becomes nodes of the builder state and a
//! planned sequence of numbered relations.

use vstd::prelude::*;
use crate::builder::{command_origin, node_keys, numbered, Artifact, BuilderState};
use crate::model::{
    CommandProvenance, ConfigNodeKind, Confidence, EvidenceRef, GraphNodeId, Relation, RelationKind,
    RelationResolution,
};
use crate::text::{cat, cat3, decimal, decimal_string, str_eq};

verus! {

broadcast use vstd::seq_lib::group_seq_properties;

/// A relation the builder is to record.
pub struct PlannedRelation {
    pub source: Seq<char>,
    pub target: Seq<char>,
    pub kind: RelationKind,
    pub confidence: Confidence,
    pub evidence: Seq<EvidenceRef>,
    /// The relation's provenance when it is not the builder's own.
    pub origin: Option<crate::model::RelationProvenance>,
}

/// `r` is the relation the builder records for `p` as its `number`th.
pub open spec fn builder_relation(r: Relation, number: int, p: PlannedRelation) -> bool {
    &&& numbered(r@, number)
    &&& r@.source == p.source
    &&& r@.target == p.target
    &&& r.kind == p.kind
    &&& r.confidence == p.confidence
    &&& r.evidence@ == p.evidence
    &&& match p.origin {
        None => r.provenance matches Some(q) && q.language.is_none() && q.resolver_strategy@ == "graph-builder"@ && q.resolution
            == RelationResolution::SyntaxOnly && q.confidence == p.confidence,
        Some(o) => r.provenance == Some(o),
    }
}

/// From position `from` on, `rels` are exactly the plan, numbered on from `count`.
pub open spec fn recorded_as(rels: Seq<Relation>, from: int, count: int, plan: Seq<PlannedRelation>) -> bool {
    &&& rels.len() == from + plan.len()
    &&& forall|i: int| 0 <= i < plan.len() ==> builder_relation(#[trigger] rels[from + i], count + i + 1, plan[i])
}

/// The targets of a plan.
pub open spec fn targets(plan: Seq<PlannedRelation>) -> Set<Seq<char>>
    decreases plan.len(),
{
    if plan.len() == 0 {
        Set::empty()
    } else {
        targets(plan.drop_last()).insert(plan.last().target)
    }
}

/// A planned relation with one piece of evidence, observed with high confidence.
pub open spec fn observed(source: Seq<char>, target: Seq<char>, kind: RelationKind, evidence: EvidenceRef) -> PlannedRelation {
    PlannedRelation { source, target, kind, confidence: Confidence::High, evidence: seq![evidence], origin: None }
}

/// The state kept everything but its nodes and relations; its relations
/// before `from` are the old ones.
pub open spec fn same_frame(a: BuilderState, b: BuilderState, from: int) -> bool {
    &&& a.artifact_paths == b.artifact_paths
    &&& a.rust_crate_roots == b.rust_crate_roots
    &&& a.env_symbols_by_artifact == b.env_symbols_by_artifact
    &&& from <= a.relations@.len()
    &&& from <= b.relations@.len()
    &&& forall|i: int| 0 <= i < from ==> #[trigger] b.relations@[i] == a.relations@[i]
}

impl BuilderState {
    /// Records the next planned relation.
    pub(crate) fn record(
        &mut self,
        source: &GraphNodeId,
        target: GraphNodeId,
        kind: RelationKind,
        confidence: Confidence,
        evidence: &EvidenceRef,
        Ghost(from): Ghost<int>,
        Ghost(count): Ghost<int>,
        Ghost(plan): Ghost<Seq<PlannedRelation>>,
    )
        requires
            old(self).wf(),
            old(self).relation_count < usize::MAX,
            0 <= from,
            recorded_as(old(self).relations@, from, count, plan),
            old(self).relation_count == count + plan.len(),
        ensures
            final(self).wf(),
            final(self).nodes == old(self).nodes,
            same_frame(*old(self), *final(self), from),
            final(self).relation_count == old(self).relation_count + 1,
            recorded_as(
                final(self).relations@,
                from,
                count,
                plan.push(PlannedRelation { source: source@, target: target@, kind, confidence, evidence: seq![*evidence], origin: None }),
            ),
    {
        let ghost p = PlannedRelation { source: source@, target: target@, kind, confidence, evidence: seq![*evidence], origin: None };
        let ghost before = self.relations@;
        let e = evidence.clone();
        let mut evidence_list: Vec<EvidenceRef> = Vec::new();
        evidence_list.push(e);
        assert(evidence_list@ =~= seq![*evidence]);
        let ghost target_view = target@;
        self.relate(source.clone(), target, kind, confidence, evidence_list);
        proof {
            let rels = self.relations@;
            let np = plan.push(p);
            assert(rels.len() == from + np.len());
            assert(builder_relation(rels.last(), count + plan.len() + 1, p));
            assert forall|i: int| 0 <= i < np.len() implies builder_relation(#[trigger] rels[from + i], count + i + 1, np[i]) by {
                if i < plan.len() {
                    assert(rels[from + i] == before[from + i]);
                } else {
                    assert(rels[from + i] == rels.last());
                }
            }
        }
    }
}

/// Some relation of `rels` goes from `source` to `target` with `kind`.
pub open spec fn has_edge(rels: Seq<Relation>, source: Seq<char>, target: Seq<char>, kind: RelationKind) -> bool {
    exists|i: int| 0 <= i < rels.len() && (#[trigger] rels[i])@.source == source && rels[i]@.target == target && rels[i].kind == kind
}

impl BuilderState {
    /// Relates `source` to `target` with `kind` as the next numbered
    /// relation, unless a relation with those three is already recorded, in
    /// which case nothing changes.
    pub fn relate_if_absent(
        &mut self,
        source: GraphNodeId,
        target: GraphNodeId,
        kind: RelationKind,
        confidence: Confidence,
        evidence: Vec<crate::model::EvidenceRef>,
        provenance: Option<crate::model::RelationProvenance>,
    )
        requires
            old(self).wf(),
            old(self).relation_count < usize::MAX,
        ensures
            final(self).wf(),
            has_edge(old(self).relations@, source@, target@, kind) ==> *final(self) == *old(self),
            !has_edge(old(self).relations@, source@, target@, kind) ==> {
                &&& final(self).nodes == old(self).nodes
                &&& final(self).artifact_paths == old(self).artifact_paths
                &&& final(self).rust_crate_roots == old(self).rust_crate_roots
                &&& final(self).env_symbols_by_artifact == old(self).env_symbols_by_artifact
                &&& final(self).relation_count == old(self).relation_count + 1
                &&& final(self).relations@ == old(self).relations@.push(final(self).relations@.last())
                &&& numbered(final(self).relations@.last()@, final(self).relation_count as int)
                &&& final(self).relations@.last()@.source == source@
                &&& final(self).relations@.last()@.target == target@
                &&& final(self).relations@.last().kind == kind
                &&& final(self).relations@.last().confidence == confidence
                &&& final(self).relations@.last().evidence@ == evidence@
                &&& final(self).relations@.last().provenance == provenance
            },
    {
        let mut i: usize = 0;
        while i < self.relations.len()
            invariant
                i <= self.relations@.len(),
                self.wf(),
                forall|j: int| 0 <= j < i ==> !((#[trigger] self.relations@[j])@.source == source@ && self.relations@[j]@.target == target@
                    && self.relations@[j].kind == kind),
            decreases self.relations@.len() - i,
        {
            let r = &self.relations[i];
            if r.source.same(&source) && r.target.same(&target) && r.kind == kind {
                return;
            }
            i = i + 1;
        }
        self.relate_with_provenance(source, target, kind, confidence, evidence, provenance);
    }
}

// ---- Dockerfile

/// The base image of one build stage.
pub struct DockerStage {
    pub image: String,
    pub evidence: EvidenceRef,
}

/// A variable a file reads or sets.
pub struct EnvBinding {
    pub key: String,
    pub evidence: EvidenceRef,
}

/// A command a Dockerfile runs, with whether it is a `RUN` instruction.
pub struct DockerCommand {
    pub line: u32,
    pub command: String,
    pub is_run: bool,
    pub evidence: EvidenceRef,
}

/// What a Dockerfile declares: stage images, `ENV` and `ARG` variables, and commands.
pub struct DockerfileAnalysis {
    pub stages: Vec<DockerStage>,
    pub env: Vec<EnvBinding>,
    pub args: Vec<EnvBinding>,
    pub commands: Vec<DockerCommand>,
}

/// `UsesImage` from `source` to each stage's image.
pub open spec fn stage_plans(source: Seq<char>, stages: Seq<DockerStage>) -> Seq<PlannedRelation>
    decreases stages.len(),
{
    if stages.len() == 0 {
        Seq::empty()
    } else {
        let s = stages.last();
        stage_plans(source, stages.drop_last()).push(observed(source, "image:"@ + s.image@, RelationKind::UsesImage, s.evidence))
    }
}

/// `ReadsEnv` from `source` to each variable.
pub open spec fn env_plans(source: Seq<char>, vars: Seq<EnvBinding>) -> Seq<PlannedRelation>
    decreases vars.len(),
{
    if vars.len() == 0 {
        Seq::empty()
    } else {
        let v = vars.last();
        env_plans(source, vars.drop_last()).push(observed(source, "env:"@ + v.key@, RelationKind::ReadsEnv, v.evidence))
    }
}

/// The id of the command an artifact runs under `key`.
pub open spec fn command_id(path: Seq<char>, key: Seq<char>) -> Seq<char> {
    "command:"@ + path + "#"@ + key
}

/// `RunsCommand` from `source` to each command, keyed by its line.
pub open spec fn docker_command_plans(source: Seq<char>, path: Seq<char>, cmds: Seq<DockerCommand>) -> Seq<PlannedRelation>
    decreases cmds.len(),
{
    if cmds.len() == 0 {
        Seq::empty()
    } else {
        let c = cmds.last();
        docker_command_plans(source, path, cmds.drop_last()).push(
            observed(source, command_id(path, decimal(c.line as nat)), RelationKind::RunsCommand, c.evidence),
        )
    }
}

/// The relations a Dockerfile gives its artifact node: its stage images,
/// then its `ENV` and `ARG` variables, then its commands.
pub open spec fn dockerfile_plan(source: Seq<char>, path: Seq<char>, a: DockerfileAnalysis) -> Seq<PlannedRelation> {
    stage_plans(source, a.stages@) + env_plans(source, a.env@ + a.args@) + docker_command_plans(source, path, a.commands@)
}

/// The provenance of a Dockerfile command: as for any command, except that
/// an executable `RUN` instruction counts as build automation.
pub open spec fn docker_command_provenance(category: crate::model::ArtifactCategory, c: DockerCommand) -> CommandProvenance {
    let p = command_origin(category, c.evidence.path@);
    if p == CommandProvenance::Executable && c.is_run {
        CommandProvenance::BuildAutomation
    } else {
        p
    }
}

/// The id of the `k`th command of a Dockerfile at `path`.
pub open spec fn docker_command_id(path: Seq<char>, cmds: Seq<DockerCommand>, k: int) -> Seq<char> {
    command_id(path, decimal(cmds[k].line as nat))
}

/// The `k`th command makes its node: no node had its id before, and no
/// earlier command has it.
pub open spec fn fresh_command(before: Seq<crate::model::GraphNode>, path: Seq<char>, cmds: Seq<DockerCommand>, k: int) -> bool {
    &&& !node_keys(before).contains(docker_command_id(path, cmds, k))
    &&& forall|j: int| 0 <= j < k ==> #[trigger] docker_command_id(path, cmds, j) != docker_command_id(path, cmds, k)
}

/// The node a Dockerfile command makes: the command's text, its provenance, and its evidence.
pub open spec fn docker_command_node(
    nodes: Seq<crate::model::GraphNode>,
    category: crate::model::ArtifactCategory,
    path: Seq<char>,
    cmds: Seq<DockerCommand>,
    k: int,
) -> bool {
    crate::builder::node_under(nodes, docker_command_id(path, cmds, k)) matches Some(n) && crate::builder::command_shape(
        n,
        cmds[k].command@,
        docker_command_provenance(category, cmds[k]),
        cmds[k].evidence,
    )
}

proof fn lemma_stage_targets(source: Seq<char>, stages: Seq<DockerStage>, t: Seq<char>)
    requires
        targets(stage_plans(source, stages)).contains(t),
    ensures
        t.len() > 0 && t[0] == 'i',
    decreases stages.len(),
{
    reveal_strlit("image:");
    if stages.len() > 0 {
        let last = stages.last();
        let prior = stage_plans(source, stages.drop_last());
        let x = observed(source, "image:"@ + last.image@, RelationKind::UsesImage, last.evidence);
        assert(prior.push(x).drop_last() =~= prior);
        if t != "image:"@ + last.image@ {
            lemma_stage_targets(source, stages.drop_last(), t);
        }
    }
}

proof fn lemma_env_targets(source: Seq<char>, vars: Seq<EnvBinding>, t: Seq<char>)
    requires
        targets(env_plans(source, vars)).contains(t),
    ensures
        t.len() > 0 && t[0] == 'e',
    decreases vars.len(),
{
    reveal_strlit("env:");
    if vars.len() > 0 {
        let last = vars.last();
        let prior = env_plans(source, vars.drop_last());
        let x = observed(source, "env:"@ + last.key@, RelationKind::ReadsEnv, last.evidence);
        assert(prior.push(x).drop_last() =~= prior);
        if t != "env:"@ + last.key@ {
            lemma_env_targets(source, vars.drop_last(), t);
        }
    }
}

proof fn lemma_command_targets(source: Seq<char>, path: Seq<char>, cmds: Seq<DockerCommand>, k: int, t: Seq<char>)
    requires
        0 <= k <= cmds.len(),
        targets(docker_command_plans(source, path, cmds).take(k)).contains(t),
    ensures
        exists|j: int| 0 <= j < k && t == #[trigger] docker_command_id(path, cmds, j),
    decreases k,
{
    lemma_command_plans_len(source, path, cmds);
    let cp = docker_command_plans(source, path, cmds);
    if k > 0 {
        assert(cp.take(k).drop_last() =~= cp.take(k - 1));
        lemma_command_plan_at(source, path, cmds, k - 1);
        if t == cp[k - 1].target {
            assert(t == docker_command_id(path, cmds, k - 1));
        } else {
            lemma_command_targets(source, path, cmds, k - 1, t);
            let j = choose|j: int| 0 <= j < k - 1 && t == #[trigger] docker_command_id(path, cmds, j);
            assert(0 <= j < k);
        }
    }
}

/// `p` extended by `q` one element at a time stays what it was at its front.
proof fn lemma_plan_step(p: Seq<PlannedRelation>, q: Seq<PlannedRelation>, k: int)
    requires
        0 <= k < q.len(),
    ensures
        p + q.take(k + 1) == (p + q.take(k)).push(q[k]),
        targets((p + q.take(k)).push(q[k])) == targets(p + q.take(k)).insert(q[k].target),
{
    assert(p + q.take(k + 1) =~= (p + q.take(k)).push(q[k]));
    assert((p + q.take(k)).push(q[k]).drop_last() =~= p + q.take(k));
}

impl BuilderState {
    /// Records a Dockerfile's facts for the artifact node `artifact_node`:
    /// its stage images, variables, and commands as nodes, and the
    /// relations [`dockerfile_plan`] lists, numbered on from the state's
    /// count. A command that makes its node gives it its text, its evidence,
    /// and the provenance [`docker_command_provenance`] says.
    /// Nodes recorded before stay as they were, and each new node under a
    /// variable, image, or unresolved id is what the id names ([`named_by_id`]).
    #[verifier::spinoff_prover]
    pub fn process_dockerfile(&mut self, artifact: &Artifact, analysis: &DockerfileAnalysis, artifact_node: &GraphNodeId)
        requires
            old(self).wf(),
            old(self).relation_count + dockerfile_plan(artifact_node@, artifact.path@, *analysis).len() < usize::MAX,
        ensures
            final(self).wf(),
            same_frame(*old(self), *final(self), old(self).relations@.len() as int),
            final(self).relation_count == old(self).relation_count + dockerfile_plan(artifact_node@, artifact.path@, *analysis).len(),
            recorded_as(
                final(self).relations@,
                old(self).relations@.len() as int,
                old(self).relation_count as int,
                dockerfile_plan(artifact_node@, artifact.path@, *analysis),
            ),
            node_keys(final(self).nodes@).to_set() == node_keys(old(self).nodes@).to_set() + targets(
                dockerfile_plan(artifact_node@, artifact.path@, *analysis),
            ),
            forall|k: int|
                0 <= k < analysis.commands@.len() && fresh_command(old(self).nodes@, artifact.path@, analysis.commands@, k)
                    ==> #[trigger] docker_command_node(final(self).nodes@, artifact.category, artifact.path@, analysis.commands@, k),
            keeps_nodes(old(self).nodes@, final(self).nodes@),
            new_nodes_named(old(self).nodes@, final(self).nodes@),
    {
        let ghost start = *self;
        let ghost from = self.relations@.len() as int;
        let ghost count = self.relation_count as int;
        let ghost source = artifact_node@;
        let ghost full = dockerfile_plan(source, artifact.path@, *analysis);
        let ghost sp = stage_plans(source, analysis.stages@);
        let ghost vars = analysis.env@ + analysis.args@;
        let ghost ep = env_plans(source, vars);
        let ghost cp = docker_command_plans(source, artifact.path@, analysis.commands@);
        proof {
            assert(sp.take(0) =~= Seq::<PlannedRelation>::empty());
            assert(targets(Seq::<PlannedRelation>::empty()) =~= Set::<Seq<char>>::empty());
            assert(node_keys(self.nodes@).to_set() =~= node_keys(start.nodes@).to_set() + targets(sp.take(0)));
            lemma_stage_plans_len(source, analysis.stages@);
            lemma_env_plans_len(source, vars);
            lemma_command_plans_len(source, artifact.path@, analysis.commands@);
        }
        let mut i: usize = 0;
        while i < analysis.stages.len()
            invariant
                i <= analysis.stages@.len(),
                count == start.relation_count,
                from == start.relations@.len(),
                self.wf(),
                same_frame(start, *self, from),
                sp == stage_plans(source, analysis.stages@),
                sp.len() == analysis.stages@.len(),
                source == artifact_node@,
                full == sp + ep + cp,
                start.relation_count + full.len() < usize::MAX,
                self.relation_count == count + i,
                recorded_as(self.relations@, from, count, sp.take(i as int)),
                node_keys(self.nodes@).to_set() == node_keys(start.nodes@).to_set() + targets(sp.take(i as int)),
                keeps_nodes(start.nodes@, self.nodes@),
                new_nodes_named(start.nodes@, self.nodes@),
            decreases analysis.stages@.len() - i,
        {
            let stage = &analysis.stages[i];
            let ghost nodes0 = self.nodes@;
            let target = self.image(stage.image.as_str());
            proof {
                crate::builder::lemma_kept_or_added_keys(nodes0, self.nodes@, target@);
                assert(node_keys(start.nodes@).to_set().subset_of(node_keys(nodes0).to_set()));
                lemma_keeps_step(start.nodes@, nodes0, self.nodes@, target@);
                if !node_keys(nodes0).contains(target@) {
                    lemma_named_image(self.nodes@, stage.image@);
                }
                lemma_named_step(start.nodes@, nodes0, self.nodes@, target@);
                lemma_stage_plan_at(source, analysis.stages@, i as int);
                lemma_plan_step(Seq::empty(), sp, i as int);
                assert(Seq::<PlannedRelation>::empty() + sp.take(i as int) =~= sp.take(i as int));
                assert(Seq::<PlannedRelation>::empty() + sp.take(i + 1) =~= sp.take(i + 1));
            }
            self.record(artifact_node, target, RelationKind::UsesImage, Confidence::High, &stage.evidence, Ghost(from), Ghost(count), Ghost(sp.take(i as int)));
            proof {
                assert(node_keys(self.nodes@).to_set() =~= node_keys(start.nodes@).to_set() + targets(sp.take(i + 1)));
            }
            i = i + 1;
        }
        proof {
            assert(sp.take(sp.len() as int) =~= sp);
            assert(ep.take(0) =~= Seq::<PlannedRelation>::empty());
            assert(sp + ep.take(0) =~= sp);
        }
        let mut j: usize = 0;
        let n_env = analysis.env.len();
        let n_vars = n_env + analysis.args.len();
        while j < n_vars
            invariant
                j <= n_vars,
                count == start.relation_count,
                from == start.relations@.len(),
                n_env == analysis.env@.len(),
                n_vars == vars.len(),
                vars == analysis.env@ + analysis.args@,
                self.wf(),
                same_frame(start, *self, from),
                ep == env_plans(source, vars),
                ep.len() == vars.len(),
                source == artifact_node@,
                full == sp + ep + cp,
                start.relation_count + full.len() < usize::MAX,
                self.relation_count == count + sp.len() + j,
                recorded_as(self.relations@, from, count, sp + ep.take(j as int)),
                node_keys(self.nodes@).to_set() == node_keys(start.nodes@).to_set() + targets(sp + ep.take(j as int)),
                keeps_nodes(start.nodes@, self.nodes@),
                new_nodes_named(start.nodes@, self.nodes@),
            decreases n_vars - j,
        {
            let binding = if j < n_env { &analysis.env[j] } else { &analysis.args[j - n_env] };
            assert(*binding == vars[j as int]);
            let ghost nodes0 = self.nodes@;
            let target = self.env_var(binding.key.as_str());
            proof {
                crate::builder::lemma_kept_or_added_keys(nodes0, self.nodes@, target@);
                assert(node_keys(start.nodes@).to_set().subset_of(node_keys(nodes0).to_set()));
                lemma_keeps_step(start.nodes@, nodes0, self.nodes@, target@);
                if !node_keys(nodes0).contains(target@) {
                    lemma_named_env(self.nodes@, binding.key@);
                }
                lemma_named_step(start.nodes@, nodes0, self.nodes@, target@);
                lemma_env_plan_at(source, vars, j as int);
                lemma_plan_step(sp, ep, j as int);
            }
            self.record(artifact_node, target, RelationKind::ReadsEnv, Confidence::High, &binding.evidence, Ghost(from), Ghost(count), Ghost(sp + ep.take(j as int)));
            proof {
                assert(node_keys(self.nodes@).to_set() =~= node_keys(start.nodes@).to_set() + targets(sp + ep.take(j + 1)));
            }
            j = j + 1;
        }
        proof {
            assert(ep.take(ep.len() as int) =~= ep);
            assert(cp.take(0) =~= Seq::<PlannedRelation>::empty());
            assert(sp + ep + cp.take(0) =~= sp + ep);
        }
        let mut k: usize = 0;
        while k < analysis.commands.len()
            invariant
                k <= analysis.commands@.len(),
                count == start.relation_count,
                from == start.relations@.len(),
                self.wf(),
                same_frame(start, *self, from),
                cp == docker_command_plans(source, artifact.path@, analysis.commands@),
                cp.len() == analysis.commands@.len(),
                source == artifact_node@,
                full == sp + ep + cp,
                start.relation_count + full.len() < usize::MAX,
                self.relation_count == count + sp.len() + ep.len() + k,
                recorded_as(self.relations@, from, count, sp + ep + cp.take(k as int)),
                node_keys(self.nodes@).to_set() == node_keys(start.nodes@).to_set() + targets(sp + ep + cp.take(k as int)),
                keeps_nodes(start.nodes@, self.nodes@),
                new_nodes_named(start.nodes@, self.nodes@),
                sp == stage_plans(source, analysis.stages@),
                ep == env_plans(source, vars),
                forall|q: int|
                    0 <= q < k && fresh_command(start.nodes@, artifact.path@, analysis.commands@, q) ==> #[trigger] docker_command_node(
                        self.nodes@,
                        artifact.category,
                        artifact.path@,
                        analysis.commands@,
                        q,
                    ),
            decreases analysis.commands@.len() - k,
        {
            let command = &analysis.commands[k];
            let key = decimal_string(command.line as usize);
            let origin = crate::builder::command_provenance(artifact, &command.evidence);
            let provenance = if origin == CommandProvenance::Executable && command.is_run {
                CommandProvenance::BuildAutomation
            } else {
                origin
            };
            assert(provenance == docker_command_provenance(artifact.category, *command));
            let ghost nodes0 = self.nodes@;
            let target = self.command_with_provenance(
                artifact.path.as_str(),
                key.as_str(),
                command.command.as_str(),
                command.evidence.clone(),
                provenance,
            );
            proof {
                crate::builder::lemma_kept_or_added_keys(nodes0, self.nodes@, target@);
                assert(node_keys(start.nodes@).to_set().subset_of(node_keys(nodes0).to_set()));
                lemma_keeps_step(start.nodes@, nodes0, self.nodes@, target@);
                if !node_keys(nodes0).contains(target@) {
                    reveal_strlit("command:");
                    assert(target@[0] == 'c');
                    lemma_named_other(crate::builder::node_under(self.nodes@, target@)->0, target@);
                }
                lemma_named_step(start.nodes@, nodes0, self.nodes@, target@);
                lemma_command_plan_at(source, artifact.path@, analysis.commands@, k as int);
                lemma_plan_step(sp + ep, cp, k as int);
                let path = artifact.path@;
                let cmds = analysis.commands@;
                assert(target@ == docker_command_id(path, cmds, k as int));
                assert forall|q: int| 0 <= q < k && fresh_command(start.nodes@, path, cmds, q) implies #[trigger] docker_command_node(
                    self.nodes@,
                    artifact.category,
                    path,
                    cmds,
                    q,
                ) by {
                    let id = docker_command_id(path, cmds, q);
                    assert(docker_command_node(nodes0, artifact.category, path, cmds, q));
                    let c = choose|c: int| 0 <= c < nodes0.len() && crate::model::node_id(#[trigger] nodes0[c]) == id;
                    assert(node_keys(nodes0)[c] == id);
                    crate::builder::lemma_under_kept(nodes0, self.nodes@, target@, id);
                }
                if fresh_command(start.nodes@, path, cmds, k as int) {
                    assert(!node_keys(nodes0).contains(target@)) by {
                        if node_keys(nodes0).contains(target@) {
                            assert(node_keys(nodes0).to_set().contains(target@));
                            reveal_strlit("command:");
                            assert(target@[0] == 'c');
                            lemma_targets_concat(sp + ep, cp.take(k as int));
                            lemma_targets_concat(sp, ep);
                            if targets(sp).contains(target@) {
                                lemma_stage_targets(source, analysis.stages@, target@);
                            } else if targets(ep).contains(target@) {
                                lemma_env_targets(source, vars, target@);
                            } else if targets(cp.take(k as int)).contains(target@) {
                                lemma_command_targets(source, path, cmds, k as int, target@);
                                let j = choose|j: int| 0 <= j < k && target@ == #[trigger] docker_command_id(path, cmds, j);
                                assert(docker_command_id(path, cmds, j) != docker_command_id(path, cmds, k as int));
                            } else {
                                assert(node_keys(start.nodes@).to_set().contains(target@));
                                let c = choose|c: int| 0 <= c < node_keys(start.nodes@).len() && node_keys(start.nodes@)[c] == target@;
                                assert(node_keys(start.nodes@).contains(target@));
                            }
                        }
                    }
                    assert(docker_command_node(self.nodes@, artifact.category, path, cmds, k as int));
                }
            }
            self.record(artifact_node, target, RelationKind::RunsCommand, Confidence::High, &command.evidence, Ghost(from), Ghost(count), Ghost(sp + ep + cp.take(k as int)));
            proof {
                assert(node_keys(self.nodes@).to_set() =~= node_keys(start.nodes@).to_set() + targets(sp + ep + cp.take(k + 1)));
            }
            k = k + 1;
        }
        proof {
            assert(cp.take(cp.len() as int) =~= cp);
        }
    }
}

proof fn lemma_stage_plans_len(source: Seq<char>, stages: Seq<DockerStage>)
    ensures
        stage_plans(source, stages).len() == stages.len(),
    decreases stages.len(),
{
    if stages.len() > 0 {
        lemma_stage_plans_len(source, stages.drop_last());
    }
}

proof fn lemma_stage_plan_at(source: Seq<char>, stages: Seq<DockerStage>, i: int)
    requires
        0 <= i < stages.len(),
    ensures
        stage_plans(source, stages)[i] == observed(source, "image:"@ + stages[i].image@, RelationKind::UsesImage, stages[i].evidence),
    decreases stages.len(),
{
    lemma_stage_plans_len(source, stages.drop_last());
    if i < stages.len() - 1 {
        lemma_stage_plan_at(source, stages.drop_last(), i);
    }
}

proof fn lemma_env_plans_len(source: Seq<char>, vars: Seq<EnvBinding>)
    ensures
        env_plans(source, vars).len() == vars.len(),
    decreases vars.len(),
{
    if vars.len() > 0 {
        lemma_env_plans_len(source, vars.drop_last());
    }
}

proof fn lemma_env_plan_at(source: Seq<char>, vars: Seq<EnvBinding>, i: int)
    requires
        0 <= i < vars.len(),
    ensures
        env_plans(source, vars)[i] == observed(source, "env:"@ + vars[i].key@, RelationKind::ReadsEnv, vars[i].evidence),
    decreases vars.len(),
{
    lemma_env_plans_len(source, vars.drop_last());
    if i < vars.len() - 1 {
        lemma_env_plan_at(source, vars.drop_last(), i);
    }
}

proof fn lemma_command_plans_len(source: Seq<char>, path: Seq<char>, cmds: Seq<DockerCommand>)
    ensures
        docker_command_plans(source, path, cmds).len() == cmds.len(),
    decreases cmds.len(),
{
    if cmds.len() > 0 {
        lemma_command_plans_len(source, path, cmds.drop_last());
    }
}

proof fn lemma_command_plan_at(source: Seq<char>, path: Seq<char>, cmds: Seq<DockerCommand>, i: int)
    requires
        0 <= i < cmds.len(),
    ensures
        docker_command_plans(source, path, cmds)[i] == observed(
            source,
            command_id(path, decimal(cmds[i].line as nat)),
            RelationKind::RunsCommand,
            cmds[i].evidence,
        ),
    decreases cmds.len(),
{
    lemma_command_plans_len(source, path, cmds.drop_last());
    if i < cmds.len() - 1 {
        lemma_command_plan_at(source, path, cmds.drop_last(), i);
    }
}


proof fn lemma_targets_single(x: PlannedRelation)
    ensures
        targets(seq![x]) == set![x.target],
{
    let one = seq![x];
    assert(one.drop_last() =~= Seq::<PlannedRelation>::empty());
    assert(one.last() == x);
    assert(targets(one.drop_last()) == Set::<Seq<char>>::empty());
    assert(targets(one) == targets(one.drop_last()).insert(x.target));
    assert(targets(one) =~= set![x.target]);
}

/// The targets of `p + q` are those of `p` and those of `q`.
proof fn lemma_targets_concat(p: Seq<PlannedRelation>, q: Seq<PlannedRelation>)
    ensures
        targets(p + q) == targets(p) + targets(q),
    decreases q.len(),
{
    if q.len() == 0 {
        assert(p + q =~= p);
        assert(targets(p) + targets(q) =~= targets(p));
    } else {
        lemma_targets_concat(p, q.drop_last());
        assert((p + q).drop_last() =~= p + q.drop_last());
        assert((p + q).last() == q.last());
        assert(targets(p + q) =~= targets(p) + targets(q));
    }
}

/// The nodes under ids that were already there stay as they were.
pub open spec fn keeps_nodes(before: Seq<crate::model::GraphNode>, after: Seq<crate::model::GraphNode>) -> bool {
    forall|id: Seq<char>| #[trigger] node_keys(before).contains(id) ==> crate::builder::node_under(after, id) == crate::builder::node_under(before, id)
}

/// Recording one more id keeps what an earlier state held.
pub(crate) proof fn lemma_keeps_step(
    start: Seq<crate::model::GraphNode>,
    before: Seq<crate::model::GraphNode>,
    after: Seq<crate::model::GraphNode>,
    added: Seq<char>,
)
    requires
        keeps_nodes(start, before),
        node_keys(start).to_set().subset_of(node_keys(before).to_set()),
        crate::strmap::strictly_sorted(node_keys(before)),
        crate::strmap::strictly_sorted(node_keys(after)),
        crate::builder::kept_or_added(before, after, added),
    ensures
        keeps_nodes(start, after),
{
    assert forall|id: Seq<char>| #[trigger] node_keys(start).contains(id) implies crate::builder::node_under(after, id)
        == crate::builder::node_under(start, id) by {
        assert(node_keys(start).to_set().contains(id));
        assert(node_keys(before).to_set().contains(id));
        crate::builder::lemma_under_kept(before, after, added, id);
    }
}

pub(crate) proof fn lemma_keeps_trans(a: Seq<crate::model::GraphNode>, b: Seq<crate::model::GraphNode>, c: Seq<crate::model::GraphNode>)
    requires
        keeps_nodes(a, b),
        keeps_nodes(b, c),
        node_keys(a).to_set().subset_of(node_keys(b).to_set()),
    ensures
        keeps_nodes(a, c),
{
    assert forall|id: Seq<char>| #[trigger] node_keys(a).contains(id) implies crate::builder::node_under(c, id)
        == crate::builder::node_under(a, id) by {
        assert(node_keys(a).to_set().contains(id));
        assert(node_keys(b).to_set().contains(id));
        assert(node_keys(b).contains(id));
    }
}

/// What the id of a node says of it: under `env:` and a name is the
/// variable of that name, under `image:` and a reference the image of that
/// reference, under `unresolved:` and a value the unresolved node of that value.
pub open spec fn named_by_id(n: crate::model::GraphNode, id: Seq<char>) -> bool {
    if "env:"@.is_prefix_of(id) {
        crate::builder::env_var_shape(n, id.skip(4))
    } else if "image:"@.is_prefix_of(id) {
        crate::builder::image_shape(n, id.skip(6))
    } else if "unresolved:"@.is_prefix_of(id) {
        crate::builder::unresolved_shape(n, id.skip(11))
    } else {
        true
    }
}

/// Each node `after` holds and `before` did not is what its id says.
pub open spec fn new_nodes_named(before: Seq<crate::model::GraphNode>, after: Seq<crate::model::GraphNode>) -> bool {
    forall|id: Seq<char>|
        #[trigger] node_keys(after).contains(id) && !node_keys(before).contains(id) ==> (crate::builder::node_under(after, id) matches Some(
            n,
        ) && named_by_id(n, id))
}

/// Recording `added` keeps the new nodes named, when a fresh `added` is named.
pub(crate) proof fn lemma_named_step(
    start: Seq<crate::model::GraphNode>,
    before: Seq<crate::model::GraphNode>,
    after: Seq<crate::model::GraphNode>,
    added: Seq<char>,
)
    requires
        new_nodes_named(start, before),
        crate::strmap::strictly_sorted(node_keys(before)),
        crate::strmap::strictly_sorted(node_keys(after)),
        crate::builder::kept_or_added(before, after, added),
        !node_keys(before).contains(added) ==> (crate::builder::node_under(after, added) matches Some(n) && named_by_id(n, added)),
    ensures
        new_nodes_named(start, after),
{
    crate::builder::lemma_kept_or_added_keys(before, after, added);
    assert forall|id: Seq<char>| #[trigger] node_keys(after).contains(id) && !node_keys(start).contains(id) implies (
    crate::builder::node_under(after, id) matches Some(n) && named_by_id(n, id)) by {
        assert(node_keys(after).to_set().contains(id));
        if id != added || node_keys(before).contains(added) {
            assert(node_keys(before).to_set().contains(id));
            assert(node_keys(before).contains(id));
            crate::builder::lemma_under_kept(before, after, added, id);
        }
    }
}

/// New nodes named from `a` to `b` and from `b` to `c` are named from `a` to `c`.
pub(crate) proof fn lemma_named_trans(a: Seq<crate::model::GraphNode>, b: Seq<crate::model::GraphNode>, c: Seq<crate::model::GraphNode>)
    requires
        new_nodes_named(a, b),
        new_nodes_named(b, c),
        keeps_nodes(b, c),
    ensures
        new_nodes_named(a, c),
{
    assert forall|id: Seq<char>| #[trigger] node_keys(c).contains(id) && !node_keys(a).contains(id) implies (
    crate::builder::node_under(c, id) matches Some(n) && named_by_id(n, id)) by {
        if node_keys(b).contains(id) {
            assert(crate::builder::node_under(c, id) == crate::builder::node_under(b, id));
        }
    }
}

/// A fresh variable node is named by its id.
proof fn lemma_named_env(nodes: Seq<crate::model::GraphNode>, name: Seq<char>)
    requires
        crate::builder::node_under(nodes, "env:"@ + name) matches Some(n) && crate::builder::env_var_shape(n, name),
    ensures
        crate::builder::node_under(nodes, "env:"@ + name) matches Some(n) && named_by_id(n, "env:"@ + name),
{
    reveal_strlit("env:");
    let id = "env:"@ + name;
    assert("env:"@.is_prefix_of(id)) by {
        assert(id.take(4) =~= "env:"@);
    }
    assert(id.skip(4) =~= name);
}

/// A fresh image node is named by its id.
proof fn lemma_named_image(nodes: Seq<crate::model::GraphNode>, reference: Seq<char>)
    requires
        crate::builder::node_under(nodes, "image:"@ + reference) matches Some(n) && crate::builder::image_shape(n, reference),
    ensures
        crate::builder::node_under(nodes, "image:"@ + reference) matches Some(n) && named_by_id(n, "image:"@ + reference),
{
    reveal_strlit("env:");
    reveal_strlit("image:");
    let id = "image:"@ + reference;
    assert(id[0] == 'i');
    assert(!"env:"@.is_prefix_of(id)) by {
        if "env:"@.is_prefix_of(id) {
            assert(id.take(4)[0] == 'e');
        }
    }
    assert("image:"@.is_prefix_of(id)) by {
        assert(id.take(6) =~= "image:"@);
    }
    assert(id.skip(6) =~= reference);
}

/// A fresh unresolved node is named by its id.
proof fn lemma_named_unresolved(nodes: Seq<crate::model::GraphNode>, value: Seq<char>)
    requires
        crate::builder::node_under(nodes, "unresolved:"@ + value) matches Some(n) && crate::builder::unresolved_shape(n, value),
    ensures
        crate::builder::node_under(nodes, "unresolved:"@ + value) matches Some(n) && named_by_id(n, "unresolved:"@ + value),
{
    reveal_strlit("env:");
    reveal_strlit("image:");
    reveal_strlit("unresolved:");
    let id = "unresolved:"@ + value;
    assert(id[0] == 'u');
    assert(!"env:"@.is_prefix_of(id)) by {
        if "env:"@.is_prefix_of(id) {
            assert(id.take(4)[0] == 'e');
        }
    }
    assert(!"image:"@.is_prefix_of(id)) by {
        if "image:"@.is_prefix_of(id) {
            assert(id.take(6)[0] == 'i');
        }
    }
    assert("unresolved:"@.is_prefix_of(id)) by {
        assert(id.take(11) =~= "unresolved:"@);
    }
    assert(id.skip(11) =~= value);
}

/// A configuration or command id says nothing of its node.
pub(crate) proof fn lemma_named_other(n: crate::model::GraphNode, id: Seq<char>)
    requires
        id.len() > 0,
        id[0] != 'e' && id[0] != 'i' && id[0] != 'u',
    ensures
        named_by_id(n, id),
{
    reveal_strlit("env:");
    reveal_strlit("image:");
    reveal_strlit("unresolved:");
    if "env:"@.is_prefix_of(id) {
        assert(id.take(4)[0] == 'e');
    }
    if "image:"@.is_prefix_of(id) {
        assert(id.take(6)[0] == 'i');
    }
    if "unresolved:"@.is_prefix_of(id) {
        assert(id.take(11)[0] == 'u');
    }
}

impl BuilderState {
    /// Records `ReadsEnv` from `source` to each variable of `vars`, after the
    /// plan `p` recorded so far.
    fn record_env_reads(
        &mut self,
        source: &GraphNodeId,
        vars: &Vec<EnvBinding>,
        Ghost(from): Ghost<int>,
        Ghost(count): Ghost<int>,
        Ghost(p): Ghost<Seq<PlannedRelation>>,
    )
        requires
            old(self).wf(),
            0 <= from,
            recorded_as(old(self).relations@, from, count, p),
            old(self).relation_count == count + p.len(),
            old(self).relation_count + vars@.len() < usize::MAX,
        ensures
            final(self).wf(),
            same_frame(*old(self), *final(self), from),
            final(self).relation_count == old(self).relation_count + vars@.len(),
            env_plans(source@, vars@).len() == vars@.len(),
            recorded_as(final(self).relations@, from, count, p + env_plans(source@, vars@)),
            node_keys(final(self).nodes@).to_set() == node_keys(old(self).nodes@).to_set() + targets(env_plans(source@, vars@)),
            keeps_nodes(old(self).nodes@, final(self).nodes@),
            new_nodes_named(old(self).nodes@, final(self).nodes@),
    {
        let ghost start = *self;
        let ghost ep = env_plans(source@, vars@);
        proof {
            lemma_env_plans_len(source@, vars@);
            assert(ep.take(0) =~= Seq::<PlannedRelation>::empty());
            assert(p + ep.take(0) =~= p);
            assert(targets(ep.take(0)) =~= Set::<Seq<char>>::empty());
            assert(node_keys(self.nodes@).to_set() =~= node_keys(start.nodes@).to_set() + targets(ep.take(0)));
        }
        let mut j: usize = 0;
        while j < vars.len()
            invariant
                j <= vars@.len(),
                0 <= from <= start.relations@.len(),
                self.wf(),
                same_frame(start, *self, from),
                ep == env_plans(source@, vars@),
                ep.len() == vars@.len(),
                start.relation_count == count + p.len(),
                start.relation_count + vars@.len() < usize::MAX,
                self.relation_count == start.relation_count + j,
                recorded_as(self.relations@, from, count, p + ep.take(j as int)),
                node_keys(self.nodes@).to_set() == node_keys(start.nodes@).to_set() + targets(ep.take(j as int)),
                keeps_nodes(start.nodes@, self.nodes@),
                new_nodes_named(start.nodes@, self.nodes@),
            decreases vars@.len() - j,
        {
            let binding = &vars[j];
            let ghost nodes0 = self.nodes@;
            let target = self.env_var(binding.key.as_str());
            proof {
                crate::builder::lemma_kept_or_added_keys(nodes0, self.nodes@, target@);
                lemma_keeps_step(start.nodes@, nodes0, self.nodes@, target@);
                if !node_keys(nodes0).contains(target@) {
                    lemma_named_env(self.nodes@, binding.key@);
                }
                lemma_named_step(start.nodes@, nodes0, self.nodes@, target@);
                lemma_env_plan_at(source@, vars@, j as int);
                lemma_plan_step(p, ep, j as int);
                lemma_plan_step(Seq::empty(), ep, j as int);
                assert(Seq::<PlannedRelation>::empty() + ep.take(j as int) =~= ep.take(j as int));
                assert(Seq::<PlannedRelation>::empty() + ep.take(j + 1) =~= ep.take(j + 1));
            }
            self.record(source, target, RelationKind::ReadsEnv, Confidence::High, &binding.evidence, Ghost(from), Ghost(count), Ghost(p + ep.take(j as int)));
            proof {
                assert(node_keys(self.nodes@).to_set() =~= node_keys(start.nodes@).to_set() + targets(ep.take(j + 1)));
            }
            j = j + 1;
        }
        proof {
            assert(ep.take(ep.len() as int) =~= ep);
        }
    }
}

// ---- Compose

/// One Compose service: its name, image, environment, and the services it depends on.
pub struct ComposeService {
    pub name: String,
    pub image: Option<String>,
    pub environment: Vec<EnvBinding>,
    pub depends_on: Vec<String>,
    pub evidence: EvidenceRef,
}

/// What a Compose file declares.
pub struct ComposeProfile {
    pub services: Vec<ComposeService>,
}

/// The id of the configuration node `key` of the artifact at `path`.
pub open spec fn config_id(path: Seq<char>, key: Seq<char>) -> Seq<char> {
    "config:"@ + path + "#"@ + key
}

/// The configuration id of service `name`.
pub open spec fn service_id(path: Seq<char>, name: Seq<char>) -> Seq<char> {
    config_id(path, "services."@ + name)
}

/// What a service dependency on `d` points at: the service when the file
/// declares one of that name, else an unresolved node.
pub open spec fn dependency_target(path: Seq<char>, names: Seq<Seq<char>>, d: Seq<char>) -> Seq<char> {
    if names.contains(d) {
        service_id(path, d)
    } else {
        "unresolved:"@ + d
    }
}

/// `References` from `source` to each dependency.
pub open spec fn depends_plans(source: Seq<char>, path: Seq<char>, names: Seq<Seq<char>>, deps: Seq<String>, e: EvidenceRef) -> Seq<PlannedRelation>
    decreases deps.len(),
{
    if deps.len() == 0 {
        Seq::empty()
    } else {
        depends_plans(source, path, names, deps.drop_last(), e).push(
            observed(source, dependency_target(path, names, deps.last()@), RelationKind::References, e),
        )
    }
}

/// The relations one service gives: the file contains it, it uses its
/// image, reads its variables, and references its dependencies.
pub open spec fn service_plan(node: Seq<char>, path: Seq<char>, names: Seq<Seq<char>>, s: ComposeService) -> Seq<PlannedRelation> {
    let sid = service_id(path, s.name@);
    let contains = seq![observed(node, sid, RelationKind::Contains, s.evidence)];
    contains + image_plan(sid, s) + env_plans(sid, s.environment@) + depends_plans(sid, path, names, s.depends_on@, s.evidence)
}

/// `UsesImage` from the service's node `sid` to its image, when it names one.
pub open spec fn image_plan(sid: Seq<char>, s: ComposeService) -> Seq<PlannedRelation> {
    match s.image {
        Some(img) => seq![observed(sid, "image:"@ + img@, RelationKind::UsesImage, s.evidence)],
        None => Seq::empty(),
    }
}

/// The service's own node `sid`, and its image's when it names one.
pub open spec fn own_nodes(sid: Seq<char>, s: ComposeService) -> Set<Seq<char>> {
    match s.image {
        Some(img) => set![sid, "image:"@ + img@],
        None => set![sid],
    }
}

/// The relations of the services, in order.
pub open spec fn compose_plan(node: Seq<char>, path: Seq<char>, names: Seq<Seq<char>>, services: Seq<ComposeService>) -> Seq<PlannedRelation>
    decreases services.len(),
{
    if services.len() == 0 {
        Seq::empty()
    } else {
        compose_plan(node, path, names, services.drop_last()) + service_plan(node, path, names, services.last())
    }
}

/// The unresolved nodes for the dependencies on undeclared services.
pub open spec fn unresolved_deps(names: Seq<Seq<char>>, deps: Seq<String>) -> Set<Seq<char>>
    decreases deps.len(),
{
    if deps.len() == 0 {
        Set::empty()
    } else {
        let d = deps.last()@;
        if names.contains(d) {
            unresolved_deps(names, deps.drop_last())
        } else {
            unresolved_deps(names, deps.drop_last()).insert("unresolved:"@ + d)
        }
    }
}

/// The nodes one service makes: its configuration node, its image, its
/// variables, and an unresolved node for each dependency on an undeclared service.
pub open spec fn service_nodes(path: Seq<char>, names: Seq<Seq<char>>, s: ComposeService) -> Set<Seq<char>> {
    let sid = service_id(path, s.name@);
    own_nodes(sid, s) + targets(env_plans(sid, s.environment@)) + unresolved_deps(names, s.depends_on@)
}

/// The nodes the services make.
pub open spec fn compose_nodes(path: Seq<char>, names: Seq<Seq<char>>, services: Seq<ComposeService>) -> Set<Seq<char>>
    decreases services.len(),
{
    if services.len() == 0 {
        Set::empty()
    } else {
        compose_nodes(path, names, services.drop_last()) + service_nodes(path, names, services.last())
    }
}

/// The names of the services.
pub open spec fn service_names(services: Seq<ComposeService>) -> Seq<Seq<char>> {
    services.map_values(|s: ComposeService| s.name@)
}

proof fn lemma_depends_plans_len(source: Seq<char>, path: Seq<char>, names: Seq<Seq<char>>, deps: Seq<String>, e: EvidenceRef)
    ensures
        depends_plans(source, path, names, deps, e).len() == deps.len(),
    decreases deps.len(),
{
    if deps.len() > 0 {
        lemma_depends_plans_len(source, path, names, deps.drop_last(), e);
    }
}

proof fn lemma_depends_plan_at(source: Seq<char>, path: Seq<char>, names: Seq<Seq<char>>, deps: Seq<String>, e: EvidenceRef, i: int)
    requires
        0 <= i < deps.len(),
    ensures
        depends_plans(source, path, names, deps, e)[i] == observed(source, dependency_target(path, names, deps[i]@), RelationKind::References, e),
    decreases deps.len(),
{
    lemma_depends_plans_len(source, path, names, deps.drop_last(), e);
    if i < deps.len() - 1 {
        lemma_depends_plan_at(source, path, names, deps.drop_last(), e, i);
    }
}

proof fn lemma_unresolved_step(names: Seq<Seq<char>>, deps: Seq<String>, k: int)
    requires
        0 <= k < deps.len(),
    ensures
        unresolved_deps(names, deps.take(k + 1)) == if names.contains(deps[k]@) {
            unresolved_deps(names, deps.take(k))
        } else {
            unresolved_deps(names, deps.take(k)).insert("unresolved:"@ + deps[k]@)
        },
{
    assert(deps.take(k + 1).drop_last() =~= deps.take(k));
    assert(deps.take(k + 1).last() == deps[k]);
}

/// Whether a service of this name is declared.
fn declares(services: &Vec<ComposeService>, name: &String) -> (b: bool)
    ensures
        b == service_names(services@).contains(name@),
{
    let ghost names = service_names(services@);
    let mut i: usize = 0;
    while i < services.len()
        invariant
            i <= services@.len(),
            names == service_names(services@),
            forall|k: int| 0 <= k < i ==> names[k] != name@,
        decreases services@.len() - i,
    {
        if str_eq(services[i].name.as_str(), name.as_str()) {
            assert(names[i as int] == name@);
            return true;
        }
        i = i + 1;
    }
    false
}

impl BuilderState {
    /// Records one Compose service after the plan `p` recorded so far.
    #[verifier::spinoff_prover]
    #[verifier::rlimit(40)]
    fn process_service(
        &mut self,
        artifact: &Artifact,
        services: &Vec<ComposeService>,
        s: &ComposeService,
        artifact_node: &GraphNodeId,
        Ghost(from): Ghost<int>,
        Ghost(count): Ghost<int>,
        Ghost(p): Ghost<Seq<PlannedRelation>>,
    )
        requires
            old(self).wf(),
            0 <= from,
            recorded_as(old(self).relations@, from, count, p),
            old(self).relation_count == count + p.len(),
            old(self).relation_count + service_plan(artifact_node@, artifact.path@, service_names(services@), *s).len() < usize::MAX,
        ensures
            final(self).wf(),
            same_frame(*old(self), *final(self), from),
            final(self).relation_count == old(self).relation_count + service_plan(
                artifact_node@,
                artifact.path@,
                service_names(services@),
                *s,
            ).len(),
            recorded_as(final(self).relations@, from, count, p + service_plan(artifact_node@, artifact.path@, service_names(services@), *s)),
            node_keys(final(self).nodes@).to_set() == node_keys(old(self).nodes@).to_set() + service_nodes(
                artifact.path@,
                service_names(services@),
                *s,
            ),
            keeps_nodes(old(self).nodes@, final(self).nodes@),
            new_nodes_named(old(self).nodes@, final(self).nodes@),
            !node_keys(old(self).nodes@).contains(service_id(artifact.path@, s.name@)) ==> (crate::builder::node_under(
                final(self).nodes@,
                service_id(artifact.path@, s.name@),
            ) matches Some(n) && crate::builder::config_shape(n, ConfigNodeKind::Service, s.name@, s.evidence)),
    {
        let ghost start = *self;
        let ghost path = artifact.path@;
        let ghost names = service_names(services@);
        let ghost sid_view = service_id(path, s.name@);
        let key = cat("services.", s.name.as_str());
        let ghost nodes0 = self.nodes@;
        let sid = self.config(artifact.path.as_str(), key.as_str(), ConfigNodeKind::Service, s.name.as_str(), s.evidence.clone());
        let ghost made = self.nodes@;
        proof {
            crate::builder::lemma_kept_or_added_keys(nodes0, self.nodes@, sid@);
            assert(sid@ == sid_view);
            assert(keeps_nodes(nodes0, nodes0));
            lemma_keeps_step(nodes0, nodes0, made, sid@);
            assert(keeps_nodes(made, made));
            if !node_keys(nodes0).contains(sid@) {
                reveal_strlit("config:");
                assert(sid@[0] == 'c');
                lemma_named_other(crate::builder::node_under(made, sid@)->0, sid@);
            }
            lemma_named_step(nodes0, nodes0, made, sid@);
            assert(node_keys(made).contains(sid_view)) by {
                assert(node_keys(made).to_set().contains(sid_view));
            }
        }
        let target = sid.clone();
        self.record(artifact_node, target, RelationKind::Contains, Confidence::High, &s.evidence, Ghost(from), Ghost(count), Ghost(p));
        let ghost head = seq![observed(artifact_node@, sid_view, RelationKind::Contains, s.evidence)];
        let ghost image_part = image_plan(sid_view, *s);
        let ghost own = own_nodes(sid_view, *s);
        proof {
            assert(p.push(head[0]) =~= p + head);
            assert(node_keys(self.nodes@).to_set() =~= node_keys(start.nodes@).to_set() + set![sid_view]);
        }
        match &s.image {
            Some(img) => {
                let ghost nodes1 = self.nodes@;
                let t = self.image(img.as_str());
                proof {
                    crate::builder::lemma_kept_or_added_keys(nodes1, self.nodes@, t@);
                    lemma_keeps_step(made, nodes1, self.nodes@, t@);
                    if !node_keys(nodes1).contains(t@) {
                        lemma_named_image(self.nodes@, img@);
                    }
                    lemma_named_step(start.nodes@, nodes1, self.nodes@, t@);
                }
                self.record(&sid, t, RelationKind::UsesImage, Confidence::High, &s.evidence, Ghost(from), Ghost(count), Ghost(p + head));
                proof {
                    assert((p + head).push(image_part[0]) =~= p + head + image_part);
                    assert(node_keys(self.nodes@).to_set() =~= node_keys(start.nodes@).to_set() + own);
                }
            },
            None => {
                proof {
                    assert(p + head + image_part =~= p + head);
                    assert(node_keys(self.nodes@).to_set() =~= node_keys(start.nodes@).to_set() + own);
                }
            },
        }
        proof {
            lemma_env_plans_len(sid_view, s.environment@);
            lemma_depends_plans_len(sid_view, path, names, s.depends_on@, s.evidence);
            assert(service_plan(artifact_node@, path, names, *s) == head + image_part + env_plans(sid_view, s.environment@) + depends_plans(
                sid_view,
                path,
                names,
                s.depends_on@,
                s.evidence,
            ));
        }
        let ghost before_env = self.nodes@;
        assert(keeps_nodes(made, before_env));
        self.record_env_reads(&sid, &s.environment, Ghost(from), Ghost(count), Ghost(p + head + image_part));
        proof {
            lemma_keeps_trans(made, before_env, self.nodes@);
            lemma_named_trans(start.nodes@, before_env, self.nodes@);
        }
        let ghost ep = env_plans(sid_view, s.environment@);
        let ghost dp = depends_plans(sid_view, path, names, s.depends_on@, s.evidence);
        let ghost base = p + head + image_part + ep;
        proof {
            lemma_depends_plans_len(sid_view, path, names, s.depends_on@, s.evidence);
            assert(dp.take(0) =~= Seq::<PlannedRelation>::empty());
            assert(base + dp.take(0) =~= base);
            assert(unresolved_deps(names, s.depends_on@.take(0)) =~= Set::<Seq<char>>::empty());
            assert(node_keys(self.nodes@).to_set() =~= node_keys(start.nodes@).to_set() + own + targets(ep) + unresolved_deps(
                names,
                s.depends_on@.take(0),
            ));
        }
        let mut k: usize = 0;
        while k < s.depends_on.len()
            invariant
                k <= s.depends_on@.len(),
                0 <= from <= start.relations@.len(),
                self.wf(),
                same_frame(start, *self, from),
                sid@ == sid_view,
                names == service_names(services@),
                path == artifact.path@,
                dp == depends_plans(sid_view, path, names, s.depends_on@, s.evidence),
                dp.len() == s.depends_on@.len(),
                base.len() == p.len() + head.len() + image_part.len() + ep.len(),
                start.relation_count == count + p.len(),
                start.relation_count + (head + image_part + ep + dp).len() < usize::MAX,
                self.relation_count == count + base.len() + k,
                recorded_as(self.relations@, from, count, base + dp.take(k as int)),
                node_keys(self.nodes@).to_set() == node_keys(start.nodes@).to_set() + own + targets(ep) + unresolved_deps(
                    names,
                    s.depends_on@.take(k as int),
                ),
                keeps_nodes(made, self.nodes@),
                new_nodes_named(start.nodes@, self.nodes@),
                node_keys(made).to_set() == node_keys(start.nodes@).to_set() + set![sid_view],
                own.contains(sid_view),
            decreases s.depends_on@.len() - k,
        {
            let d = &s.depends_on[k];
            let ghost nodes2 = self.nodes@;
            let target = if declares(services, d) {
                let text = cat3("config:", artifact.path.as_str(), "#services.");
                GraphNodeId::from_string(cat(text.as_str(), d.as_str()))
            } else {
                self.unresolved(d.as_str())
            };
            proof {
                lemma_depends_plan_at(sid_view, path, names, s.depends_on@, s.evidence, k as int);
                lemma_plan_step(base, dp, k as int);
                lemma_unresolved_step(names, s.depends_on@, k as int);
                if !names.contains(d@) {
                    crate::builder::lemma_kept_or_added_keys(nodes2, self.nodes@, target@);
                    lemma_keeps_step(made, nodes2, self.nodes@, target@);
                    if !node_keys(nodes2).contains(target@) {
                        lemma_named_unresolved(self.nodes@, d@);
                    }
                    lemma_named_step(start.nodes@, nodes2, self.nodes@, target@);
                }
                if names.contains(d@) {
                    reveal_strlit("#services.");
                    reveal_strlit("#");
                    reveal_strlit("services.");
                    assert("#services."@ =~= "#"@ + "services."@);
                    assert(target@ =~= "config:"@ + path + "#"@ + ("services."@ + d@));
                }
                assert(target@ == dependency_target(path, names, d@));
            }
            self.record(&sid, target, RelationKind::References, Confidence::High, &s.evidence, Ghost(from), Ghost(count), Ghost(base + dp.take(k as int)));
            proof {
                assert(node_keys(self.nodes@).to_set() =~= node_keys(start.nodes@).to_set() + own + targets(ep) + unresolved_deps(
                    names,
                    s.depends_on@.take(k + 1),
                ));
            }
            k = k + 1;
        }
        proof {
            assert(dp.take(dp.len() as int) =~= dp);
            assert(s.depends_on@.take(s.depends_on@.len() as int) =~= s.depends_on@);
            assert(base + dp =~= p + service_plan(artifact_node@, path, names, *s));
            assert(node_keys(self.nodes@).to_set() =~= node_keys(start.nodes@).to_set() + service_nodes(path, names, *s));
            lemma_keeps_trans(start.nodes@, made, self.nodes@);
            assert(crate::builder::node_under(self.nodes@, sid_view) == crate::builder::node_under(made, sid_view));
        }
    }

    /// Records a Compose file's services for the artifact node
    /// `artifact_node`: the nodes [`compose_nodes`] lists and the relations
    /// [`compose_plan`] lists, numbered on from the state's count. A service
    /// that makes its node gives it its name and evidence.
    /// Nodes recorded before stay as they were, and each new node under a
    /// variable, image, or unresolved id is what the id names ([`named_by_id`]).
    #[verifier::spinoff_prover]
    pub fn process_compose(&mut self, artifact: &Artifact, profile: &ComposeProfile, artifact_node: &GraphNodeId)
        requires
            old(self).wf(),
            old(self).relation_count + compose_plan(artifact_node@, artifact.path@, service_names(profile.services@), profile.services@).len()
                < usize::MAX,
        ensures
            final(self).wf(),
            same_frame(*old(self), *final(self), old(self).relations@.len() as int),
            final(self).relation_count == old(self).relation_count + compose_plan(
                artifact_node@,
                artifact.path@,
                service_names(profile.services@),
                profile.services@,
            ).len(),
            recorded_as(
                final(self).relations@,
                old(self).relations@.len() as int,
                old(self).relation_count as int,
                compose_plan(artifact_node@, artifact.path@, service_names(profile.services@), profile.services@),
            ),
            node_keys(final(self).nodes@).to_set() == node_keys(old(self).nodes@).to_set() + compose_nodes(
                artifact.path@,
                service_names(profile.services@),
                profile.services@,
            ),
            forall|i: int|
                0 <= i < profile.services@.len() && fresh_service(old(self).nodes@, artifact.path@, profile.services@, i)
                    ==> #[trigger] service_node(final(self).nodes@, artifact.path@, profile.services@, i),
            keeps_nodes(old(self).nodes@, final(self).nodes@),
            new_nodes_named(old(self).nodes@, final(self).nodes@),
    {
        let ghost start = *self;
        let ghost from = self.relations@.len() as int;
        let ghost count = self.relation_count as int;
        let ghost path = artifact.path@;
        let ghost names = service_names(profile.services@);
        let ghost services = profile.services@;
        proof {
            assert(services.take(0) =~= Seq::<ComposeService>::empty());
            assert(node_keys(self.nodes@).to_set() =~= node_keys(start.nodes@).to_set() + compose_nodes(path, names, services.take(0)));
            lemma_compose_plan_prefix(artifact_node@, path, names, services, 0);
        }
        let mut i: usize = 0;
        while i < profile.services.len()
            invariant
                i <= services.len(),
                services == profile.services@,
                count == start.relation_count,
                from == start.relations@.len(),
                names == service_names(services),
                path == artifact.path@,
                self.wf(),
                same_frame(start, *self, from),
                start.relation_count + compose_plan(artifact_node@, path, names, services).len() < usize::MAX,
                self.relation_count == count + compose_plan(artifact_node@, path, names, services.take(i as int)).len(),
                recorded_as(self.relations@, from, count, compose_plan(artifact_node@, path, names, services.take(i as int))),
                node_keys(self.nodes@).to_set() == node_keys(start.nodes@).to_set() + compose_nodes(path, names, services.take(i as int)),
                forall|q: int| 0 <= q < i && fresh_service(start.nodes@, path, services, q) ==> #[trigger] service_node(self.nodes@, path, services, q),
                keeps_nodes(start.nodes@, self.nodes@),
                new_nodes_named(start.nodes@, self.nodes@),
            decreases services.len() - i,
        {
            let service = &profile.services[i];
            let ghost before = self.nodes@;
            proof {
                assert(services.take(i + 1).drop_last() =~= services.take(i as int));
                assert(services.take(i + 1).last() == *service);
                lemma_compose_plan_prefix(artifact_node@, path, names, services, i + 1);
            }
            self.process_service(
                artifact,
                &profile.services,
                service,
                artifact_node,
                Ghost(from),
                Ghost(count),
                Ghost(compose_plan(artifact_node@, path, names, services.take(i as int))),
            );
            proof {
                assert(node_keys(start.nodes@).to_set().subset_of(node_keys(before).to_set()));
                lemma_keeps_trans(start.nodes@, before, self.nodes@);
                lemma_named_trans(start.nodes@, before, self.nodes@);
                assert(node_keys(self.nodes@).to_set() =~= node_keys(start.nodes@).to_set() + compose_nodes(path, names, services.take(i + 1)));
                assert forall|q: int| 0 <= q < i + 1 && fresh_service(start.nodes@, path, services, q) implies #[trigger] service_node(
                    self.nodes@,
                    path,
                    services,
                    q,
                ) by {
                    let id = service_id(path, services[q].name@);
                    if q < i {
                        assert(service_node(before, path, services, q));
                        let c = choose|c: int| 0 <= c < before.len() && crate::model::node_id(#[trigger] before[c]) == id;
                        assert(node_keys(before)[c] == id);
                        assert(node_keys(before).contains(id));
                        assert(crate::builder::node_under(self.nodes@, id) == crate::builder::node_under(before, id));
                    } else {
                        assert(services[q] == *service);
                        assert(!node_keys(before).contains(id)) by {
                            if node_keys(before).contains(id) {
                                assert(node_keys(before).to_set().contains(id));
                                if !node_keys(start.nodes@).to_set().contains(id) {
                                    lemma_compose_nodes_shape(path, names, services, i as int, id);
                                    reveal_strlit("config:");
                                    assert(id[0] == 'c');
                                    let j = choose|j: int| 0 <= j < i && id == #[trigger] service_id(path, services[j].name@);
                                    assert(service_id(path, services[j].name@) != service_id(path, services[i as int].name@));
                                } else {
                                    assert(node_keys(start.nodes@).contains(id));
                                }
                            }
                        }
                    }
                }
            }
            i = i + 1;
        }
        proof {
            assert(services.take(services.len() as int) =~= services);
        }
    }
}

/// The `i`th service makes its node: no node had its id before, and no
/// earlier service has it.
pub open spec fn fresh_service(before: Seq<crate::model::GraphNode>, path: Seq<char>, services: Seq<ComposeService>, i: int) -> bool {
    &&& !node_keys(before).contains(service_id(path, services[i].name@))
    &&& forall|j: int| 0 <= j < i ==> #[trigger] service_id(path, services[j].name@) != service_id(path, services[i].name@)
}

/// The node under the `i`th service's id is its configuration node.
pub open spec fn service_node(nodes: Seq<crate::model::GraphNode>, path: Seq<char>, services: Seq<ComposeService>, i: int) -> bool {
    crate::builder::node_under(nodes, service_id(path, services[i].name@)) matches Some(n) && crate::builder::config_shape(
        n,
        ConfigNodeKind::Service,
        services[i].name@,
        services[i].evidence,
    )
}

proof fn lemma_unresolved_targets(names: Seq<Seq<char>>, deps: Seq<String>, t: Seq<char>)
    requires
        unresolved_deps(names, deps).contains(t),
    ensures
        t.len() > 0 && t[0] == 'u',
    decreases deps.len(),
{
    reveal_strlit("unresolved:");
    if deps.len() > 0 {
        let d = deps.last()@;
        if !(!names.contains(d) && t == "unresolved:"@ + d) {
            lemma_unresolved_targets(names, deps.drop_last(), t);
        }
    }
}

/// A node the first `i` services make is the configuration node of one of
/// them, or has an id that does not start as a configuration id does.
proof fn lemma_compose_nodes_shape(path: Seq<char>, names: Seq<Seq<char>>, services: Seq<ComposeService>, i: int, t: Seq<char>)
    requires
        0 <= i <= services.len(),
        compose_nodes(path, names, services.take(i)).contains(t),
    ensures
        (t.len() > 0 && t[0] != 'c') || exists|j: int| 0 <= j < i && t == #[trigger] service_id(path, services[j].name@),
    decreases i,
{
    reveal_strlit("image:");
    if i > 0 {
        let prior = services.take(i - 1);
        assert(services.take(i).drop_last() =~= prior);
        assert(services.take(i).last() == services[i - 1]);
        let s = services[i - 1];
        let sid = service_id(path, s.name@);
        if compose_nodes(path, names, prior).contains(t) {
            lemma_compose_nodes_shape(path, names, services, i - 1, t);
            if exists|j: int| 0 <= j < i - 1 && t == #[trigger] service_id(path, services[j].name@) {
                let j = choose|j: int| 0 <= j < i - 1 && t == #[trigger] service_id(path, services[j].name@);
                assert(0 <= j < i);
            }
        } else {
            assert(service_nodes(path, names, s).contains(t));
            if own_nodes(sid, s).contains(t) {
                if t != sid {
                    assert(t[0] == 'i');
                }
            } else if targets(env_plans(sid, s.environment@)).contains(t) {
                lemma_env_targets(sid, s.environment@, t);
            } else {
                lemma_unresolved_targets(names, s.depends_on@, t);
            }
        }
    }
}

/// The plan of a prefix of the services is no longer than the whole plan.
proof fn lemma_compose_plan_prefix(node: Seq<char>, path: Seq<char>, names: Seq<Seq<char>>, services: Seq<ComposeService>, i: int)
    requires
        0 <= i <= services.len(),
    ensures
        compose_plan(node, path, names, services.take(i)).len() <= compose_plan(node, path, names, services).len(),
    decreases services.len() - i,
{
    if i < services.len() {
        lemma_compose_plan_prefix(node, path, names, services, i + 1);
        assert(services.take(i + 1).drop_last() =~= services.take(i));
    } else {
        assert(services.take(i) =~= services);
    }
}

// ---- GitHub Actions

/// What a step says about images: that it builds or publishes one, named
/// or not.
pub enum ActionsStepHint {
    Build { image: Option<String> },
    Publish { image: Option<String> },
}

/// One step of a job: the variables it sets, the command it runs, and its image hint.
pub struct ActionsStep {
    pub env: Vec<EnvBinding>,
    pub run: Option<String>,
    pub hint: Option<ActionsStepHint>,
    pub evidence: EvidenceRef,
}

/// One job of a workflow.
pub struct ActionsJob {
    pub id: String,
    pub steps: Vec<ActionsStep>,
    pub evidence: EvidenceRef,
}

/// What a workflow file declares.
pub struct ActionsProfile {
    pub jobs: Vec<ActionsJob>,
}

/// The configuration id of job `id`.
pub open spec fn job_id(path: Seq<char>, id: Seq<char>) -> Seq<char> {
    config_id(path, "jobs."@ + id)
}

/// The command key of step `index` of job `id`.
pub open spec fn step_key(id: Seq<char>, index: nat) -> Seq<char> {
    "jobs."@ + id + ".steps["@ + decimal(index) + "]"@
}

/// The image a build or publish hint points at, and how sure it is: the
/// named image, or an unresolved dynamic image with low confidence.
pub open spec fn hint_target(image: Option<String>) -> (Seq<char>, Confidence) {
    match image {
        Some(img) => ("image:"@ + img@, Confidence::High),
        None => ("unresolved:"@ + "dynamic-image"@, Confidence::Low),
    }
}

/// The relation a step's image hint gives its job.
pub open spec fn hint_plan(jid: Seq<char>, step: ActionsStep) -> Seq<PlannedRelation> {
    match step.hint {
        Some(ActionsStepHint::Build { image }) => seq![
            PlannedRelation {
                source: jid,
                target: hint_target(image).0,
                kind: RelationKind::BuildsImage,
                confidence: hint_target(image).1,
                evidence: seq![step.evidence],
                origin: None,
            },
        ],
        Some(ActionsStepHint::Publish { image }) => seq![
            PlannedRelation {
                source: jid,
                target: hint_target(image).0,
                kind: RelationKind::PublishesImage,
                confidence: hint_target(image).1,
                evidence: seq![step.evidence],
                origin: None,
            },
        ],
        None => Seq::empty(),
    }
}

/// The command a step runs, keyed by its job and position.
pub open spec fn run_plan(jid: Seq<char>, path: Seq<char>, id: Seq<char>, index: nat, step: ActionsStep) -> Seq<PlannedRelation> {
    match step.run {
        Some(r) => seq![observed(jid, command_id(path, step_key(id, index)), RelationKind::RunsCommand, step.evidence)],
        None => Seq::empty(),
    }
}

/// The relations one step gives its job: its variables, its command, its image hint.
pub open spec fn step_plan(jid: Seq<char>, path: Seq<char>, id: Seq<char>, index: nat, step: ActionsStep) -> Seq<PlannedRelation> {
    env_plans(jid, step.env@) + run_plan(jid, path, id, index, step) + hint_plan(jid, step)
}

/// The relations of the first `k` steps.
pub open spec fn steps_plan(jid: Seq<char>, path: Seq<char>, id: Seq<char>, steps: Seq<ActionsStep>, k: int) -> Seq<PlannedRelation>
    decreases k,
{
    if k <= 0 {
        Seq::empty()
    } else {
        steps_plan(jid, path, id, steps, k - 1) + step_plan(jid, path, id, (k - 1) as nat, steps[k - 1])
    }
}

/// The relations one job gives: the file contains it, then its steps'.
pub open spec fn job_plan(node: Seq<char>, path: Seq<char>, job: ActionsJob) -> Seq<PlannedRelation> {
    let jid = job_id(path, job.id@);
    seq![observed(node, jid, RelationKind::Contains, job.evidence)] + steps_plan(jid, path, job.id@, job.steps@, job.steps@.len() as int)
}

/// The relations of the jobs, in order.
pub open spec fn actions_plan(node: Seq<char>, path: Seq<char>, jobs: Seq<ActionsJob>) -> Seq<PlannedRelation>
    decreases jobs.len(),
{
    if jobs.len() == 0 {
        Seq::empty()
    } else {
        actions_plan(node, path, jobs.drop_last()) + job_plan(node, path, jobs.last())
    }
}

proof fn lemma_steps_plan_grows(jid: Seq<char>, path: Seq<char>, id: Seq<char>, steps: Seq<ActionsStep>, k: int, m: int)
    requires
        0 <= k <= m,
    ensures
        steps_plan(jid, path, id, steps, k).len() <= steps_plan(jid, path, id, steps, m).len(),
    decreases m - k,
{
    if k < m {
        lemma_steps_plan_grows(jid, path, id, steps, k, m - 1);
    }
}

/// `t` is no configuration id: it does not start as `con` does.
pub open spec fn not_config_like(t: Seq<char>) -> bool {
    (t.len() > 0 && t[0] != 'c') || (t.len() > 2 && t[2] != 'n')
}

/// The `i`th job makes its node: no node had its id before, and no earlier
/// job has it.
pub open spec fn fresh_job(before: Seq<crate::model::GraphNode>, path: Seq<char>, jobs: Seq<ActionsJob>, i: int) -> bool {
    &&& !node_keys(before).contains(job_id(path, jobs[i].id@))
    &&& forall|j: int| 0 <= j < i ==> #[trigger] job_id(path, jobs[j].id@) != job_id(path, jobs[i].id@)
}

/// The node under the `i`th job's id is its configuration node.
pub open spec fn job_node(nodes: Seq<crate::model::GraphNode>, path: Seq<char>, jobs: Seq<ActionsJob>, i: int) -> bool {
    crate::builder::node_under(nodes, job_id(path, jobs[i].id@)) matches Some(n) && crate::builder::config_shape(
        n,
        ConfigNodeKind::Job,
        jobs[i].id@,
        jobs[i].evidence,
    )
}

/// The id of the command step `k` of `job` runs.
pub open spec fn step_command_id(path: Seq<char>, job: ActionsJob, k: int) -> Seq<char> {
    command_id(path, step_key(job.id@, k as nat))
}

/// The node under the id of the command step `k` of `job` runs, if it runs
/// one, is that command: its text, its evidence, and the provenance read
/// from the artifact's category and the evidence path.
pub open spec fn step_node(
    nodes: Seq<crate::model::GraphNode>,
    category: crate::model::ArtifactCategory,
    path: Seq<char>,
    job: ActionsJob,
    k: int,
) -> bool {
    job.steps@[k].run matches Some(run) ==> (crate::builder::node_under(nodes, step_command_id(path, job, k)) matches Some(n)
        && crate::builder::command_shape(n, run@, command_origin(category, job.steps@[k].evidence.path@), job.steps@[k].evidence))
}

/// The relations a job gives before its step `k`: the file contains it,
/// then its earlier steps'.
pub open spec fn job_prefix(node: Seq<char>, path: Seq<char>, job: ActionsJob, k: int) -> Seq<PlannedRelation> {
    let jid = job_id(path, job.id@);
    seq![observed(node, jid, RelationKind::Contains, job.evidence)] + steps_plan(jid, path, job.id@, job.steps@, k)
}

/// Step `k` of the `i`th job makes its command node: no node had its id
/// before, and no relation recorded before the step targets it.
pub open spec fn fresh_step(
    before: Seq<crate::model::GraphNode>,
    node: Seq<char>,
    path: Seq<char>,
    jobs: Seq<ActionsJob>,
    i: int,
    k: int,
) -> bool {
    &&& !node_keys(before).contains(step_command_id(path, jobs[i], k))
    &&& !targets(actions_plan(node, path, jobs.take(i)) + job_prefix(node, path, jobs[i], k)).contains(step_command_id(path, jobs[i], k))
}

/// What one step targets is a variable, a command, an image, or an
/// unresolved image: never a configuration id.
proof fn lemma_step_targets(jid: Seq<char>, path: Seq<char>, id: Seq<char>, index: nat, step: ActionsStep, t: Seq<char>)
    requires
        targets(step_plan(jid, path, id, index, step)).contains(t),
    ensures
        not_config_like(t),
{
    reveal_strlit("command:");
    reveal_strlit("image:");
    reveal_strlit("unresolved:");
    let ep = env_plans(jid, step.env@);
    let rp = run_plan(jid, path, id, index, step);
    let hp = hint_plan(jid, step);
    lemma_targets_concat(ep, rp);
    lemma_targets_concat(ep + rp, hp);
    if targets(ep).contains(t) {
        lemma_env_targets(jid, step.env@, t);
    } else if targets(rp).contains(t) {
        lemma_targets_single(rp[0]);
        assert(rp =~= seq![rp[0]]);
        assert(t[2] == 'm');
    } else {
        lemma_targets_single(hp[0]);
        assert(hp =~= seq![hp[0]]);
        assert(t[0] == 'i' || t[0] == 'u');
    }
}

/// What the first `k` steps target is never a configuration id.
proof fn lemma_steps_targets(jid: Seq<char>, path: Seq<char>, id: Seq<char>, steps: Seq<ActionsStep>, k: int, t: Seq<char>)
    requires
        targets(steps_plan(jid, path, id, steps, k)).contains(t),
    ensures
        not_config_like(t),
    decreases k,
{
    if k > 0 {
        lemma_targets_concat(steps_plan(jid, path, id, steps, k - 1), step_plan(jid, path, id, (k - 1) as nat, steps[k - 1]));
        if targets(steps_plan(jid, path, id, steps, k - 1)).contains(t) {
            lemma_steps_targets(jid, path, id, steps, k - 1, t);
        } else {
            lemma_step_targets(jid, path, id, (k - 1) as nat, steps[k - 1], t);
        }
    }
}

/// What the first `i` jobs target is the id of one of them or no
/// configuration id.
proof fn lemma_actions_targets(node: Seq<char>, path: Seq<char>, jobs: Seq<ActionsJob>, i: int, t: Seq<char>)
    requires
        0 <= i <= jobs.len(),
        targets(actions_plan(node, path, jobs.take(i))).contains(t),
    ensures
        not_config_like(t) || exists|j: int| 0 <= j < i && t == #[trigger] job_id(path, jobs[j].id@),
    decreases i,
{
    let prior = jobs.take(i - 1);
    assert(jobs.take(i).drop_last() =~= prior);
    assert(jobs.take(i).last() == jobs[i - 1]);
    let job = jobs[i - 1];
    let jid = job_id(path, job.id@);
    lemma_targets_concat(actions_plan(node, path, prior), job_plan(node, path, job));
    if targets(actions_plan(node, path, prior)).contains(t) {
        lemma_actions_targets(node, path, jobs, i - 1, t);
        if exists|j: int| 0 <= j < i - 1 && t == #[trigger] job_id(path, jobs[j].id@) {
            let j = choose|j: int| 0 <= j < i - 1 && t == #[trigger] job_id(path, jobs[j].id@);
            assert(0 <= j < i);
        }
    } else {
        let head = seq![observed(node, jid, RelationKind::Contains, job.evidence)];
        let rest = steps_plan(jid, path, job.id@, job.steps@, job.steps@.len() as int);
        lemma_targets_concat(head, rest);
        lemma_targets_single(head[0]);
        assert(head =~= seq![head[0]]);
        if targets(rest).contains(t) {
            lemma_steps_targets(jid, path, job.id@, job.steps@, job.steps@.len() as int, t);
        } else {
            assert(t == job_id(path, jobs[i - 1].id@));
        }
    }
}

proof fn lemma_actions_plan_prefix(node: Seq<char>, path: Seq<char>, jobs: Seq<ActionsJob>, i: int)
    requires
        0 <= i <= jobs.len(),
    ensures
        actions_plan(node, path, jobs.take(i)).len() <= actions_plan(node, path, jobs).len(),
    decreases jobs.len() - i,
{
    if i < jobs.len() {
        lemma_actions_plan_prefix(node, path, jobs, i + 1);
        assert(jobs.take(i + 1).drop_last() =~= jobs.take(i));
    } else {
        assert(jobs.take(i) =~= jobs);
    }
}

impl BuilderState {
    /// The image node a build or publish hint points at, with its confidence,
    /// as [`hint_target`] says.
    pub fn hint_image_target(&mut self, image: &Option<String>) -> (r: (GraphNodeId, Confidence))
        requires
            old(self).wf(),
        ensures
            final(self).wf(),
            crate::builder::same_but_nodes(*old(self), *final(self)),
            r.0@ == hint_target(*image).0,
            r.1 == hint_target(*image).1,
            crate::builder::kept_or_added(old(self).nodes@, final(self).nodes@, r.0@),
            !node_keys(old(self).nodes@).contains(r.0@) ==> (crate::builder::node_under(final(self).nodes@, r.0@) matches Some(n)
                && named_by_id(n, r.0@)),
    {
        match image {
            Some(img) => {
                let t = self.image(img.as_str());
                proof {
                    if !node_keys(old(self).nodes@).contains(t@) {
                        lemma_named_image(self.nodes@, img@);
                    }
                }
                (t, Confidence::High)
            },
            None => {
                let t = self.unresolved("dynamic-image");
                proof {
                    if !node_keys(old(self).nodes@).contains(t@) {
                        lemma_named_unresolved(self.nodes@, "dynamic-image"@);
                    }
                }
                (t, Confidence::Low)
            },
        }
    }

    /// Records one step of job `jid` after the plan `p` recorded so far.
    #[verifier::spinoff_prover]
    fn process_step(
        &mut self,
        artifact: &Artifact,
        jid: &GraphNodeId,
        job: &ActionsJob,
        index: usize,
        Ghost(from): Ghost<int>,
        Ghost(count): Ghost<int>,
        Ghost(p): Ghost<Seq<PlannedRelation>>,
    )
        requires
            old(self).wf(),
            0 <= from,
            index < job.steps@.len(),
            recorded_as(old(self).relations@, from, count, p),
            old(self).relation_count == count + p.len(),
            old(self).relation_count + step_plan(jid@, artifact.path@, job.id@, index as nat, job.steps@[index as int]).len() < usize::MAX,
        ensures
            final(self).wf(),
            same_frame(*old(self), *final(self), from),
            final(self).relation_count == old(self).relation_count + step_plan(
                jid@,
                artifact.path@,
                job.id@,
                index as nat,
                job.steps@[index as int],
            ).len(),
            recorded_as(final(self).relations@, from, count, p + step_plan(jid@, artifact.path@, job.id@, index as nat, job.steps@[index as int])),
            node_keys(final(self).nodes@).to_set() == node_keys(old(self).nodes@).to_set() + targets(
                step_plan(jid@, artifact.path@, job.id@, index as nat, job.steps@[index as int]),
            ),
            keeps_nodes(old(self).nodes@, final(self).nodes@),
            new_nodes_named(old(self).nodes@, final(self).nodes@),
            !node_keys(old(self).nodes@).contains(step_command_id(artifact.path@, *job, index as int)) ==> step_node(
                final(self).nodes@,
                artifact.category,
                artifact.path@,
                *job,
                index as int,
            ),
    {
        let ghost start = *self;
        let step = &job.steps[index];
        let ghost path = artifact.path@;
        let ghost ep = env_plans(jid@, step.env@);
        let ghost rp = run_plan(jid@, path, job.id@, index as nat, *step);
        let ghost hp = hint_plan(jid@, *step);
        proof {
            lemma_env_plans_len(jid@, step.env@);
            assert(step_plan(jid@, path, job.id@, index as nat, *step) == ep + rp + hp);
        }
        self.record_env_reads(jid, &step.env, Ghost(from), Ghost(count), Ghost(p));
        let ghost after_env = node_keys(self.nodes@).to_set();
        let ghost after_env_nodes = self.nodes@;
        match &step.run {
            Some(run) => {
                let head = cat3("jobs.", job.id.as_str(), ".steps[");
                let number = decimal_string(index);
                let key = cat3(head.as_str(), number.as_str(), "]");
                let ghost nodes0 = self.nodes@;
                let target = self.command(artifact, key.as_str(), run.as_str(), step.evidence.clone());
                proof {
                    crate::builder::lemma_kept_or_added_keys(nodes0, self.nodes@, target@);
                    assert(node_keys(start.nodes@).to_set().subset_of(node_keys(nodes0).to_set()));
                    lemma_keeps_step(start.nodes@, nodes0, self.nodes@, target@);
                    if !node_keys(nodes0).contains(target@) {
                        reveal_strlit("command:");
                        assert(target@[0] == 'c');
                        lemma_named_other(crate::builder::node_under(self.nodes@, target@)->0, target@);
                    }
                    lemma_named_step(start.nodes@, nodes0, self.nodes@, target@);
                    assert(target@ =~= command_id(path, step_key(job.id@, index as nat)));
                }
                self.record(jid, target, RelationKind::RunsCommand, Confidence::High, &step.evidence, Ghost(from), Ghost(count), Ghost(p + ep));
                proof {
                    assert((p + ep).push(rp[0]) =~= p + ep + rp);
                    lemma_targets_single(rp[0]);
                    assert(rp =~= seq![rp[0]]);
                    assert(node_keys(self.nodes@).to_set() =~= after_env + targets(rp));
                }
            },
            None => {
                proof {
                    assert(p + ep + rp =~= p + ep);
                    assert(targets(rp) =~= Set::<Seq<char>>::empty());
                    assert(node_keys(self.nodes@).to_set() =~= after_env + targets(rp));
                }
            },
        }
        let ghost after_run = node_keys(self.nodes@).to_set();
        let ghost after_cmd = self.nodes@;
        proof {
            if !node_keys(start.nodes@).contains(step_command_id(path, *job, index as int)) {
                if step.run is Some {
                    let c = step_command_id(path, *job, index as int);
                    assert(!node_keys(after_env_nodes).contains(c)) by {
                        if node_keys(after_env_nodes).contains(c) {
                            assert(after_env.contains(c));
                            if !node_keys(start.nodes@).to_set().contains(c) {
                                lemma_env_targets(jid@, step.env@, c);
                                reveal_strlit("command:");
                                assert(c[0] == 'c');
                            } else {
                                assert(node_keys(start.nodes@).contains(c));
                            }
                        }
                    }
                }
            }
        }
        match &step.hint {
            Some(ActionsStepHint::Build { image }) => {
                let ghost nodes1 = self.nodes@;
                let (target, confidence) = self.hint_image_target(image);
                proof {
                    crate::builder::lemma_kept_or_added_keys(nodes1, self.nodes@, target@);
                    assert(node_keys(start.nodes@).to_set().subset_of(node_keys(nodes1).to_set()));
                    lemma_keeps_step(start.nodes@, nodes1, self.nodes@, target@);
                    assert(keeps_nodes(after_cmd, nodes1));
                    lemma_keeps_step(after_cmd, nodes1, self.nodes@, target@);
                    lemma_named_step(start.nodes@, nodes1, self.nodes@, target@);
                }
                self.record(jid, target, RelationKind::BuildsImage, confidence, &step.evidence, Ghost(from), Ghost(count), Ghost(p + ep + rp));
                proof {
                    assert((p + ep + rp).push(hp[0]) =~= p + ep + rp + hp);
                    assert(node_keys(self.nodes@).to_set() =~= after_run + targets(hp));
                }
            },
            Some(ActionsStepHint::Publish { image }) => {
                let ghost nodes1 = self.nodes@;
                let (target, confidence) = self.hint_image_target(image);
                proof {
                    crate::builder::lemma_kept_or_added_keys(nodes1, self.nodes@, target@);
                    assert(node_keys(start.nodes@).to_set().subset_of(node_keys(nodes1).to_set()));
                    lemma_keeps_step(start.nodes@, nodes1, self.nodes@, target@);
                    assert(keeps_nodes(after_cmd, nodes1));
                    lemma_keeps_step(after_cmd, nodes1, self.nodes@, target@);
                    lemma_named_step(start.nodes@, nodes1, self.nodes@, target@);
                }
                self.record(jid, target, RelationKind::PublishesImage, confidence, &step.evidence, Ghost(from), Ghost(count), Ghost(p + ep + rp));
                proof {
                    assert((p + ep + rp).push(hp[0]) =~= p + ep + rp + hp);
                    assert(node_keys(self.nodes@).to_set() =~= after_run + targets(hp));
                }
            },
            None => {
                proof {
                    assert(p + ep + rp + hp =~= p + ep + rp);
                    assert(targets(hp) =~= Set::<Seq<char>>::empty());
                }
            },
        }
        proof {
            lemma_targets_concat(ep, rp);
            lemma_targets_concat(ep + rp, hp);
            assert(p + ep + rp + hp =~= p + (ep + rp + hp));
            assert(node_keys(self.nodes@).to_set() =~= node_keys(start.nodes@).to_set() + targets(ep + rp + hp));
            let c = step_command_id(path, *job, index as int);
            if step.run is Some && !node_keys(start.nodes@).contains(c) {
                assert(step_node(after_cmd, artifact.category, path, *job, index as int));
                let k = choose|k: int| 0 <= k < after_cmd.len() && crate::model::node_id(#[trigger] after_cmd[k]) == c;
                assert(node_keys(after_cmd)[k] == c);
                assert(node_keys(after_cmd).contains(c));
                assert(keeps_nodes(after_cmd, self.nodes@));
                assert(crate::builder::node_under(self.nodes@, c) == crate::builder::node_under(after_cmd, c));
            }
        }
    }

    /// Records one job after the plan `p` recorded so far.
    #[verifier::spinoff_prover]
    fn process_job(
        &mut self,
        artifact: &Artifact,
        job: &ActionsJob,
        artifact_node: &GraphNodeId,
        Ghost(from): Ghost<int>,
        Ghost(count): Ghost<int>,
        Ghost(p): Ghost<Seq<PlannedRelation>>,
    )
        requires
            old(self).wf(),
            0 <= from,
            recorded_as(old(self).relations@, from, count, p),
            old(self).relation_count == count + p.len(),
            old(self).relation_count + job_plan(artifact_node@, artifact.path@, *job).len() < usize::MAX,
        ensures
            final(self).wf(),
            same_frame(*old(self), *final(self), from),
            final(self).relation_count == old(self).relation_count + job_plan(artifact_node@, artifact.path@, *job).len(),
            recorded_as(final(self).relations@, from, count, p + job_plan(artifact_node@, artifact.path@, *job)),
            node_keys(final(self).nodes@).to_set() == node_keys(old(self).nodes@).to_set() + targets(
                job_plan(artifact_node@, artifact.path@, *job),
            ),
            keeps_nodes(old(self).nodes@, final(self).nodes@),
            new_nodes_named(old(self).nodes@, final(self).nodes@),
            !node_keys(old(self).nodes@).contains(job_id(artifact.path@, job.id@)) ==> (crate::builder::node_under(
                final(self).nodes@,
                job_id(artifact.path@, job.id@),
            ) matches Some(n) && crate::builder::config_shape(n, ConfigNodeKind::Job, job.id@, job.evidence)),
            forall|k: int|
                0 <= k < job.steps@.len() && !node_keys(old(self).nodes@).contains(step_command_id(artifact.path@, *job, k)) && !targets(
                    job_prefix(artifact_node@, artifact.path@, *job, k),
                ).contains(step_command_id(artifact.path@, *job, k)) ==> #[trigger] step_node(
                    final(self).nodes@,
                    artifact.category,
                    artifact.path@,
                    *job,
                    k,
                ),
    {
        let ghost start = *self;
        let ghost path = artifact.path@;
        let ghost jid_view = job_id(path, job.id@);
        let key = cat("jobs.", job.id.as_str());
        let ghost nodes0 = self.nodes@;
        let jid = self.config(artifact.path.as_str(), key.as_str(), ConfigNodeKind::Job, job.id.as_str(), job.evidence.clone());
        proof {
            crate::builder::lemma_kept_or_added_keys(nodes0, self.nodes@, jid@);
            assert(jid@ == jid_view);
            assert(keeps_nodes(nodes0, nodes0));
            lemma_keeps_step(nodes0, nodes0, self.nodes@, jid@);
            if !node_keys(nodes0).contains(jid@) {
                reveal_strlit("config:");
                assert(jid@[0] == 'c');
                lemma_named_other(crate::builder::node_under(self.nodes@, jid@)->0, jid@);
            }
            lemma_named_step(nodes0, nodes0, self.nodes@, jid@);
            assert(node_keys(self.nodes@).contains(jid_view)) by {
                assert(node_keys(self.nodes@).to_set().contains(jid_view));
            }
        }
        let ghost made = self.nodes@;
        let target = jid.clone();
        self.record(artifact_node, target, RelationKind::Contains, Confidence::High, &job.evidence, Ghost(from), Ghost(count), Ghost(p));
        let ghost head = seq![observed(artifact_node@, jid_view, RelationKind::Contains, job.evidence)];
        let ghost steps = job.steps@;
        proof {
            assert(p.push(head[0]) =~= p + head);
            lemma_targets_single(head[0]);
            assert(head =~= seq![head[0]]);
            assert(node_keys(self.nodes@).to_set() =~= node_keys(start.nodes@).to_set() + targets(head));
            assert(head + steps_plan(jid_view, path, job.id@, steps, 0) =~= head);
            lemma_steps_plan_grows(jid_view, path, job.id@, steps, 0, steps.len() as int);
        }
        let mut t: usize = 0;
        while t < job.steps.len()
            invariant
                t <= steps.len(),
                steps == job.steps@,
                0 <= from <= start.relations@.len(),
                jid@ == jid_view,
                jid_view == job_id(path, job.id@),
                path == artifact.path@,
                head == seq![observed(artifact_node@, jid_view, RelationKind::Contains, job.evidence)],
                self.wf(),
                same_frame(start, *self, from),
                start.relation_count == count + p.len(),
                start.relation_count + head.len() + steps_plan(jid_view, path, job.id@, steps, steps.len() as int).len() < usize::MAX,
                self.relation_count == count + p.len() + head.len() + steps_plan(jid_view, path, job.id@, steps, t as int).len(),
                recorded_as(self.relations@, from, count, p + (head + steps_plan(jid_view, path, job.id@, steps, t as int))),
                node_keys(self.nodes@).to_set() == node_keys(start.nodes@).to_set() + targets(
                    head + steps_plan(jid_view, path, job.id@, steps, t as int),
                ),
                keeps_nodes(start.nodes@, self.nodes@),
                new_nodes_named(start.nodes@, self.nodes@),
                keeps_nodes(made, self.nodes@),
                node_keys(made).contains(jid_view),
                node_keys(made).to_set().subset_of(node_keys(self.nodes@).to_set()),
                !node_keys(start.nodes@).contains(jid_view) ==> (crate::builder::node_under(made, jid_view) matches Some(n)
                    && crate::builder::config_shape(n, ConfigNodeKind::Job, job.id@, job.evidence)),
                forall|k: int|
                    0 <= k < t && !node_keys(start.nodes@).contains(step_command_id(path, *job, k)) && !targets(
                        job_prefix(artifact_node@, path, *job, k),
                    ).contains(step_command_id(path, *job, k)) ==> #[trigger] step_node(self.nodes@, artifact.category, path, *job, k),
            decreases steps.len() - t,
        {
            let ghost before_plan = p + (head + steps_plan(jid_view, path, job.id@, steps, t as int));
            let ghost sp = step_plan(jid_view, path, job.id@, t as nat, steps[t as int]);
            proof {
                lemma_steps_plan_grows(jid_view, path, job.id@, steps, t + 1, steps.len() as int);
                assert(steps_plan(jid_view, path, job.id@, steps, t + 1) == steps_plan(jid_view, path, job.id@, steps, t as int) + sp);
            }
            let ghost nodes1 = node_keys(self.nodes@).to_set();
            let ghost before_step = self.nodes@;
            self.process_step(artifact, &jid, job, t, Ghost(from), Ghost(count), Ghost(before_plan));
            proof {
                assert(node_keys(start.nodes@).to_set().subset_of(nodes1));
                lemma_keeps_trans(start.nodes@, before_step, self.nodes@);
                lemma_keeps_trans(made, before_step, self.nodes@);
                assert forall|k: int|
                    0 <= k < t + 1 && !node_keys(start.nodes@).contains(step_command_id(path, *job, k)) && !targets(
                        job_prefix(artifact_node@, path, *job, k),
                    ).contains(step_command_id(path, *job, k)) implies #[trigger] step_node(self.nodes@, artifact.category, path, *job, k) by {
                    let c = step_command_id(path, *job, k);
                    if k < t {
                        if steps[k].run is Some {
                            assert(step_node(before_step, artifact.category, path, *job, k));
                            let m = choose|m: int| 0 <= m < before_step.len() && crate::model::node_id(#[trigger] before_step[m]) == c;
                            assert(node_keys(before_step)[m] == c);
                            assert(node_keys(before_step).contains(c));
                            assert(crate::builder::node_under(self.nodes@, c) == crate::builder::node_under(before_step, c));
                        }
                    } else {
                        assert(k == t as int);
                        assert(job_prefix(artifact_node@, path, *job, k) =~= head + steps_plan(jid_view, path, job.id@, steps, t as int));
                        assert(!node_keys(before_step).contains(c)) by {
                            if node_keys(before_step).contains(c) {
                                assert(nodes1.contains(c));
                                assert(node_keys(start.nodes@).to_set().contains(c));
                                assert(node_keys(start.nodes@).contains(c));
                            }
                        }
                    }
                }
                lemma_named_trans(start.nodes@, before_step, self.nodes@);
                assert(before_plan + sp =~= p + (head + steps_plan(jid_view, path, job.id@, steps, t + 1)));
                lemma_targets_concat(head + steps_plan(jid_view, path, job.id@, steps, t as int), sp);
                assert(head + steps_plan(jid_view, path, job.id@, steps, t + 1) =~= head + steps_plan(jid_view, path, job.id@, steps, t as int) + sp);
                assert(node_keys(self.nodes@).to_set() =~= node_keys(start.nodes@).to_set() + targets(
                    head + steps_plan(jid_view, path, job.id@, steps, t + 1),
                ));
            }
            t = t + 1;
        }
        proof {
            assert(crate::builder::node_under(self.nodes@, jid_view) == crate::builder::node_under(made, jid_view));
        }
    }

    /// Records a workflow's jobs for the artifact node `artifact_node`: the
    /// relations [`actions_plan`] lists, numbered on from the state's count,
    /// and a node for each of their targets. A job that makes its node gives
    /// it its id as name and its evidence; a step that makes its command
    /// node gives it what [`step_node`] says.
    /// Nodes recorded before stay as they were, and each new node under a
    /// variable, image, or unresolved id is what the id names ([`named_by_id`]).
    #[verifier::spinoff_prover]
    pub fn process_actions(&mut self, artifact: &Artifact, profile: &ActionsProfile, artifact_node: &GraphNodeId)
        requires
            old(self).wf(),
            old(self).relation_count + actions_plan(artifact_node@, artifact.path@, profile.jobs@).len() < usize::MAX,
        ensures
            final(self).wf(),
            same_frame(*old(self), *final(self), old(self).relations@.len() as int),
            final(self).relation_count == old(self).relation_count + actions_plan(artifact_node@, artifact.path@, profile.jobs@).len(),
            recorded_as(
                final(self).relations@,
                old(self).relations@.len() as int,
                old(self).relation_count as int,
                actions_plan(artifact_node@, artifact.path@, profile.jobs@),
            ),
            node_keys(final(self).nodes@).to_set() == node_keys(old(self).nodes@).to_set() + targets(
                actions_plan(artifact_node@, artifact.path@, profile.jobs@),
            ),
            keeps_nodes(old(self).nodes@, final(self).nodes@),
            new_nodes_named(old(self).nodes@, final(self).nodes@),
            forall|i: int|
                0 <= i < profile.jobs@.len() && fresh_job(old(self).nodes@, artifact.path@, profile.jobs@, i) ==> #[trigger] job_node(
                    final(self).nodes@,
                    artifact.path@,
                    profile.jobs@,
                    i,
                ),
            forall|i: int, k: int|
                0 <= i < profile.jobs@.len() && 0 <= k < profile.jobs@[i].steps@.len() && fresh_step(
                    old(self).nodes@,
                    artifact_node@,
                    artifact.path@,
                    profile.jobs@,
                    i,
                    k,
                ) ==> #[trigger] step_node(final(self).nodes@, artifact.category, artifact.path@, profile.jobs@[i], k),
    {
        let ghost start = *self;
        let ghost from = self.relations@.len() as int;
        let ghost count = self.relation_count as int;
        let ghost path = artifact.path@;
        let ghost jobs = profile.jobs@;
        proof {
            assert(jobs.take(0) =~= Seq::<ActionsJob>::empty());
            assert(targets(Seq::<PlannedRelation>::empty()) =~= Set::<Seq<char>>::empty());
            assert(node_keys(self.nodes@).to_set() =~= node_keys(start.nodes@).to_set() + targets(actions_plan(artifact_node@, path, jobs.take(0))));
        }
        let mut i: usize = 0;
        while i < profile.jobs.len()
            invariant
                i <= jobs.len(),
                jobs == profile.jobs@,
                count == start.relation_count,
                from == start.relations@.len(),
                path == artifact.path@,
                self.wf(),
                same_frame(start, *self, from),
                start.relation_count + actions_plan(artifact_node@, path, jobs).len() < usize::MAX,
                self.relation_count == count + actions_plan(artifact_node@, path, jobs.take(i as int)).len(),
                recorded_as(self.relations@, from, count, actions_plan(artifact_node@, path, jobs.take(i as int))),
                node_keys(self.nodes@).to_set() == node_keys(start.nodes@).to_set() + targets(actions_plan(artifact_node@, path, jobs.take(i as int))),
                keeps_nodes(start.nodes@, self.nodes@),
                new_nodes_named(start.nodes@, self.nodes@),
                forall|q: int| 0 <= q < i && fresh_job(start.nodes@, path, jobs, q) ==> #[trigger] job_node(self.nodes@, path, jobs, q),
                forall|q: int, k: int|
                    0 <= q < i && 0 <= k < jobs[q].steps@.len() && fresh_step(start.nodes@, artifact_node@, path, jobs, q, k)
                        ==> #[trigger] step_node(self.nodes@, artifact.category, path, jobs[q], k),
            decreases jobs.len() - i,
        {
            let job = &profile.jobs[i];
            let ghost before_job = self.nodes@;
            proof {
                assert(node_keys(start.nodes@).to_set().subset_of(node_keys(before_job).to_set()));
                assert(jobs.take(i + 1).drop_last() =~= jobs.take(i as int));
                assert(jobs.take(i + 1).last() == *job);
                lemma_actions_plan_prefix(artifact_node@, path, jobs, i + 1);
            }
            self.process_job(artifact, job, artifact_node, Ghost(from), Ghost(count), Ghost(actions_plan(artifact_node@, path, jobs.take(i as int))));
            proof {
                lemma_targets_concat(actions_plan(artifact_node@, path, jobs.take(i as int)), job_plan(artifact_node@, path, *job));
                lemma_keeps_trans(start.nodes@, before_job, self.nodes@);
                lemma_named_trans(start.nodes@, before_job, self.nodes@);
                assert forall|q: int, k: int|
                    0 <= q < i + 1 && 0 <= k < jobs[q].steps@.len() && fresh_step(start.nodes@, artifact_node@, path, jobs, q, k) implies #[trigger] step_node(
                    self.nodes@,
                    artifact.category,
                    path,
                    jobs[q],
                    k,
                ) by {
                    let c = step_command_id(path, jobs[q], k);
                    if q < i {
                        if jobs[q].steps@[k].run is Some {
                            assert(step_node(before_job, artifact.category, path, jobs[q], k));
                            let m = choose|m: int| 0 <= m < before_job.len() && crate::model::node_id(#[trigger] before_job[m]) == c;
                            assert(node_keys(before_job)[m] == c);
                            assert(node_keys(before_job).contains(c));
                            assert(crate::builder::node_under(self.nodes@, c) == crate::builder::node_under(before_job, c));
                        }
                    } else {
                        assert(jobs[q] == *job);
                        let before_plan = actions_plan(artifact_node@, path, jobs.take(i as int));
                        lemma_targets_concat(before_plan, job_prefix(artifact_node@, path, *job, k));
                        assert(!node_keys(before_job).contains(c)) by {
                            if node_keys(before_job).contains(c) {
                                assert(node_keys(before_job).to_set().contains(c));
                                assert(node_keys(start.nodes@).to_set().contains(c));
                                assert(node_keys(start.nodes@).contains(c));
                            }
                        }
                    }
                }
                assert forall|q: int| 0 <= q < i + 1 && fresh_job(start.nodes@, path, jobs, q) implies #[trigger] job_node(
                    self.nodes@,
                    path,
                    jobs,
                    q,
                ) by {
                    let id = job_id(path, jobs[q].id@);
                    if q < i {
                        assert(job_node(before_job, path, jobs, q));
                        let c = choose|c: int| 0 <= c < before_job.len() && crate::model::node_id(#[trigger] before_job[c]) == id;
                        assert(node_keys(before_job)[c] == id);
                        assert(node_keys(before_job).contains(id));
                        assert(crate::builder::node_under(self.nodes@, id) == crate::builder::node_under(before_job, id));
                    } else {
                        assert(jobs[q] == *job);
                        assert(!node_keys(before_job).contains(id)) by {
                            if node_keys(before_job).contains(id) {
                                assert(node_keys(before_job).to_set().contains(id));
                                if !node_keys(start.nodes@).to_set().contains(id) {
                                    lemma_actions_targets(artifact_node@, path, jobs, i as int, id);
                                    reveal_strlit("config:");
                                    assert(id[0] == 'c' && id[2] == 'n');
                                    let j = choose|j: int| 0 <= j < i && id == #[trigger] job_id(path, jobs[j].id@);
                                    assert(false);
                                } else {
                                    assert(node_keys(start.nodes@).contains(id));
                                }
                            }
                        }
                    }
                }
            }
            i = i + 1;
        }
        proof {
            assert(jobs.take(jobs.len() as int) =~= jobs);
        }
    }
}

// ---- Structured configuration

/// What a value found in a structured configuration file refers to.
#[derive(Debug, Clone, Copy, PartialEq, Eq, Structural)]
pub enum ConfigReferenceKind {
    Path,
    Url,
    Port,
    Image,
    Service,
    Command,
    EnvironmentVariable,
}

/// One value of a structured configuration file, with the key path it sits under.
pub struct ConfigReference {
    pub kind: ConfigReferenceKind,
    pub value: String,
    pub config_path: String,
    pub evidence: EvidenceRef,
}

/// What a structured configuration file refers to.
pub struct StructuredAnalysis {
    pub references: Vec<ConfigReference>,
}

/// A mentioned path names an inventoried artifact.
pub open spec fn names_artifact(paths: Seq<Seq<char>>, value: Seq<char>) -> bool {
    paths.contains(crate::text::trim_start_all(value, "./"@))
}

/// The relation one configuration value gives the artifact node: paths and
/// URLs reference their artifact (or an unresolved node, with low
/// confidence); ports and services are contained configuration nodes;
/// images are used; commands run; variables are read.
pub open spec fn reference_plan(node: Seq<char>, path: Seq<char>, paths: Seq<Seq<char>>, r: ConfigReference) -> PlannedRelation {
    match r.kind {
        ConfigReferenceKind::Path | ConfigReferenceKind::Url => if names_artifact(paths, r.value@) {
            observed(node, "artifact:"@ + crate::text::trim_start_all(r.value@, "./"@), RelationKind::References, r.evidence)
        } else {
            PlannedRelation {
                source: node,
                target: "unresolved:"@ + r.value@,
                kind: RelationKind::References,
                confidence: Confidence::Low,
                evidence: seq![r.evidence],
                origin: None,
            }
        },
        ConfigReferenceKind::Port | ConfigReferenceKind::Service => observed(
            node,
            config_id(path, r.config_path@),
            RelationKind::Contains,
            r.evidence,
        ),
        ConfigReferenceKind::Image => observed(node, "image:"@ + r.value@, RelationKind::UsesImage, r.evidence),
        ConfigReferenceKind::Command => observed(node, command_id(path, r.config_path@), RelationKind::RunsCommand, r.evidence),
        ConfigReferenceKind::EnvironmentVariable => observed(node, "env:"@ + r.value@, RelationKind::ReadsEnv, r.evidence),
    }
}

/// The relations of the values, in order.
pub open spec fn structured_plan(node: Seq<char>, path: Seq<char>, paths: Seq<Seq<char>>, refs: Seq<ConfigReference>) -> Seq<PlannedRelation>
    decreases refs.len(),
{
    if refs.len() == 0 {
        Seq::empty()
    } else {
        structured_plan(node, path, paths, refs.drop_last()).push(reference_plan(node, path, paths, refs.last()))
    }
}

/// The nodes the values make: every target but an inventoried artifact's.
pub open spec fn structured_nodes(node: Seq<char>, path: Seq<char>, paths: Seq<Seq<char>>, refs: Seq<ConfigReference>) -> Set<Seq<char>>
    decreases refs.len(),
{
    if refs.len() == 0 {
        Set::empty()
    } else {
        let r = refs.last();
        let prior = structured_nodes(node, path, paths, refs.drop_last());
        if (r.kind == ConfigReferenceKind::Path || r.kind == ConfigReferenceKind::Url) && names_artifact(paths, r.value@) {
            prior
        } else {
            prior.insert(reference_plan(node, path, paths, r).target)
        }
    }
}

/// The `i`th value makes its node: no node had its target before, and no
/// earlier value has that target.
pub open spec fn fresh_reference(
    before: Seq<crate::model::GraphNode>,
    node: Seq<char>,
    path: Seq<char>,
    paths: Seq<Seq<char>>,
    refs: Seq<ConfigReference>,
    i: int,
) -> bool {
    &&& !node_keys(before).contains(reference_plan(node, path, paths, refs[i]).target)
    &&& forall|j: int| 0 <= j < i ==> #[trigger] reference_plan(node, path, paths, refs[j]).target != reference_plan(node, path, paths, refs[i]).target
}

/// The node under the `i`th value's target is what the value says: a port
/// or service configuration node with the value as its name, or a command
/// node running the value, its provenance read from the artifact's category
/// and the evidence path.
pub open spec fn reference_node(
    nodes: Seq<crate::model::GraphNode>,
    category: crate::model::ArtifactCategory,
    node: Seq<char>,
    path: Seq<char>,
    paths: Seq<Seq<char>>,
    refs: Seq<ConfigReference>,
    i: int,
) -> bool {
    let r = refs[i];
    let found = crate::builder::node_under(nodes, reference_plan(node, path, paths, r).target);
    match r.kind {
        ConfigReferenceKind::Port => found matches Some(n) && crate::builder::config_shape(n, ConfigNodeKind::Port, r.value@, r.evidence),
        ConfigReferenceKind::Service => found matches Some(n) && crate::builder::config_shape(n, ConfigNodeKind::Service, r.value@, r.evidence),
        ConfigReferenceKind::Command => found matches Some(n) && crate::builder::command_shape(
            n,
            r.value@,
            command_origin(category, r.evidence.path@),
            r.evidence,
        ),
        _ => true,
    }
}

/// A node the first `i` values make is the target of one of them.
proof fn lemma_structured_nodes_from(node: Seq<char>, path: Seq<char>, paths: Seq<Seq<char>>, refs: Seq<ConfigReference>, i: int, t: Seq<char>)
    requires
        0 <= i <= refs.len(),
        structured_nodes(node, path, paths, refs.take(i)).contains(t),
    ensures
        exists|j: int| 0 <= j < i && t == #[trigger] reference_plan(node, path, paths, refs[j]).target,
    decreases i,
{
    let prior = refs.take(i - 1);
    assert(refs.take(i).drop_last() =~= prior);
    assert(refs.take(i).last() == refs[i - 1]);
    if structured_nodes(node, path, paths, prior).contains(t) {
        lemma_structured_nodes_from(node, path, paths, refs, i - 1, t);
        let j = choose|j: int| 0 <= j < i - 1 && t == #[trigger] reference_plan(node, path, paths, refs[j]).target;
        assert(0 <= j < i);
    } else {
        assert(t == reference_plan(node, path, paths, refs[i - 1]).target);
    }
}

proof fn lemma_structured_plan_len(node: Seq<char>, path: Seq<char>, paths: Seq<Seq<char>>, refs: Seq<ConfigReference>)
    ensures
        structured_plan(node, path, paths, refs).len() == refs.len(),
    decreases refs.len(),
{
    if refs.len() > 0 {
        lemma_structured_plan_len(node, path, paths, refs.drop_last());
    }
}

impl BuilderState {
    /// Records what a structured configuration file refers to, for the
    /// artifact node `artifact_node`: the relations [`structured_plan`] lists,
    /// numbered on from the state's count, and the nodes [`structured_nodes`] lists.
    /// A port, service, or command value that makes its node gives it what
    /// [`reference_node`] says.
    /// Nodes recorded before stay as they were, and each new node under a
    /// variable, image, or unresolved id is what the id names ([`named_by_id`]).
    #[verifier::spinoff_prover]
    pub fn process_structured(&mut self, artifact: &Artifact, analysis: &StructuredAnalysis, artifact_node: &GraphNodeId)
        requires
            old(self).wf(),
            old(self).relation_count + analysis.references@.len() < usize::MAX,
        ensures
            final(self).wf(),
            same_frame(*old(self), *final(self), old(self).relations@.len() as int),
            final(self).relation_count == old(self).relation_count + analysis.references@.len(),
            recorded_as(
                final(self).relations@,
                old(self).relations@.len() as int,
                old(self).relation_count as int,
                structured_plan(artifact_node@, artifact.path@, crate::strmap::views(old(self).artifact_paths@), analysis.references@),
            ),
            node_keys(final(self).nodes@).to_set() == node_keys(old(self).nodes@).to_set() + structured_nodes(
                artifact_node@,
                artifact.path@,
                crate::strmap::views(old(self).artifact_paths@),
                analysis.references@,
            ),
            keeps_nodes(old(self).nodes@, final(self).nodes@),
            new_nodes_named(old(self).nodes@, final(self).nodes@),
            forall|i: int|
                0 <= i < analysis.references@.len() && fresh_reference(
                    old(self).nodes@,
                    artifact_node@,
                    artifact.path@,
                    crate::strmap::views(old(self).artifact_paths@),
                    analysis.references@,
                    i,
                ) ==> #[trigger] reference_node(
                    final(self).nodes@,
                    artifact.category,
                    artifact_node@,
                    artifact.path@,
                    crate::strmap::views(old(self).artifact_paths@),
                    analysis.references@,
                    i,
                ),
    {
        let ghost start = *self;
        let ghost from = self.relations@.len() as int;
        let ghost count = self.relation_count as int;
        let ghost path = artifact.path@;
        let ghost paths = crate::strmap::views(self.artifact_paths@);
        let ghost refs = analysis.references@;
        let ghost node = artifact_node@;
        proof {
            assert(refs.take(0) =~= Seq::<ConfigReference>::empty());
            assert(node_keys(self.nodes@).to_set() =~= node_keys(start.nodes@).to_set() + structured_nodes(node, path, paths, refs.take(0)));
        }
        let mut i: usize = 0;
        while i < analysis.references.len()
            invariant
                i <= refs.len(),
                refs == analysis.references@,
                count == start.relation_count,
                from == start.relations@.len(),
                path == artifact.path@,
                node == artifact_node@,
                paths == crate::strmap::views(start.artifact_paths@),
                self.wf(),
                same_frame(start, *self, from),
                start.relation_count + refs.len() < usize::MAX,
                self.relation_count == count + i,
                structured_plan(node, path, paths, refs.take(i as int)).len() == i,
                recorded_as(self.relations@, from, count, structured_plan(node, path, paths, refs.take(i as int))),
                node_keys(self.nodes@).to_set() == node_keys(start.nodes@).to_set() + structured_nodes(node, path, paths, refs.take(i as int)),
                keeps_nodes(start.nodes@, self.nodes@),
                new_nodes_named(start.nodes@, self.nodes@),
                forall|q: int|
                    0 <= q < i && fresh_reference(start.nodes@, node, path, paths, refs, q) ==> #[trigger] reference_node(
                        self.nodes@,
                        artifact.category,
                        node,
                        path,
                        paths,
                        refs,
                        q,
                    ),
            decreases refs.len() - i,
        {
            let r = &analysis.references[i];
            let ghost prior = structured_plan(node, path, paths, refs.take(i as int));
            let ghost nodes0 = self.nodes@;
            let ghost keys0 = node_keys(self.nodes@).to_set();
            proof {
                assert(node_keys(start.nodes@).to_set().subset_of(keys0));
                assert(refs.take(i + 1).drop_last() =~= refs.take(i as int));
                assert(refs.take(i + 1).last() == *r);
                assert(crate::strmap::views(self.artifact_paths@) == paths);
            }
            match r.kind {
                ConfigReferenceKind::Path | ConfigReferenceKind::Url => {
                    let (target, confidence) = self.reference_target(r.value.as_str());
                    proof {
                        if !names_artifact(paths, r.value@) {
                            crate::builder::lemma_kept_or_added_keys(nodes0, self.nodes@, target@);
                        lemma_keeps_step(start.nodes@, nodes0, self.nodes@, target@);
                        lemma_keeps_step(nodes0, nodes0, self.nodes@, target@);
                        if !node_keys(nodes0).contains(target@) {
                            lemma_named_unresolved(self.nodes@, r.value@);
                        }
                        lemma_named_step(start.nodes@, nodes0, self.nodes@, target@);
                        }
                    }
                    self.record(artifact_node, target, RelationKind::References, confidence, &r.evidence, Ghost(from), Ghost(count), Ghost(prior));
                },
                ConfigReferenceKind::Port => {
                    let target = self.config(artifact.path.as_str(), r.config_path.as_str(), ConfigNodeKind::Port, r.value.as_str(), r.evidence.clone());
                    proof {
                        crate::builder::lemma_kept_or_added_keys(nodes0, self.nodes@, target@);
                        lemma_keeps_step(start.nodes@, nodes0, self.nodes@, target@);
                        lemma_keeps_step(nodes0, nodes0, self.nodes@, target@);
                        if !node_keys(nodes0).contains(target@) {
                            reveal_strlit("config:");
                            reveal_strlit("command:");
                            assert(target@[0] == 'c');
                            lemma_named_other(crate::builder::node_under(self.nodes@, target@)->0, target@);
                        }
                        lemma_named_step(start.nodes@, nodes0, self.nodes@, target@);
                    }
                    self.record(artifact_node, target, RelationKind::Contains, Confidence::High, &r.evidence, Ghost(from), Ghost(count), Ghost(prior));
                },
                ConfigReferenceKind::Service => {
                    let target = self.config(artifact.path.as_str(), r.config_path.as_str(), ConfigNodeKind::Service, r.value.as_str(), r.evidence.clone());
                    proof {
                        crate::builder::lemma_kept_or_added_keys(nodes0, self.nodes@, target@);
                        lemma_keeps_step(start.nodes@, nodes0, self.nodes@, target@);
                        lemma_keeps_step(nodes0, nodes0, self.nodes@, target@);
                        if !node_keys(nodes0).contains(target@) {
                            reveal_strlit("config:");
                            reveal_strlit("command:");
                            assert(target@[0] == 'c');
                            lemma_named_other(crate::builder::node_under(self.nodes@, target@)->0, target@);
                        }
                        lemma_named_step(start.nodes@, nodes0, self.nodes@, target@);
                    }
                    self.record(artifact_node, target, RelationKind::Contains, Confidence::High, &r.evidence, Ghost(from), Ghost(count), Ghost(prior));
                },
                ConfigReferenceKind::Image => {
                    let target = self.image(r.value.as_str());
                    proof {
                        crate::builder::lemma_kept_or_added_keys(nodes0, self.nodes@, target@);
                        lemma_keeps_step(start.nodes@, nodes0, self.nodes@, target@);
                        lemma_keeps_step(nodes0, nodes0, self.nodes@, target@);
                        if !node_keys(nodes0).contains(target@) {
                            lemma_named_image(self.nodes@, r.value@);
                        }
                        lemma_named_step(start.nodes@, nodes0, self.nodes@, target@);
                    }
                    self.record(artifact_node, target, RelationKind::UsesImage, Confidence::High, &r.evidence, Ghost(from), Ghost(count), Ghost(prior));
                },
                ConfigReferenceKind::Command => {
                    let target = self.command(artifact, r.config_path.as_str(), r.value.as_str(), r.evidence.clone());
                    proof {
                        crate::builder::lemma_kept_or_added_keys(nodes0, self.nodes@, target@);
                        lemma_keeps_step(start.nodes@, nodes0, self.nodes@, target@);
                        lemma_keeps_step(nodes0, nodes0, self.nodes@, target@);
                        if !node_keys(nodes0).contains(target@) {
                            reveal_strlit("config:");
                            reveal_strlit("command:");
                            assert(target@[0] == 'c');
                            lemma_named_other(crate::builder::node_under(self.nodes@, target@)->0, target@);
                        }
                        lemma_named_step(start.nodes@, nodes0, self.nodes@, target@);
                    }
                    self.record(artifact_node, target, RelationKind::RunsCommand, Confidence::High, &r.evidence, Ghost(from), Ghost(count), Ghost(prior));
                },
                ConfigReferenceKind::EnvironmentVariable => {
                    let target = self.env_var(r.value.as_str());
                    proof {
                        crate::builder::lemma_kept_or_added_keys(nodes0, self.nodes@, target@);
                        lemma_keeps_step(start.nodes@, nodes0, self.nodes@, target@);
                        lemma_keeps_step(nodes0, nodes0, self.nodes@, target@);
                        if !node_keys(nodes0).contains(target@) {
                            lemma_named_env(self.nodes@, r.value@);
                        }
                        lemma_named_step(start.nodes@, nodes0, self.nodes@, target@);
                    }
                    self.record(artifact_node, target, RelationKind::ReadsEnv, Confidence::High, &r.evidence, Ghost(from), Ghost(count), Ghost(prior));
                },
            }
            proof {
                assert(structured_plan(node, path, paths, refs.take(i + 1)) == prior.push(reference_plan(node, path, paths, *r)));
                assert(node_keys(self.nodes@).to_set() =~= node_keys(start.nodes@).to_set() + structured_nodes(node, path, paths, refs.take(i + 1)));
                assert(keeps_nodes(nodes0, self.nodes@));
                assert forall|q: int| 0 <= q < i + 1 && fresh_reference(start.nodes@, node, path, paths, refs, q) implies #[trigger] reference_node(
                    self.nodes@,
                    artifact.category,
                    node,
                    path,
                    paths,
                    refs,
                    q,
                ) by {
                    let t = reference_plan(node, path, paths, refs[q]).target;
                    if q < i {
                        assert(reference_node(nodes0, artifact.category, node, path, paths, refs, q));
                        let k = refs[q].kind;
                        if k == ConfigReferenceKind::Port || k == ConfigReferenceKind::Service || k == ConfigReferenceKind::Command {
                            let c = choose|c: int| 0 <= c < nodes0.len() && crate::model::node_id(#[trigger] nodes0[c]) == t;
                            assert(node_keys(nodes0)[c] == t);
                            assert(node_keys(nodes0).contains(t));
                            assert(crate::builder::node_under(self.nodes@, t) == crate::builder::node_under(nodes0, t));
                        }
                    } else {
                        assert(refs[q] == *r);
                        assert(!node_keys(nodes0).contains(t)) by {
                            if node_keys(nodes0).contains(t) {
                                assert(keys0.contains(t));
                                if !node_keys(start.nodes@).to_set().contains(t) {
                                    lemma_structured_nodes_from(node, path, paths, refs, i as int, t);
                                    let j = choose|j: int| 0 <= j < i && t == #[trigger] reference_plan(node, path, paths, refs[j]).target;
                                    assert(false);
                                } else {
                                    assert(node_keys(start.nodes@).contains(t));
                                }
                            }
                        }
                    }
                }
            }
            i = i + 1;
        }
        proof {
            assert(refs.take(refs.len() as int) =~= refs);
        }
    }
}


// ---- Dispatch

/// What an analyzer found in one file: an infrastructure file or a Markdown document.
pub enum AnalyzerOutput {
    Dockerfile(DockerfileAnalysis),
    Compose(ComposeProfile),
    Actions(ActionsProfile),
    Structured(StructuredAnalysis),
    Markdown(crate::markdown::MarkdownAnalysis),
    /// A package manifest, with the provenance of its format; manifests are
    /// related in a pass of their own after the other outputs
    /// ([`crate::manifests::manifests_plan`]).
    PackageManifest(crate::manifests::PackageManifestAnalysis, crate::model::RelationProvenance),
}

/// The relations an analyzer output gives the artifact node `node` of the
/// artifact at `path`, where `paths` are the inventoried artifact paths.
pub open spec fn output_plan(node: Seq<char>, path: Seq<char>, paths: Seq<Seq<char>>, output: AnalyzerOutput) -> Seq<PlannedRelation> {
    match output {
        AnalyzerOutput::Dockerfile(a) => dockerfile_plan(node, path, a),
        AnalyzerOutput::Compose(c) => compose_plan(node, path, service_names(c.services@), c.services@),
        AnalyzerOutput::Actions(w) => actions_plan(node, path, w.jobs@),
        AnalyzerOutput::Structured(s) => structured_plan(node, path, paths, s.references@),
        AnalyzerOutput::Markdown(m) => crate::markdown::markdown_plan(node, path, paths, m),
        AnalyzerOutput::PackageManifest(_, _) => Seq::empty(),
    }
}

/// The node ids an analyzer output adds to those already recorded.
pub open spec fn output_nodes(node: Seq<char>, path: Seq<char>, paths: Seq<Seq<char>>, output: AnalyzerOutput) -> Set<Seq<char>> {
    match output {
        AnalyzerOutput::Dockerfile(a) => targets(dockerfile_plan(node, path, a)),
        AnalyzerOutput::Compose(c) => compose_nodes(path, service_names(c.services@), c.services@),
        AnalyzerOutput::Actions(w) => targets(actions_plan(node, path, w.jobs@)),
        AnalyzerOutput::Structured(s) => structured_nodes(node, path, paths, s.references@),
        AnalyzerOutput::Markdown(m) => crate::markdown::markdown_nodes(path, m),
        AnalyzerOutput::PackageManifest(_, _) => Set::empty(),
    }
}

/// What an analyzer output makes of the nodes it makes first: each node
/// that no node of `before` and no earlier finding of the output had the id
/// of is, in `nodes`, what that finding says.
pub open spec fn output_made(
    before: Seq<crate::model::GraphNode>,
    nodes: Seq<crate::model::GraphNode>,
    artifact: Artifact,
    node: Seq<char>,
    paths: Seq<Seq<char>>,
    output: AnalyzerOutput,
) -> bool {
    let path = artifact.path@;
    let category = artifact.category;
    match output {
        AnalyzerOutput::Dockerfile(a) => forall|k: int|
            0 <= k < a.commands@.len() && fresh_command(before, path, a.commands@, k) ==> #[trigger] docker_command_node(
                nodes,
                category,
                path,
                a.commands@,
                k,
            ),
        AnalyzerOutput::Compose(c) => forall|i: int|
            0 <= i < c.services@.len() && fresh_service(before, path, c.services@, i) ==> #[trigger] service_node(nodes, path, c.services@, i),
        AnalyzerOutput::Actions(w) => {
            &&& forall|i: int| 0 <= i < w.jobs@.len() && fresh_job(before, path, w.jobs@, i) ==> #[trigger] job_node(nodes, path, w.jobs@, i)
            &&& forall|i: int, k: int|
                0 <= i < w.jobs@.len() && 0 <= k < w.jobs@[i].steps@.len() && fresh_step(before, node, path, w.jobs@, i, k)
                    ==> #[trigger] step_node(nodes, category, path, w.jobs@[i], k)
        },
        AnalyzerOutput::Structured(s) => forall|i: int|
            0 <= i < s.references@.len() && fresh_reference(before, node, path, paths, s.references@, i) ==> #[trigger] reference_node(
                nodes,
                category,
                node,
                path,
                paths,
                s.references@,
                i,
            ),
        AnalyzerOutput::Markdown(m) => forall|i: int|
            0 <= i < crate::markdown::markdown_items(m).len() && crate::markdown::fresh_item(before, path, crate::markdown::markdown_items(m), i)
                ==> #[trigger] crate::markdown::item_made(nodes, category, path, crate::markdown::markdown_items(m), i),
        AnalyzerOutput::PackageManifest(_, _) => true,
    }
}

/// A node that `a` has under an id outside `package:` is the same in a
/// `b` that keeps such nodes.
pub proof fn lemma_kept_under(a: Seq<crate::model::GraphNode>, b: Seq<crate::model::GraphNode>, x: Seq<char>)
    requires
        crate::manifests::others_kept(a, b),
        crate::builder::node_under(a, x) is Some,
        x.len() > 0,
        x[0] == 'c' || x[0] == 'd',
    ensures
        crate::builder::node_under(b, x) == crate::builder::node_under(a, x),
{
    reveal_strlit("package:");
    let c = choose|c: int| 0 <= c < a.len() && crate::model::node_id(#[trigger] a[c]) == x;
    assert(node_keys(a)[c] == x);
    assert(node_keys(a).contains(x));
    if "package:"@.is_prefix_of(x) {
        assert(x[0] == "package:"@[0]);
    }
}

/// Keeping every node keeps the nodes outside `package:`.
pub proof fn lemma_keeps_others(a: Seq<crate::model::GraphNode>, b: Seq<crate::model::GraphNode>)
    requires
        keeps_nodes(a, b),
    ensures
        crate::manifests::others_kept(a, b),
{
}

/// What an output made stays made while later passes keep the nodes.
pub proof fn lemma_output_made_kept(
    before: Seq<crate::model::GraphNode>,
    a: Seq<crate::model::GraphNode>,
    b: Seq<crate::model::GraphNode>,
    artifact: Artifact,
    node: Seq<char>,
    paths: Seq<Seq<char>>,
    output: AnalyzerOutput,
)
    requires
        output_made(before, a, artifact, node, paths, output),
        crate::manifests::others_kept(a, b),
    ensures
        output_made(before, b, artifact, node, paths, output),
{
    reveal_strlit("command:");
    reveal_strlit("config:");
    reveal_strlit("doc:");
    let path = artifact.path@;
    let category = artifact.category;
    match output {
        AnalyzerOutput::Dockerfile(d) => {
            assert forall|k: int| 0 <= k < d.commands@.len() && fresh_command(before, path, d.commands@, k) implies #[trigger] docker_command_node(
                b,
                category,
                path,
                d.commands@,
                k,
            ) by {
                assert(docker_command_node(a, category, path, d.commands@, k));
                lemma_kept_under(a, b, docker_command_id(path, d.commands@, k));
            }
        },
        AnalyzerOutput::Compose(c) => {
            assert forall|i: int| 0 <= i < c.services@.len() && fresh_service(before, path, c.services@, i) implies #[trigger] service_node(
                b,
                path,
                c.services@,
                i,
            ) by {
                assert(service_node(a, path, c.services@, i));
                lemma_kept_under(a, b, service_id(path, c.services@[i].name@));
            }
        },
        AnalyzerOutput::Actions(w) => {
            assert forall|i: int| 0 <= i < w.jobs@.len() && fresh_job(before, path, w.jobs@, i) implies #[trigger] job_node(b, path, w.jobs@, i) by {
                assert(job_node(a, path, w.jobs@, i));
                lemma_kept_under(a, b, job_id(path, w.jobs@[i].id@));
            }
            assert forall|i: int, k: int|
                0 <= i < w.jobs@.len() && 0 <= k < w.jobs@[i].steps@.len() && fresh_step(before, node, path, w.jobs@, i, k) implies #[trigger] step_node(
                b,
                category,
                path,
                w.jobs@[i],
                k,
            ) by {
                assert(step_node(a, category, path, w.jobs@[i], k));
                if w.jobs@[i].steps@[k].run is Some {
                    lemma_kept_under(a, b, step_command_id(path, w.jobs@[i], k));
                }
            }
        },
        AnalyzerOutput::Structured(s) => {
            assert forall|i: int|
                0 <= i < s.references@.len() && fresh_reference(before, node, path, paths, s.references@, i) implies #[trigger] reference_node(
                b,
                category,
                node,
                path,
                paths,
                s.references@,
                i,
            ) by {
                assert(reference_node(a, category, node, path, paths, s.references@, i));
                let r = s.references@[i];
                if r.kind == ConfigReferenceKind::Port || r.kind == ConfigReferenceKind::Service || r.kind == ConfigReferenceKind::Command {
                    lemma_kept_under(a, b, reference_plan(node, path, paths, r).target);
                }
            }
        },
        AnalyzerOutput::Markdown(m) => {
            let its = crate::markdown::markdown_items(m);
            assert forall|i: int| 0 <= i < its.len() && crate::markdown::fresh_item(before, path, its, i) implies #[trigger] crate::markdown::item_made(
                b,
                category,
                path,
                its,
                i,
            ) by {
                assert(crate::markdown::item_made(a, category, path, its, i));
                match its[i] {
                    crate::markdown::MarkdownItem::Heading(h) => {
                        lemma_kept_under(a, b, crate::markdown::doc_id(path, crate::markdown::span_key(h.evidence)));
                    },
                    crate::markdown::MarkdownItem::Command(c) => {
                        lemma_kept_under(a, b, command_id(path, crate::markdown::span_key(c.evidence)));
                    },
                    _ => {},
                }
            }
        },
        AnalyzerOutput::PackageManifest(_, _) => {},
    }
}

impl BuilderState {
    /// Records an analyzer output for the artifact node `artifact_node`:
    /// the relations [`output_plan`] lists, numbered on from the state's
    /// count, and the nodes [`output_nodes`] lists; nodes recorded before stay
    /// as they were, and each new variable, image, or unresolved node is what
    /// its id names. What each kind of output makes of its nodes the
    /// function for that kind states.
    pub fn apply_output(&mut self, artifact: &Artifact, output: &AnalyzerOutput, artifact_node: &GraphNodeId)
        requires
            old(self).wf(),
            old(self).relation_count + output_plan(
                artifact_node@,
                artifact.path@,
                crate::strmap::views(old(self).artifact_paths@),
                *output,
            ).len() < usize::MAX,
        ensures
            final(self).wf(),
            same_frame(*old(self), *final(self), old(self).relations@.len() as int),
            final(self).relation_count == old(self).relation_count + output_plan(
                artifact_node@,
                artifact.path@,
                crate::strmap::views(old(self).artifact_paths@),
                *output,
            ).len(),
            recorded_as(
                final(self).relations@,
                old(self).relations@.len() as int,
                old(self).relation_count as int,
                output_plan(artifact_node@, artifact.path@, crate::strmap::views(old(self).artifact_paths@), *output),
            ),
            node_keys(final(self).nodes@).to_set() == node_keys(old(self).nodes@).to_set() + output_nodes(
                artifact_node@,
                artifact.path@,
                crate::strmap::views(old(self).artifact_paths@),
                *output,
            ),
            keeps_nodes(old(self).nodes@, final(self).nodes@),
            new_nodes_named(old(self).nodes@, final(self).nodes@),
            output_made(
                old(self).nodes@,
                final(self).nodes@,
                *artifact,
                artifact_node@,
                crate::strmap::views(old(self).artifact_paths@),
                *output,
            ),
    {
        match output {
            AnalyzerOutput::Dockerfile(a) => self.process_dockerfile(artifact, a, artifact_node),
            AnalyzerOutput::Compose(c) => self.process_compose(artifact, c, artifact_node),
            AnalyzerOutput::Actions(w) => self.process_actions(artifact, w, artifact_node),
            AnalyzerOutput::Structured(s) => {
                proof {
                    lemma_structured_plan_len(artifact_node@, artifact.path@, crate::strmap::views(self.artifact_paths@), s.references@);
                }
                self.process_structured(artifact, s, artifact_node)
            },
            AnalyzerOutput::Markdown(m) => self.process_markdown(artifact, m, artifact_node),
            AnalyzerOutput::PackageManifest(_, _) => {
                proof {
                    assert(keeps_nodes(self.nodes@, self.nodes@));
                    assert(node_keys(self.nodes@).to_set() =~= node_keys(self.nodes@).to_set() + Set::empty());
                }
            },
        }
    }
}


/// The relations the analyzer outputs of the first `k` artifacts give, in
/// artifact order, where `paths` are the inventoried artifact paths.
pub open spec fn outputs_plan(
    artifacts: Seq<Artifact>,
    outputs: Seq<Option<AnalyzerOutput>>,
    paths: Seq<Seq<char>>,
    k: int,
) -> Seq<PlannedRelation>
    decreases k,
{
    if k <= 0 {
        Seq::empty()
    } else {
        outputs_plan(artifacts, outputs, paths, k - 1) + match outputs[k - 1] {
            Some(o) => output_plan("artifact:"@ + artifacts[k - 1].path@, artifacts[k - 1].path@, paths, o),
            None => Seq::empty(),
        }
    }
}

/// The node ids the analyzer outputs of the first `k` artifacts add.
pub open spec fn outputs_nodes(
    artifacts: Seq<Artifact>,
    outputs: Seq<Option<AnalyzerOutput>>,
    paths: Seq<Seq<char>>,
    k: int,
) -> Set<Seq<char>>
    decreases k,
{
    if k <= 0 {
        Set::empty()
    } else {
        outputs_nodes(artifacts, outputs, paths, k - 1) + match outputs[k - 1] {
            Some(o) => output_nodes("artifact:"@ + artifacts[k - 1].path@, artifacts[k - 1].path@, paths, o),
            None => Set::empty(),
        }
    }
}

/// The plan of fewer artifacts' outputs is no longer.
pub proof fn lemma_outputs_plan_grows(
    artifacts: Seq<Artifact>,
    outputs: Seq<Option<AnalyzerOutput>>,
    paths: Seq<Seq<char>>,
    k: int,
    m: int,
)
    requires
        0 <= k <= m,
    ensures
        outputs_plan(artifacts, outputs, paths, k).len() <= outputs_plan(artifacts, outputs, paths, m).len(),
    decreases m - k,
{
    if k < m {
        lemma_outputs_plan_grows(artifacts, outputs, paths, k, m - 1);
    }
}

/// Recording `q` after `p` records `p + q`.
pub proof fn lemma_recorded_concat(
    before: Seq<Relation>,
    after: Seq<Relation>,
    from: int,
    count: int,
    p: Seq<PlannedRelation>,
    q: Seq<PlannedRelation>,
)
    requires
        0 <= from,
        recorded_as(before, from, count, p),
        recorded_as(after, from + p.len(), count + p.len(), q),
        forall|i: int| 0 <= i < before.len() ==> #[trigger] after[i] == before[i],
    ensures
        recorded_as(after, from, count, p + q),
{
    assert forall|i: int| 0 <= i < (p + q).len() implies builder_relation(#[trigger] after[from + i], count + i + 1, (p + q)[i]) by {
        if i < p.len() {
            assert(after[from + i] == before[from + i]);
        } else {
            let j = i - p.len();
            assert(builder_relation(after[from + p.len() + j], count + p.len() + j + 1, q[j]));
            assert(from + p.len() + j == from + i);
        }
    }
}


/// The nodes before each output, and what the outputs made: `states[k]`
/// holds the ids of `base` and of the first `k` outputs, and each output
/// made of its first nodes, as they stand in `nodes`, what [`output_made`] says.
pub open spec fn outputs_made(
    states: Seq<Seq<crate::model::GraphNode>>,
    nodes: Seq<crate::model::GraphNode>,
    artifacts: Seq<Artifact>,
    outputs: Seq<Option<AnalyzerOutput>>,
    paths: Seq<Seq<char>>,
    base: Set<Seq<char>>,
) -> bool {
    &&& states.len() == artifacts.len() + 1
    &&& forall|k: int| 0 <= k <= artifacts.len() ==> node_keys(#[trigger] states[k]).to_set() == base + outputs_nodes(artifacts, outputs, paths, k)
    &&& forall|k: int|
        0 <= k < artifacts.len() ==> (outputs[k] matches Some(o) ==> output_made(
            #[trigger] states[k],
            nodes,
            artifacts[k],
            "artifact:"@ + artifacts[k].path@,
            paths,
            o,
        ))
}

/// What the outputs made stays made while later passes keep the nodes
/// outside `package:`.
pub proof fn lemma_outputs_made_kept(
    states: Seq<Seq<crate::model::GraphNode>>,
    a: Seq<crate::model::GraphNode>,
    b: Seq<crate::model::GraphNode>,
    artifacts: Seq<Artifact>,
    outputs: Seq<Option<AnalyzerOutput>>,
    paths: Seq<Seq<char>>,
    base: Set<Seq<char>>,
)
    requires
        outputs_made(states, a, artifacts, outputs, paths, base),
        crate::manifests::others_kept(a, b),
    ensures
        outputs_made(states, b, artifacts, outputs, paths, base),
{
    assert forall|k: int| 0 <= k < artifacts.len() implies (outputs[k] matches Some(o) ==> output_made(
        #[trigger] states[k],
        b,
        artifacts[k],
        "artifact:"@ + artifacts[k].path@,
        paths,
        o,
    )) by {
        match outputs[k] {
            Some(o) => lemma_output_made_kept(states[k], a, b, artifacts[k], "artifact:"@ + artifacts[k].path@, paths, o),
            None => {},
        }
    }
}

impl BuilderState {
    /// Applies the analyzer output of every artifact that has one, in
    /// artifact order, to that artifact's node: the relations
    /// [`outputs_plan`] lists, numbered on from the state's count, and the
    /// nodes [`outputs_nodes`] lists.
    pub fn apply_outputs(&mut self, artifacts: &Vec<Artifact>, outputs: &Vec<Option<AnalyzerOutput>>)
        requires
            old(self).wf(),
            outputs@.len() == artifacts@.len(),
            old(self).relation_count == old(self).relations@.len(),
            old(self).relation_count + outputs_plan(
                artifacts@,
                outputs@,
                crate::strmap::views(old(self).artifact_paths@),
                artifacts@.len() as int,
            ).len() < usize::MAX,
        ensures
            final(self).wf(),
            same_frame(*old(self), *final(self), old(self).relations@.len() as int),
            final(self).relation_count == final(self).relations@.len(),
            recorded_as(
                final(self).relations@,
                old(self).relations@.len() as int,
                old(self).relations@.len() as int,
                outputs_plan(artifacts@, outputs@, crate::strmap::views(old(self).artifact_paths@), artifacts@.len() as int),
            ),
            node_keys(final(self).nodes@).to_set() == node_keys(old(self).nodes@).to_set() + outputs_nodes(
                artifacts@,
                outputs@,
                crate::strmap::views(old(self).artifact_paths@),
                artifacts@.len() as int,
            ),
            keeps_nodes(old(self).nodes@, final(self).nodes@),
            new_nodes_named(old(self).nodes@, final(self).nodes@),
            exists|states: Seq<Seq<crate::model::GraphNode>>| #[trigger] outputs_made(
                states,
                final(self).nodes@,
                artifacts@,
                outputs@,
                crate::strmap::views(old(self).artifact_paths@),
                node_keys(old(self).nodes@).to_set(),
            ),
    {
        let ghost start = *self;
        let ghost from = self.relations@.len() as int;
        let ghost paths = crate::strmap::views(self.artifact_paths@);
        let ghost n = artifacts@.len() as int;
        let ghost base = node_keys(self.nodes@).to_set();
        let ghost mut states: Seq<Seq<crate::model::GraphNode>> = seq![self.nodes@];
        proof {
            assert(outputs_plan(artifacts@, outputs@, paths, 0) =~= Seq::<PlannedRelation>::empty());
            assert(node_keys(self.nodes@).to_set() =~= node_keys(start.nodes@).to_set() + outputs_nodes(artifacts@, outputs@, paths, 0));
        }
        let mut k: usize = 0;
        while k < artifacts.len()
            invariant
                k <= artifacts@.len(),
                n == artifacts@.len(),
                outputs@.len() == artifacts@.len(),
                0 <= from == start.relations@.len(),
                start.relation_count == from,
                self.wf(),
                same_frame(start, *self, from),
                paths == crate::strmap::views(self.artifact_paths@),
                from + outputs_plan(artifacts@, outputs@, paths, n).len() < usize::MAX,
                self.relation_count == self.relations@.len(),
                self.relations@.len() == from + outputs_plan(artifacts@, outputs@, paths, k as int).len(),
                recorded_as(self.relations@, from, from, outputs_plan(artifacts@, outputs@, paths, k as int)),
                node_keys(self.nodes@).to_set() == node_keys(start.nodes@).to_set() + outputs_nodes(artifacts@, outputs@, paths, k as int),
                keeps_nodes(start.nodes@, self.nodes@),
                new_nodes_named(start.nodes@, self.nodes@),
                base == node_keys(start.nodes@).to_set(),
                states.len() == k + 1,
                states[k as int] == self.nodes@,
                forall|j: int| 0 <= j <= k ==> node_keys(#[trigger] states[j]).to_set() == base + outputs_nodes(artifacts@, outputs@, paths, j),
                forall|j: int|
                    0 <= j < k ==> (outputs@[j] matches Some(o) ==> output_made(
                        #[trigger] states[j],
                        self.nodes@,
                        artifacts@[j],
                        "artifact:"@ + artifacts@[j].path@,
                        paths,
                        o,
                    )),
            decreases artifacts@.len() - k,
        {
            let artifact = &artifacts[k];
            let ghost prior = outputs_plan(artifacts@, outputs@, paths, k as int);
            let ghost nodes_k = self.nodes@;
            proof {
                lemma_outputs_plan_grows(artifacts@, outputs@, paths, k + 1, n);
            }
            match &outputs[k] {
                Some(out) => {
                    let node = crate::builder::artifact_node_id(artifact);
                    let ghost before = *self;
                    let ghost op = output_plan(node@, artifact.path@, paths, *out);
                    assert(outputs_plan(artifacts@, outputs@, paths, k + 1) == prior + op);
                    self.apply_output(artifact, out, &node);
                    proof {
                        lemma_recorded_concat(before.relations@, self.relations@, from, from, prior, op);
                        assert(node_keys(start.nodes@).to_set().subset_of(node_keys(before.nodes@).to_set()));
                        lemma_keeps_trans(start.nodes@, before.nodes@, self.nodes@);
                        lemma_named_trans(start.nodes@, before.nodes@, self.nodes@);
                        assert(node_keys(self.nodes@).to_set() =~= node_keys(start.nodes@).to_set() + outputs_nodes(
                            artifacts@,
                            outputs@,
                            paths,
                            k + 1,
                        ));
                    }
                },
                None => {
                    proof {
                        assert(outputs_plan(artifacts@, outputs@, paths, k + 1) =~= prior);
                        assert(outputs_nodes(artifacts@, outputs@, paths, k + 1) =~= outputs_nodes(artifacts@, outputs@, paths, k as int));
                    }
                },
            }
            proof {
                lemma_keeps_others(nodes_k, self.nodes@);
                assert forall|j: int| 0 <= j < k + 1 implies (outputs@[j] matches Some(o) ==> output_made(
                    #[trigger] states.push(self.nodes@)[j],
                    self.nodes@,
                    artifacts@[j],
                    "artifact:"@ + artifacts@[j].path@,
                    paths,
                    o,
                )) by {
                    if j < k {
                        assert(states.push(self.nodes@)[j] == states[j]);
                        match outputs@[j] {
                            Some(o) => {
                                assert(output_made(states[j], nodes_k, artifacts@[j], "artifact:"@ + artifacts@[j].path@, paths, o));
                                lemma_output_made_kept(states[j], nodes_k, self.nodes@, artifacts@[j], "artifact:"@ + artifacts@[j].path@, paths, o);
                            },
                            None => {},
                        }
                    } else {
                        assert(states.push(self.nodes@)[j] == nodes_k);
                    }
                }
                assert forall|j: int| 0 <= j <= k + 1 implies node_keys(#[trigger] states.push(self.nodes@)[j]).to_set() == base + outputs_nodes(
                    artifacts@,
                    outputs@,
                    paths,
                    j,
                ) by {
                    if j <= k {
                        assert(states.push(self.nodes@)[j] == states[j]);
                    }
                }
                states = states.push(self.nodes@);
            }
            k = k + 1;
        }
        proof {
            assert(outputs_made(states, self.nodes@, artifacts@, outputs@, paths, base));
        }
    }
}

} // verus!

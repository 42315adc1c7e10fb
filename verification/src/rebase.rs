//! Replaying a plan of steps onto a base, one step after another.

use vstd::prelude::*;
use crate::error::Error;
use crate::merge::{merge, merge_trees};
use crate::bytes::copy_bytes;
use crate::object::{Commit, CommitView, Object, ObjectKind, ObjectView};
use crate::object_id::ObjectId;
use crate::store::{
    ObjectStore,
    Objects,
    commit_of,
    extends,
    has_kind,
    lemma_commit_refs,
    lemma_extends_transitive,
    lemma_put_existing,
    object_of,
    put,
    wf,
};

verus! {

/// One unit of a replay plan.
#[derive(Clone, Debug, PartialEq, Eq)]
pub enum RebaseStep {
    /// Replay this commit onto the running tip.
    Pick { commit_id: ObjectId },
    /// Place the branch reference of this name at the running tip.
    Reference { name: String },
}

/// The view of a [`RebaseStep`].
pub enum StepView {
    Pick(ObjectId),
    Reference(Seq<char>),
}

impl View for RebaseStep {
    type V = StepView;

    open spec fn view(&self) -> StepView {
        match self {
            RebaseStep::Pick { commit_id } => StepView::Pick(*commit_id),
            RebaseStep::Reference { name } => StepView::Reference(name@),
        }
    }
}

/// The views of a list of steps, in order.
pub open spec fn steps_view(v: Seq<RebaseStep>) -> Seq<StepView> {
    Seq::new(v.len(), |i: int| v[i]@)
}

/// Where a replay left a branch reference.
#[derive(Clone, Debug, PartialEq, Eq)]
pub struct ReferenceOutcome {
    pub name: String,
    pub commit_id: ObjectId,
}

/// The views of a list of reference outcomes, in order.
pub open spec fn references_view(v: Seq<ReferenceOutcome>) -> Seq<(Seq<char>, ObjectId)> {
    Seq::new(v.len(), |i: int| (v[i].name@, v[i].commit_id))
}

/// What a replay produced.
#[derive(Clone, Debug, PartialEq, Eq)]
pub struct RebaseOutput {
    /// The tip after the last step.
    pub top_commit: ObjectId,
    /// Where each reference step left its branch, in plan order.
    pub references: Vec<ReferenceOutcome>,
    /// For each replayed commit, in plan order, the commit that stands for
    /// it now: the one produced for it, or the tip that absorbed it.
    pub commit_mapping: Vec<(ObjectId, ObjectId)>,
    /// The commits that were produced, in plan order.
    pub commits: Vec<ObjectId>,
}

/// The state of a replay between two steps, and at its end its outcome.
pub struct Replay {
    pub objects: Objects,
    pub tip: ObjectId,
    pub references: Seq<(Seq<char>, ObjectId)>,
    pub mapping: Seq<(ObjectId, ObjectId)>,
    pub commits: Seq<ObjectId>,
}

/// Whether `out` reports the end state `st`.
pub open spec fn reports(out: RebaseOutput, st: Replay) -> bool {
    &&& out.top_commit == st.tip
    &&& references_view(out.references@) == st.references
    &&& out.commit_mapping@ == st.mapping
    &&& out.commits@ == st.commits
}

/// The state in which a replay onto `start` begins.
pub open spec fn begin(s: Objects, start: ObjectId) -> Replay {
    Replay { objects: s, tip: start, references: Seq::empty(), mapping: Seq::empty(), commits: Seq::empty() }
}

/// The tree of a commit's first parent, against which its change is read;
/// `None` for a commit without parents, whose change is its whole tree.
pub open spec fn first_parent_tree(s: Objects, c: CommitView) -> Option<ObjectId> {
    if c.parents.len() > 0 {
        Some(commit_of(s, c.parents[0]).tree)
    } else {
        None
    }
}

/// The tree that the change of `target` gives on top of `tip`.
pub open spec fn replay_tree(s: Objects, tip: ObjectId, target: ObjectId) -> Result<(Objects, ObjectId), Error> {
    if !has_kind(s, target, ObjectKind::Commit) || !has_kind(s, tip, ObjectKind::Commit) {
        Err(Error::NotFound)
    } else {
        merge_trees(s, first_parent_tree(s, commit_of(s, target)), commit_of(s, tip).tree, commit_of(s, target).tree)
    }
}

/// The commit that replaying `target` onto `tip` writes: the replayed tree,
/// `tip` as the one parent, and the author, committer and message of `target`.
pub open spec fn replayed_commit(target: CommitView, tip: ObjectId, tree: ObjectId) -> CommitView {
    CommitView {
        tree,
        parents: seq![tip],
        author: target.author,
        committer: target.committer,
        message: target.message,
    }
}

/// Whether replaying `target` onto `tip` is elided: the policy does not keep
/// no-op commits and the replayed tree is the tree of `tip`.
pub open spec fn is_elided(s: Objects, tip: ObjectId, target: ObjectId, keep_noops: bool) -> bool {
    !keep_noops && replay_tree(s, tip, target) is Ok && replay_tree(s, tip, target).unwrap().1 == commit_of(
        s,
        tip,
    ).tree
}

/// Replaying one commit onto `tip`: the store after it, the new tip, and
/// whether a commit was produced. An elided commit produces nothing and
/// leaves the tip where it is.
pub open spec fn pick(s: Objects, tip: ObjectId, target: ObjectId, keep_noops: bool) -> Result<
    (Objects, ObjectId, bool),
    Error,
> {
    match replay_tree(s, tip, target) {
        Err(e) => Err(e),
        Ok(merged) => if !keep_noops && merged.1 == commit_of(s, tip).tree {
            Ok((merged.0, tip, false))
        } else {
            match put(merged.0, ObjectView::Commit(replayed_commit(commit_of(s, target), tip, merged.1))) {
                Err(e) => Err(e),
                Ok(done) => Ok((done.0, done.1, true)),
            }
        },
    }
}

/// One step of a replay.
pub open spec fn replay_step(st: Replay, step: StepView, keep_noops: bool) -> Result<Replay, Error> {
    match step {
        StepView::Pick(target) => match pick(st.objects, st.tip, target, keep_noops) {
            Err(e) => Err(e),
            Ok(done) => Ok(
                Replay {
                    objects: done.0,
                    tip: done.1,
                    references: st.references,
                    mapping: st.mapping.push((target, done.1)),
                    commits: if done.2 {
                        st.commits.push(done.1)
                    } else {
                        st.commits
                    },
                },
            ),
        },
        StepView::Reference(name) => Ok(
            Replay {
                objects: st.objects,
                tip: st.tip,
                references: st.references.push((name, st.tip)),
                mapping: st.mapping,
                commits: st.commits,
            },
        ),
    }
}

/// A whole replay: the steps in order, each from the state that the one
/// before left, up to the first that fails.
pub open spec fn replay(st: Replay, steps: Seq<StepView>, keep_noops: bool) -> Result<Replay, Error>
    decreases steps.len(),
{
    if steps.len() == 0 {
        Ok(st)
    } else {
        match replay_step(st, steps[0], keep_noops) {
            Err(e) => Err(e),
            Ok(next) => replay(next, steps.drop_first(), keep_noops),
        }
    }
}

/// The number of steps that replay a commit.
pub open spec fn pick_count(steps: Seq<StepView>) -> nat
    decreases steps.len(),
{
    if steps.len() == 0 {
        0
    } else {
        (if steps[0] is Pick {
            1nat
        } else {
            0nat
        }) + pick_count(steps.drop_first())
    }
}

/// The number of steps of a replay that are elided.
pub open spec fn elided_count(st: Replay, steps: Seq<StepView>, keep_noops: bool) -> nat
    decreases steps.len(),
{
    if steps.len() == 0 {
        0
    } else {
        match replay_step(st, steps[0], keep_noops) {
            Err(_) => 0,
            Ok(next) => (if steps[0] is Pick && is_elided(st.objects, st.tip, steps[0]->Pick_0, keep_noops) {
                1nat
            } else {
                0nat
            }) + elided_count(next, steps.drop_first(), keep_noops),
        }
    }
}

/// A replay produces one commit for each step that replays a commit and is
/// not elided, and maps every replayed commit; where no-op commits are kept
/// nothing is elided.
pub proof fn law_replay_counts(st: Replay, steps: Seq<StepView>, keep_noops: bool)
    requires
        replay(st, steps, keep_noops) is Ok,
    ensures
        elided_count(st, steps, keep_noops) <= pick_count(steps),
        replay(st, steps, keep_noops).unwrap().commits.len() == st.commits.len() + pick_count(steps)
            - elided_count(st, steps, keep_noops),
        replay(st, steps, keep_noops).unwrap().mapping.len() == st.mapping.len() + pick_count(steps),
        keep_noops ==> elided_count(st, steps, keep_noops) == 0,
    decreases steps.len(),
{
    if steps.len() > 0 {
        let next = replay_step(st, steps[0], keep_noops).unwrap();
        law_replay_counts(next, steps.drop_first(), keep_noops);
    }
}

/// A plan is up to date on `tip` when every commit it replays already has
/// the commit before it in the plan, or `tip` for the first, as its one
/// parent, and none of them would be elided.
pub open spec fn up_to_date(s: Objects, tip: ObjectId, steps: Seq<StepView>, keep_noops: bool) -> bool
    decreases steps.len(),
{
    if steps.len() == 0 {
        true
    } else {
        match steps[0] {
            StepView::Pick(c) => {
                &&& has_kind(s, c, ObjectKind::Commit)
                &&& commit_of(s, c).parents == seq![tip]
                &&& (keep_noops || commit_of(s, c).tree != commit_of(s, tip).tree)
                &&& up_to_date(s, c, steps.drop_first(), keep_noops)
            },
            StepView::Reference(_) => up_to_date(s, tip, steps.drop_first(), keep_noops),
        }
    }
}

/// Where the reference steps of a plan stand in it: each at the commit that
/// the plan replays last before it, or at `tip` if there is none.
pub open spec fn positions(tip: ObjectId, steps: Seq<StepView>) -> Seq<(Seq<char>, ObjectId)>
    decreases steps.len(),
{
    if steps.len() == 0 {
        Seq::empty()
    } else {
        match steps[0] {
            StepView::Pick(c) => positions(c, steps.drop_first()),
            StepView::Reference(name) => seq![(name, tip)] + positions(tip, steps.drop_first()),
        }
    }
}

/// The commit that a plan replays last, or `tip` if it replays none.
pub open spec fn last_pick(tip: ObjectId, steps: Seq<StepView>) -> ObjectId
    decreases steps.len(),
{
    if steps.len() == 0 {
        tip
    } else {
        match steps[0] {
            StepView::Pick(c) => last_pick(c, steps.drop_first()),
            StepView::Reference(_) => last_pick(tip, steps.drop_first()),
        }
    }
}

/// Replaying a plan that is up to date changes nothing: it succeeds, writes
/// no object, ends on the last commit of the plan, and leaves every
/// reference where it stands in the plan.
pub proof fn law_replay_up_to_date(st: Replay, steps: Seq<StepView>, keep_noops: bool)
    requires
        wf(st.objects),
        has_kind(st.objects, st.tip, ObjectKind::Commit),
        up_to_date(st.objects, st.tip, steps, keep_noops),
    ensures
        replay(st, steps, keep_noops) is Ok,
        replay(st, steps, keep_noops).unwrap().objects == st.objects,
        replay(st, steps, keep_noops).unwrap().tip == last_pick(st.tip, steps),
        replay(st, steps, keep_noops).unwrap().references == st.references + positions(st.tip, steps),
    decreases steps.len(),
{
    let s = st.objects;
    if steps.len() == 0 {
        assert(st.references + positions(st.tip, steps) =~= st.references);
    } else {
        match steps[0] {
            StepView::Pick(c) => {
                let target = commit_of(s, c);
                lemma_commit_refs(s, c);
                lemma_commit_refs(s, st.tip);
                assert(target.parents[0] == st.tip);
                assert(first_parent_tree(s, target) == Some(commit_of(s, st.tip).tree));
                assert(replay_tree(s, st.tip, c) == Ok::<(Objects, ObjectId), Error>((s, target.tree)));
                assert(replayed_commit(target, st.tip, target.tree) == target);
                assert(object_of(s, c) == ObjectView::Commit(target));
                lemma_put_existing(s, c);
                let next = replay_step(st, steps[0], keep_noops).unwrap();
                assert(next.objects == s && next.tip == c);
                law_replay_up_to_date(next, steps.drop_first(), keep_noops);
            },
            StepView::Reference(name) => {
                let next = replay_step(st, steps[0], keep_noops).unwrap();
                law_replay_up_to_date(next, steps.drop_first(), keep_noops);
                assert(st.references.push((name, st.tip)) + positions(st.tip, steps.drop_first()) =~= st.references
                    + positions(st.tip, steps));
            },
        }
    }
}

/// Replays one commit onto `tip`; see [`pick`]. A failure leaves in the
/// store what was written before it.
pub fn replay_commit(store: &mut ObjectStore, tip: ObjectId, target: ObjectId, keep_noops: bool) -> (r: Result<
    (ObjectId, bool),
    Error,
>)
    requires
        wf(old(store)@),
    ensures
        wf(final(store)@),
        extends(final(store)@, old(store)@),
        match pick(old(store)@, tip, target, keep_noops) {
            Ok(done) => r == Ok::<(ObjectId, bool), Error>((done.1, done.2)) && final(store)@ == done.0,
            Err(e) => r == Err::<(ObjectId, bool), Error>(e),
        },
{
    let ghost s = store@;
    proof {
        assert(s.take(s.len() as int) =~= s);
    }
    let (target_tree, base_tree, author, committer, message) = match store.commit(&target) {
        None => {
            return Err(Error::NotFound);
        },
        Some(c) => {
            let base_tree = if c.parents.len() > 0 {
                proof {
                    lemma_commit_refs(s, target);
                    assert(has_kind(s, c@.parents[0], ObjectKind::Commit));
                }
                match store.commit(&c.parents[0]) {
                    Some(p) => Some(p.tree),
                    None => None,
                }
            } else {
                None
            };
            (c.tree, base_tree, copy_bytes(&c.author), copy_bytes(&c.committer), copy_bytes(&c.message))
        },
    };
    let tip_tree = match store.commit(&tip) {
        None => {
            return Err(Error::NotFound);
        },
        Some(c) => c.tree,
    };
    let tree = match merge(store, base_tree, tip_tree, target_tree) {
        Err(e) => {
            return Err(e);
        },
        Ok(tree) => tree,
    };
    if !keep_noops && tree == tip_tree {
        return Ok((tip, false));
    }
    let ghost merged = store@;
    let mut parents: Vec<ObjectId> = Vec::new();
    parents.push(tip);
    let commit = Commit { tree, parents, author, committer, message };
    proof {
        assert(commit@.parents =~= seq![tip]);
        assert(commit@ == replayed_commit(commit_of(s, target), tip, tree));
    }
    match store.put(Object::Commit(commit)) {
        Err(e) => Err(e),
        Ok(id) => {
            proof {
                lemma_extends_transitive(store@, merged, s);
            }
            Ok((id, true))
        },
    }
}

/// A replay being set up: the base, an optional other commit to replay
/// onto, the plan, and the policy for no-op commits.
#[derive(Clone, Debug)]
pub struct Rebase {
    base: ObjectId,
    onto: Option<ObjectId>,
    steps: Vec<RebaseStep>,
    rebase_noops: bool,
}

impl Rebase {
    /// The commit on which the replay starts: `onto` where it was given,
    /// else the base.
    pub closed spec fn start(&self) -> ObjectId {
        match self.onto {
            Some(o) => o,
            None => self.base,
        }
    }

    /// The plan that was attached; empty before.
    pub closed spec fn plan(&self) -> Seq<StepView> {
        steps_view(self.steps@)
    }

    /// Whether a replayed commit whose tree is the tree of its new parent is
    /// kept as an empty commit (`true`) or elided (`false`).
    pub closed spec fn keeps_noops(&self) -> bool {
        self.rebase_noops
    }

    /// Sets up a replay on `base`, or on `onto` where it is given. Both must
    /// be commits of the store. No-op commits are kept until
    /// [`Rebase::rebase_noops`] says otherwise.
    pub fn new(store: &ObjectStore, base: ObjectId, onto: Option<ObjectId>) -> (r: Result<Rebase, Error>)
        requires
            wf(store@),
        ensures
            r is Ok <==> has_kind(store@, base, ObjectKind::Commit) && (onto is Some ==> has_kind(
                store@,
                onto.unwrap(),
                ObjectKind::Commit,
            )),
            r is Err ==> r == Err::<Rebase, Error>(Error::NotFound),
            r is Ok ==> r.unwrap().start() == (match onto {
                Some(o) => o,
                None => base,
            }) && r.unwrap().plan() == Seq::<StepView>::empty() && r.unwrap().keeps_noops(),
    {
        if !store.holds(&base, ObjectKind::Commit) {
            return Err(Error::NotFound);
        }
        match onto {
            Some(o) => {
                if !store.holds(&o, ObjectKind::Commit) {
                    return Err(Error::NotFound);
                }
            },
            None => {},
        }
        let r = Rebase { base, onto, steps: Vec::new(), rebase_noops: true };
        proof {
            assert(r.plan() =~= Seq::<StepView>::empty());
        }
        Ok(r)
    }

    /// Attaches the plan, in place of any attached before.
    pub fn steps(&mut self, steps: Vec<RebaseStep>)
        ensures
            final(self).plan() == steps_view(steps@),
            final(self).start() == old(self).start(),
            final(self).keeps_noops() == old(self).keeps_noops(),
    {
        self.steps = steps;
    }

    /// Sets the policy for no-op commits: `true` keeps a replayed commit
    /// whose tree is the tree of its new parent as an empty commit, `false`
    /// elides it.
    pub fn rebase_noops(&mut self, value: bool)
        ensures
            final(self).keeps_noops() == value,
            final(self).plan() == old(self).plan(),
            final(self).start() == old(self).start(),
    {
        self.rebase_noops = value;
    }

    /// Runs the replay; see [`replay`]. On failure the store is as it was.
    pub fn rebase(&self, store: &mut ObjectStore) -> (r: Result<RebaseOutput, Error>)
        requires
            wf(old(store)@),
        ensures
            wf(final(store)@),
            extends(final(store)@, old(store)@),
            match replay(begin(old(store)@, self.start()), self.plan(), self.keeps_noops()) {
                Ok(st) => r is Ok && reports(r.unwrap(), st) && final(store)@ == st.objects,
                Err(e) => r is Err && r.unwrap_err() == e && final(store)@ == old(store)@,
            },
    {
        let ghost s0 = store@;
        let ghost plan = self.plan();
        let keep = self.rebase_noops;
        let mark = store.len();
        let mut tip = match self.onto {
            Some(o) => o,
            None => self.base,
        };
        let mut references: Vec<ReferenceOutcome> = Vec::new();
        let mut mapping: Vec<(ObjectId, ObjectId)> = Vec::new();
        let mut commits: Vec<ObjectId> = Vec::new();
        let mut i: usize = 0;
        proof {
            assert(s0.take(s0.len() as int) =~= s0);
            assert(plan.subrange(0, plan.len() as int) =~= plan);
            assert(references_view(references@) =~= Seq::<(Seq<char>, ObjectId)>::empty());
        }
        while i < self.steps.len()
            invariant
                i <= self.steps.len(),
                plan == steps_view(self.steps@),
                plan == self.plan(),
                keep == self.keeps_noops(),
                wf(store@),
                extends(store@, s0),
                wf(s0),
                mark == s0.len(),
                s0 == old(store)@,
                replay(
                    Replay {
                        objects: store@,
                        tip,
                        references: references_view(references@),
                        mapping: mapping@,
                        commits: commits@,
                    },
                    plan.subrange(i as int, plan.len() as int),
                    keep,
                ) == replay(begin(s0, self.start()), plan, keep),
            decreases self.steps.len() - i,
        {
            let ghost rest = plan.subrange(i as int, plan.len() as int);
            let ghost before = store@;
            proof {
                assert(rest[0] == self.steps@[i as int]@);
                assert(rest.drop_first() =~= plan.subrange(i as int + 1, plan.len() as int));
            }
            match &self.steps[i] {
                RebaseStep::Pick { commit_id } => {
                    match replay_commit(store, tip, *commit_id, keep) {
                        Err(e) => {
                            proof {
                                lemma_extends_transitive(store@, before, s0);
                            }
                            store.truncate(mark);
                            proof {
                                assert(store@ =~= s0);
                                assert(s0.take(s0.len() as int) =~= s0);
                            }
                            return Err(e);
                        },
                        Ok((new_tip, produced)) => {
                            proof {
                                lemma_extends_transitive(store@, before, s0);
                            }
                            mapping.push((*commit_id, new_tip));
                            if produced {
                                commits.push(new_tip);
                            }
                            tip = new_tip;
                        },
                    }
                },
                RebaseStep::Reference { name } => {
                    let ghost refs = references_view(references@);
                    references.push(ReferenceOutcome { name: name.clone(), commit_id: tip });
                    proof {
                        assert(references_view(references@) =~= refs.push((name@, tip)));
                    }
                },
            }
            i += 1;
        }
        Ok(RebaseOutput { top_commit: tip, references, commit_mapping: mapping, commits })
    }
}


/// The position of the first step at or after `i` that replays `target`, or
/// the length of the plan if there is none.
pub open spec fn pick_index_from(plan: Seq<StepView>, target: ObjectId, i: int) -> int
    decreases plan.len() - i,
{
    if i < 0 || i >= plan.len() {
        plan.len() as int
    } else if plan[i] == StepView::Pick(target) {
        i
    } else {
        pick_index_from(plan, target, i + 1)
    }
}

/// The plan with the step that replays `old` replaying `new` instead, every
/// other step as it is and in its place; `None` if no step replays `old`.
pub open spec fn substitute(plan: Seq<StepView>, old: ObjectId, new: ObjectId) -> Option<Seq<StepView>> {
    let i = pick_index_from(plan, old, 0);
    if i < plan.len() {
        Some(plan.update(i, StepView::Pick(new)))
    } else {
        None
    }
}

/// Makes the step that replays `old_commit` replay `new_commit` instead;
/// see [`substitute`]. Without such a step the plan stays as it is.
pub fn replace_pick_with_commit(steps: &mut Vec<RebaseStep>, old_commit: ObjectId, new_commit: ObjectId) -> (r: Result<
    (),
    Error,
>)
    ensures
        match substitute(steps_view(old(steps)@), old_commit, new_commit) {
            Some(plan) => r is Ok && steps_view(final(steps)@) == plan,
            None => r == Err::<(), Error>(Error::NotFound) && steps_view(final(steps)@) == steps_view(old(steps)@),
        },
{
    let ghost plan = steps_view(steps@);
    let mut i: usize = 0;
    while i < steps.len()
        invariant
            i <= steps.len(),
            *steps == *old(steps),
            plan == steps_view(steps@),
            pick_index_from(plan, old_commit, i as int) == pick_index_from(plan, old_commit, 0),
        decreases steps.len() - i,
    {
        let found = match &steps[i] {
            RebaseStep::Pick { commit_id } => *commit_id == old_commit,
            RebaseStep::Reference { .. } => false,
        };
        proof {
            assert(plan[i as int] == steps@[i as int]@);
        }
        if found {
            steps.set(i, RebaseStep::Pick { commit_id: new_commit });
            proof {
                assert(steps_view(steps@) =~= plan.update(i as int, StepView::Pick(new_commit)));
            }
            return Ok(());
        }
        i += 1;
    }
    Err(Error::NotFound)
}

} // verus!

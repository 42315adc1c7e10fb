//! Stacks of branches, their replay plans, and moving their heads.

use vstd::prelude::*;
use crate::error::Error;
use crate::object::ObjectKind;
use crate::object_id::ObjectId;
use crate::rebase::{
    RebaseStep,
    ReferenceOutcome,
    StepView,
    begin,
    last_pick,
    law_replay_up_to_date,
    positions,
    references_view,
    replay,
    steps_view,
    up_to_date,
};
use crate::store::{ObjectStore, Objects, commit_of, has_kind, lemma_commit_refs, present, slot, wf};

verus! {

/// The identifier of a stack.
#[derive(Clone, Copy, Debug, PartialEq, Eq, Structural, Hash)]
pub struct StackId {
    pub value: u128,
}

/// A named branch head of a stack.
#[derive(Clone, Debug, PartialEq, Eq)]
pub struct Branch {
    pub name: String,
    pub head: ObjectId,
}

/// The views of a list of branches: name and head, in order.
pub open spec fn branches_view(v: Seq<Branch>) -> Seq<(Seq<char>, ObjectId)> {
    Seq::new(v.len(), |i: int| (v[i].name@, v[i].head))
}

/// A stack: branches layered on one another above a merge base, the lowest
/// first. The commits of a branch are those between its head and the head
/// of the branch below it, or the base for the lowest.
#[derive(Clone, Debug, PartialEq, Eq)]
pub struct Stack {
    pub id: StackId,
    pub base: ObjectId,
    pub branches: Vec<Branch>,
}

/// The view of a [`Stack`].
pub struct StackView {
    pub id: StackId,
    pub base: ObjectId,
    pub branches: Seq<(Seq<char>, ObjectId)>,
}

impl View for Stack {
    type V = StackView;

    open spec fn view(&self) -> StackView {
        StackView { id: self.id, base: self.base, branches: branches_view(self.branches@) }
    }
}

/// The commits from `head` down to, but without, `stop`, along first
/// parents, oldest first; `None` if that walk does not reach `stop`.
pub open spec fn chain(s: Objects, head: ObjectId, stop: ObjectId) -> Option<Seq<ObjectId>>
    decreases slot(s, head),
    when wf(s)
{
    if head == stop {
        Some(Seq::empty())
    } else if !has_kind(s, head, ObjectKind::Commit) || commit_of(s, head).parents.len() == 0 {
        None
    } else {
        proof {
            lemma_commit_refs(s, head);
        }
        match chain(s, commit_of(s, head).parents[0], stop) {
            None => None,
            Some(below) => Some(below.push(head)),
        }
    }
}

/// One step for each commit, replaying it.
pub open spec fn picks(commits: Seq<ObjectId>) -> Seq<StepView> {
    Seq::new(commits.len(), |i: int| StepView::Pick(commits[i]))
}

/// The plan of the branches above `below`: for each branch its commits,
/// oldest first, and then the marker that places its reference.
pub open spec fn plan_from(s: Objects, below: ObjectId, branches: Seq<(Seq<char>, ObjectId)>) -> Option<
    Seq<StepView>,
>
    decreases branches.len(),
{
    if branches.len() == 0 {
        Some(Seq::empty())
    } else {
        match chain(s, branches[0].1, below) {
            None => None,
            Some(commits) => match plan_from(s, branches[0].1, branches.drop_first()) {
                None => None,
                Some(rest) => Some(picks(commits) + seq![StepView::Reference(branches[0].0)] + rest),
            },
        }
    }
}

/// The replay plan of a stack.
pub open spec fn plan_of(s: Objects, stack: StackView) -> Option<Seq<StepView>> {
    plan_from(s, stack.base, stack.branches)
}

/// A chain ends on its head; an empty one means that head and stop are one.
pub proof fn lemma_chain_ends(s: Objects, head: ObjectId, stop: ObjectId)
    requires
        wf(s),
        chain(s, head, stop) is Some,
    ensures
        chain(s, head, stop).unwrap().len() == 0 ==> head == stop,
        chain(s, head, stop).unwrap().len() > 0 ==> chain(s, head, stop).unwrap().last() == head,
{
}

proof fn lemma_positions_after_picks(tip: ObjectId, commits: Seq<ObjectId>, rest: Seq<StepView>)
    ensures
        positions(tip, picks(commits) + rest) == positions(
            if commits.len() > 0 {
                commits.last()
            } else {
                tip
            },
            rest,
        ),
        last_pick(tip, picks(commits) + rest) == last_pick(
            if commits.len() > 0 {
                commits.last()
            } else {
                tip
            },
            rest,
        ),
    decreases commits.len(),
{
    let all = picks(commits) + rest;
    if commits.len() == 0 {
        assert(all =~= rest);
    } else {
        let tail = commits.drop_first();
        assert(all[0] == StepView::Pick(commits[0]));
        assert(all.drop_first() =~= picks(tail) + rest);
        lemma_positions_after_picks(commits[0], tail, rest);
        if tail.len() > 0 {
            assert(tail.last() == commits.last());
        }
    }
}

/// In the plan of a stack every reference marker stands at the head of its
/// branch.
pub proof fn lemma_plan_positions(s: Objects, below: ObjectId, branches: Seq<(Seq<char>, ObjectId)>)
    requires
        wf(s),
        plan_from(s, below, branches) is Some,
    ensures
        positions(below, plan_from(s, below, branches).unwrap()) == branches,
    decreases branches.len(),
{
    if branches.len() == 0 {
        assert(branches =~= Seq::<(Seq<char>, ObjectId)>::empty());
    } else {
        let head = branches[0].1;
        let commits = chain(s, head, below).unwrap();
        let rest = plan_from(s, head, branches.drop_first()).unwrap();
        let after = seq![StepView::Reference(branches[0].0)] + rest;
        lemma_chain_ends(s, head, below);
        lemma_plan_positions(s, head, branches.drop_first());
        assert(picks(commits) + seq![StepView::Reference(branches[0].0)] + rest =~= picks(commits) + after);
        lemma_positions_after_picks(below, commits, after);
        assert(after.drop_first() =~= rest);
        assert(positions(head, after) =~= seq![(branches[0].0, head)] + positions(head, rest));
        assert(seq![(branches[0].0, head)] + branches.drop_first() =~= branches);
    }
}

/// A replay that changes nothing is seen to change nothing: if the plan of
/// a stack is up to date on the stack's base, replaying it succeeds, writes
/// no object, and leaves every branch reference at the head it has.
pub proof fn law_replay_keeps_heads(s: Objects, stack: StackView, keep_noops: bool)
    requires
        wf(s),
        has_kind(s, stack.base, ObjectKind::Commit),
        plan_of(s, stack) is Some,
        up_to_date(s, stack.base, plan_of(s, stack).unwrap(), keep_noops),
    ensures
        replay(begin(s, stack.base), plan_of(s, stack).unwrap(), keep_noops) is Ok,
        replay(begin(s, stack.base), plan_of(s, stack).unwrap(), keep_noops).unwrap().objects == s,
        replay(begin(s, stack.base), plan_of(s, stack).unwrap(), keep_noops).unwrap().references
            == stack.branches,
{
    let plan = plan_of(s, stack).unwrap();
    law_replay_up_to_date(begin(s, stack.base), plan, keep_noops);
    lemma_plan_positions(s, stack.base, stack.branches);
    assert(Seq::<(Seq<char>, ObjectId)>::empty() + positions(stack.base, plan) =~= positions(stack.base, plan));
}

/// The branches after the one called `name` was moved to `commit`.
pub open spec fn move_head(branches: Seq<(Seq<char>, ObjectId)>, name: Seq<char>, commit: ObjectId) -> Seq<
    (Seq<char>, ObjectId),
> {
    Seq::new(
        branches.len(),
        |j: int|
            if branches[j].0 == name {
                (name, commit)
            } else {
                branches[j]
            },
    )
}

/// The branches after every outcome was applied, in order.
pub open spec fn apply_heads(branches: Seq<(Seq<char>, ObjectId)>, outcomes: Seq<(Seq<char>, ObjectId)>) -> Seq<
    (Seq<char>, ObjectId),
>
    decreases outcomes.len(),
{
    if outcomes.len() == 0 {
        branches
    } else {
        move_head(apply_heads(branches, outcomes.drop_last()), outcomes.last().0, outcomes.last().1)
    }
}

/// Whether a branch is called `name`.
pub open spec fn has_branch(branches: Seq<(Seq<char>, ObjectId)>, name: Seq<char>) -> bool {
    exists|j: int| 0 <= j < branches.len() && (#[trigger] branches[j]).0 == name
}

/// Whether every outcome names a branch of the stack and a commit of the store.
pub open spec fn heads_known(s: Objects, branches: Seq<(Seq<char>, ObjectId)>, outcomes: Seq<(Seq<char>, ObjectId)>) -> bool {
    forall|k: int|
        0 <= k < outcomes.len() ==> has_branch(branches, (#[trigger] outcomes[k]).0) && has_kind(
            s,
            outcomes[k].1,
            ObjectKind::Commit,
        )
}

impl Stack {
    /// The merge base of the stack, which must be a commit of the store.
    pub fn merge_base(&self, store: &ObjectStore) -> (r: Result<ObjectId, Error>)
        requires
            wf(store@),
        ensures
            r == (if has_kind(store@, self.base, ObjectKind::Commit) {
                Ok::<ObjectId, Error>(self.base)
            } else {
                Err::<ObjectId, Error>(Error::NotFound)
            }),
    {
        if store.holds(&self.base, ObjectKind::Commit) {
            Ok(self.base)
        } else {
            Err(Error::NotFound)
        }
    }

    fn has_branch_named(&self, name: &String) -> (r: bool)
        ensures
            r == has_branch(self@.branches, name@),
    {
        let mut j: usize = 0;
        while j < self.branches.len()
            invariant
                j <= self.branches.len(),
                forall|k: int| 0 <= k < j ==> (#[trigger] self@.branches[k]).0 != name@,
            decreases self.branches.len() - j,
        {
            if self.branches[j].name == *name {
                proof {
                    assert(self@.branches[j as int].0 == name@);
                }
                return true;
            }
            proof {
                assert(self@.branches[j as int].0 == self.branches@[j as int].name@);
            }
            j += 1;
        }
        false
    }

    /// The replay plan of the stack: for each branch, from the lowest up,
    /// one step for each of its commits, oldest first, and then the marker
    /// of its reference. Fails if a branch does not descend from the one
    /// below it along first parents.
    pub fn as_rebase_steps(&self, store: &ObjectStore) -> (r: Result<Vec<RebaseStep>, Error>)
        requires
            wf(store@),
        ensures
            match plan_of(store@, self@) {
                Some(plan) => r is Ok && steps_view(r.unwrap()@) == plan,
                None => r is Err && r.unwrap_err() == Error::NotFound,
            },
    {
        let ghost s = store@;
        let ghost all = self@.branches;
        let mut out: Vec<RebaseStep> = Vec::new();
        let mut below = self.base;
        let mut i: usize = 0;
        proof {
            assert(all.subrange(0, all.len() as int) =~= all);
            assert(steps_view(out@) =~= Seq::<StepView>::empty());
        }
        while i < self.branches.len()
            invariant
                i <= self.branches.len(),
                wf(store@),
                s == store@,
                all == self@.branches,
                plan_of(s, self@) == (match plan_from(s, below, all.subrange(i as int, all.len() as int)) {
                    None => None::<Seq<StepView>>,
                    Some(rest) => Some(steps_view(out@) + rest),
                }),
            decreases self.branches.len() - i,
        {
            let head = self.branches[i].head;
            let ghost todo = all.subrange(i as int, all.len() as int);
            let ghost done = steps_view(out@);
            let start = out.len();
            let mut cur = head;
            let ghost mut above: Seq<ObjectId> = Seq::empty();
            proof {
                assert(todo[0] == (self.branches@[i as int].name@, head));
                assert(todo.drop_first() =~= all.subrange(i as int + 1, all.len() as int));
                assert(done + picks(above) =~= done);
            }
            while cur != below
                invariant
                    wf(store@),
                    s == store@,
                    start == done.len(),
                    steps_view(out@) == done + picks(above),
                    chain(s, head, below) == (match chain(s, cur, below) {
                        None => None::<Seq<ObjectId>>,
                        Some(c) => Some(c + above),
                    }),
                    plan_of(s, self@) == (match plan_from(s, below, todo) {
                        None => None::<Seq<StepView>>,
                        Some(rest) => Some(done + rest),
                    }),
                    todo.len() > 0,
                    todo[0].1 == head,
                decreases
                        (if present(s, cur) {
                            slot(s, cur) + 1
                        } else {
                            0
                        }),
            {
                let parent = match store.commit(&cur) {
                    None => {
                        return Err(Error::NotFound);
                    },
                    Some(c) => {
                        if c.parents.len() == 0 {
                            return Err(Error::NotFound);
                        }
                        c.parents[0]
                    },
                };
                proof {
                    lemma_commit_refs(s, cur);
                    assert(parent == commit_of(s, cur).parents[0]);
                    let ghost before = steps_view(out@);
                    match chain(s, parent, below) {
                        None => {},
                        Some(c) => {
                            assert(c.push(cur) + above =~= c + (seq![cur] + above));
                        },
                    }
                }
                let ghost before = steps_view(out@);
                let ghost old_above = above;
                proof {
                    assert(before.len() == out.len());
                    assert(before.len() == done.len() + old_above.len());
                }
                out.insert(start, RebaseStep::Pick { commit_id: cur });
                proof {
                    above = seq![cur] + above;
                    let now = steps_view(out@);
                    let want = done + picks(above);
                    assert(now.len() == want.len());
                    assert forall|k: int| 0 <= k < now.len() implies now[k] == want[k] by {
                        if k < start {
                            assert(now[k] == before[k]);
                            assert(before[k] == done[k]);
                        } else if k == start {
                        } else {
                            assert(now[k] == before[k - 1]);
                            assert(before[k - 1] == picks(old_above)[k - 1 - start]);
                            assert(above[k - start] == old_above[k - 1 - start]);
                        }
                    }
                    assert(now =~= want);
                }
                cur = parent;
            }
            proof {
                assert(chain(s, cur, below) == Some(Seq::<ObjectId>::empty()));
                assert(Seq::<ObjectId>::empty() + above =~= above);
            }
            let ghost marked = steps_view(out@);
            out.push(RebaseStep::Reference { name: self.branches[i].name.clone() });
            proof {
                assert(steps_view(out@) =~= marked.push(StepView::Reference(todo[0].0)));
                match plan_from(s, head, todo.drop_first()) {
                    None => {},
                    Some(rest) => {
                        assert(done + (picks(above) + seq![StepView::Reference(todo[0].0)] + rest) =~= steps_view(
                            out@,
                        ) + rest);
                    },
                }
            }
            below = head;
            i += 1;
        }
        proof {
            assert(steps_view(out@) + Seq::<StepView>::empty() =~= steps_view(out@));
        }
        Ok(out)
    }

    /// Moves the heads of the stack to where a replay left them: every
    /// outcome, in order, moves the branch of its name. Either every outcome
    /// names a branch of the stack and a commit of the store, and all are
    /// applied, or nothing is changed.
    pub fn set_heads_from_rebase_output(&mut self, store: &ObjectStore, references: &Vec<ReferenceOutcome>) -> (r:
        Result<(), Error>)
        requires
            wf(store@),
        ensures
            final(self)@.id == old(self)@.id,
            final(self)@.base == old(self)@.base,
            heads_known(store@, old(self)@.branches, references_view(references@)) ==> r is Ok
                && final(self)@.branches == apply_heads(old(self)@.branches, references_view(references@)),
            !heads_known(store@, old(self)@.branches, references_view(references@)) ==> r == Err::<(), Error>(
                Error::NotFound,
            ) && final(self)@ == old(self)@,
    {
        let ghost outcomes = references_view(references@);
        let ghost start = self@.branches;
        let mut k: usize = 0;
        while k < references.len()
            invariant
                k <= references.len(),
                wf(store@),
                outcomes == references_view(references@),
                start == self@.branches,
                *self == *old(self),
                forall|m: int|
                    0 <= m < k ==> has_branch(start, (#[trigger] outcomes[m]).0) && has_kind(
                        store@,
                        outcomes[m].1,
                        ObjectKind::Commit,
                    ),
            decreases references.len() - k,
        {
            proof {
                assert(outcomes[k as int] == (references@[k as int].name@, references@[k as int].commit_id));
            }
            if !self.has_branch_named(&references[k].name) || !store.holds(
                &references[k].commit_id,
                ObjectKind::Commit,
            ) {
                return Err(Error::NotFound);
            }
            k += 1;
        }
        let mut k: usize = 0;
        proof {
            assert(outcomes.take(0) =~= Seq::<(Seq<char>, ObjectId)>::empty());
        }
        while k < references.len()
            invariant
                k <= references.len(),
                outcomes == references_view(references@),
                self.id == old(self).id,
                self.base == old(self).base,
                self@.branches == apply_heads(start, outcomes.take(k as int)),
            decreases references.len() - k,
        {
            let ghost before = self@.branches;
            let mut j: usize = 0;
            while j < self.branches.len()
                invariant
                    j <= self.branches.len(),
                    k < references.len(),
                    self.id == old(self).id,
                    self.base == old(self).base,
                    self.branches.len() == before.len(),
                    forall|m: int|
                        0 <= m < j ==> (#[trigger] self@.branches[m]) == move_head(
                            before,
                            references@[k as int].name@,
                            references@[k as int].commit_id,
                        )[m],
                    forall|m: int| j <= m < before.len() ==> (#[trigger] self@.branches[m]) == before[m],
                decreases self.branches.len() - j,
            {
                proof {
                    assert(self@.branches[j as int] == before[j as int]);
                    assert(self@.branches[j as int].0 == self.branches@[j as int].name@);
                }
                if self.branches[j].name == references[k].name {
                    let ghost old_branches = self@.branches;
                    let moved = Branch { name: references[k].name.clone(), head: references[k].commit_id };
                    self.branches.set(j, moved);
                    proof {
                        assert forall|m: int| 0 <= m < self.branches.len() && m != j implies (
                        #[trigger] self@.branches[m]) == old_branches[m] by {}
                    }
                }
                j += 1;
            }
            proof {
                assert(outcomes.take(k as int + 1).drop_last() =~= outcomes.take(k as int));
                assert(outcomes.take(k as int + 1).last() == (
                    references@[k as int].name@,
                    references@[k as int].commit_id,
                ));
                assert(self@.branches =~= move_head(
                    before,
                    references@[k as int].name@,
                    references@[k as int].commit_id,
                ));
            }
            k += 1;
        }
        proof {
            assert(outcomes.take(outcomes.len() as int) =~= outcomes);
        }
        Ok(())
    }
}

} // verus!

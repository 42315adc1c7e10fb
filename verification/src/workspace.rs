//! The operation that the engine exists for: removing changes from a
//! commit in a stack, and rewriting the stack accordingly.

use vstd::prelude::*;
use crate::error::Error;
use crate::mapping::{build_mapping, keys_distinct, pairs_map, rebase_mapping_with_overrides};
use crate::object::ObjectKind;
use crate::object_id::ObjectId;
use crate::rebase::{Rebase, begin, replace_pick_with_commit, replay, reports, substitute};
use crate::rewrite::{replace_commit_tree, replace_tree};
use crate::stack::{Branch, Stack, StackId, StackView, apply_heads, branches_view, heads_known, plan_of};
use crate::store::{ObjectStore, Objects, extends, has_kind, lemma_extends_transitive, wf};
use crate::subtract::{ChangesSource, DiffSpec, DiffSpecView, create_tree_without_diff, specs_view, subtract};

verus! {

/// The object store of a project together with its stacks.
#[derive(Clone, Debug)]
pub struct Workspace {
    pub store: ObjectStore,
    pub stacks: Vec<Stack>,
}

/// The view of a [`Workspace`].
pub struct WorkspaceView {
    pub objects: Objects,
    pub stacks: Seq<StackView>,
}

/// The views of a list of stacks, in order.
pub open spec fn stacks_view(v: Seq<Stack>) -> Seq<StackView> {
    Seq::new(v.len(), |i: int| v[i]@)
}

impl View for Workspace {
    type V = WorkspaceView;

    open spec fn view(&self) -> WorkspaceView {
        WorkspaceView { objects: self.store@, stacks: stacks_view(self.stacks@) }
    }
}

/// What an operation that rewrote commits reports: for every commit that
/// was replaced, the commit that replaces it, each replaced commit once.
#[derive(Clone, Debug, PartialEq, Eq)]
pub struct MoveChangesResult {
    pub replaced_commits: Vec<(ObjectId, ObjectId)>,
}

/// The position of the first stack at or after `i` with the given id, or
/// the number of stacks if there is none.
pub open spec fn stack_index_from(stacks: Seq<StackView>, id: StackId, i: int) -> int
    decreases stacks.len() - i,
{
    if i < 0 || i >= stacks.len() {
        stacks.len() as int
    } else if stacks[i].id == id {
        i
    } else {
        stack_index_from(stacks, id, i + 1)
    }
}

/// What removing changes from a commit does to a stack: the store after
/// it, the branches of the stack with their new heads, and the mapping
/// from replaced commits to their replacements.
///
/// The changes are taken out of the commit's tree; if one is rejected
/// nothing more is done. The commit is rewritten with the tree that is
/// left, the rewrite takes the commit's place in the stack's plan, the plan
/// is replayed on the stack's base, and the heads go where the replay left
/// them. The mapping holds what the replay replaced and, on top, the
/// commit with its rewrite.
pub open spec fn remove_changes(
    s: Objects,
    stack: StackView,
    commit: ObjectId,
    specs: Seq<DiffSpecView>,
    tolerance: int,
    keep_noops: bool,
) -> Result<(Objects, Seq<(Seq<char>, ObjectId)>, Map<ObjectId, ObjectId>), Error> {
    match subtract(s, ChangesSource::Commit { id: commit }, specs, tolerance) {
        Err(e) => Err(e),
        Ok(left) => if left.2.len() > 0 {
            Err(Error::IncompleteApplication)
        } else {
            match replace_tree(left.0, commit, left.1) {
                Err(e) => Err(e),
                Ok(rewritten) => replay_stack(rewritten.0, stack, commit, rewritten.1, keep_noops),
            }
        },
    }
}

/// Replaying a stack with `rewritten` in the place of `commit`.
pub open spec fn replay_stack(s: Objects, stack: StackView, commit: ObjectId, rewritten: ObjectId, keep_noops: bool) -> Result<
    (Objects, Seq<(Seq<char>, ObjectId)>, Map<ObjectId, ObjectId>),
    Error,
> {
    match plan_of(s, stack) {
        None => Err(Error::NotFound),
        Some(plan) => match substitute(plan, commit, rewritten) {
            None => Err(Error::NotFound),
            Some(replaced) => if !has_kind(s, stack.base, ObjectKind::Commit) {
                Err(Error::NotFound)
            } else {
                match replay(begin(s, stack.base), replaced, keep_noops) {
                    Err(e) => Err(e),
                    Ok(end) => if !heads_known(end.objects, stack.branches, end.references) {
                        Err(Error::NotFound)
                    } else {
                        Ok(
                            (
                                end.objects,
                                apply_heads(stack.branches, end.references),
                                build_mapping(end.mapping, seq![(commit, rewritten)]),
                            ),
                        )
                    },
                }
            },
        },
    }
}

/// The operation on a workspace: on the stack with the given id, which
/// must exist.
pub open spec fn remove_changes_in(
    ws: WorkspaceView,
    stack_id: StackId,
    commit: ObjectId,
    specs: Seq<DiffSpecView>,
    tolerance: int,
    keep_noops: bool,
) -> Result<(WorkspaceView, Map<ObjectId, ObjectId>), Error> {
    let i = stack_index_from(ws.stacks, stack_id, 0);
    if i >= ws.stacks.len() {
        Err(Error::NotFound)
    } else {
        match remove_changes(ws.objects, ws.stacks[i], commit, specs, tolerance, keep_noops) {
            Err(e) => Err(e),
            Ok(done) => Ok(
                (
                    WorkspaceView {
                        objects: done.0,
                        stacks: ws.stacks.update(
                            i,
                            StackView { id: ws.stacks[i].id, base: ws.stacks[i].base, branches: done.1 },
                        ),
                    },
                    done.2,
                ),
            ),
        }
    }
}

/// A copy of a stack.
pub fn copy_stack(stack: &Stack) -> (r: Stack)
    ensures
        r@ == stack@,
{
    let mut branches: Vec<Branch> = Vec::new();
    let mut i: usize = 0;
    while i < stack.branches.len()
        invariant
            i <= stack.branches.len(),
            branches.len() == i,
            forall|k: int|
                0 <= k < i ==> branches@[k].name@ == stack.branches@[k].name@ && branches@[k].head
                    == stack.branches@[k].head,
        decreases stack.branches.len() - i,
    {
        branches.push(Branch { name: stack.branches[i].name.clone(), head: stack.branches[i].head });
        i += 1;
    }
    proof {
        assert(branches_view(branches@) =~= branches_view(stack.branches@));
    }
    Stack { id: stack.id, base: stack.base, branches }
}

impl Workspace {
    /// A workspace without objects and without stacks.
    pub fn new() -> (r: Self)
        ensures
            wf(r@.objects),
            r@.objects.len() == 0,
            r@.stacks.len() == 0,
    {
        Workspace { store: ObjectStore::new(), stacks: Vec::new() }
    }

    /// The position of the stack with the given id.
    pub fn find_stack(&self, id: StackId) -> (r: Option<usize>)
        ensures
            match r {
                Some(i) => i == stack_index_from(self@.stacks, id, 0) && i < self.stacks.len(),
                None => stack_index_from(self@.stacks, id, 0) >= self@.stacks.len(),
            },
    {
        let ghost stacks = self@.stacks;
        let mut i: usize = 0;
        while i < self.stacks.len()
            invariant
                i <= self.stacks.len(),
                stacks == self@.stacks,
                stack_index_from(stacks, id, i as int) == stack_index_from(stacks, id, 0),
            decreases self.stacks.len() - i,
        {
            proof {
                assert(stacks[i as int] == self.stacks@[i as int]@);
            }
            if self.stacks[i].id == id {
                return Some(i);
            }
            i += 1;
        }
        None
    }
}

fn replay_stack_with(
    store: &mut ObjectStore,
    stack: &mut Stack,
    commit: ObjectId,
    rewritten: ObjectId,
    rebase_noops: bool,
) -> (r: Result<Vec<(ObjectId, ObjectId)>, Error>)
    requires
        wf(old(store)@),
    ensures
        wf(final(store)@),
        extends(final(store)@, old(store)@),
        final(stack)@.id == old(stack)@.id,
        final(stack)@.base == old(stack)@.base,
        match replay_stack(old(store)@, old(stack)@, commit, rewritten, rebase_noops) {
            Ok(done) => r is Ok && final(store)@ == done.0 && final(stack)@.branches == done.1 && keys_distinct(
                r.unwrap()@,
            ) && pairs_map(r.unwrap()@) == done.2,
            Err(e) => r is Err && r.unwrap_err() == e && final(store)@ == old(store)@ && final(stack)@ == old(
                stack,
            )@,
        },
{
    let ghost s = store@;
    proof {
        assert(s.take(s.len() as int) =~= s);
    }
    let mark = store.len();
    let mut steps = match stack.as_rebase_steps(store) {
        Err(e) => {
            return Err(e);
        },
        Ok(steps) => steps,
    };
    match replace_pick_with_commit(&mut steps, commit, rewritten) {
        Err(e) => {
            return Err(e);
        },
        Ok(()) => {},
    }
    let base = match stack.merge_base(store) {
        Err(e) => {
            return Err(e);
        },
        Ok(base) => base,
    };
    let mut rebase = match Rebase::new(store, base, None) {
        Err(e) => {
            return Err(e);
        },
        Ok(rebase) => rebase,
    };
    rebase.steps(steps);
    rebase.rebase_noops(rebase_noops);
    let output = match rebase.rebase(store) {
        Err(e) => {
            return Err(e);
        },
        Ok(output) => output,
    };
    let mut overrides: Vec<(ObjectId, ObjectId)> = Vec::new();
    overrides.push((commit, rewritten));
    proof {
        assert(overrides@ =~= seq![(commit, rewritten)]);
    }
    let mapping = rebase_mapping_with_overrides(&output, &overrides);
    match stack.set_heads_from_rebase_output(store, &output.references) {
        Err(e) => {
            store.truncate(mark);
            proof {
                assert(store@ =~= s);
            }
            Err(e)
        },
        Ok(()) => Ok(mapping),
    }
}

/// Removes the given changes from a commit of a stack.
///
/// The changes are taken out of the commit's tree with `context_lines` as
/// the tolerance for finding hunks, the commit is rewritten, the commits
/// above it in the stack are replayed onto the rewrite, and the heads of
/// the stack move to the replayed commits. `rebase_noops` says whether a
/// replayed commit that changes nothing any more is kept (`true`) or elided
/// (`false`). Only the given stack is updated.
///
/// The exclusive borrow of the workspace is the permission to write: while
/// the operation runs nobody else can read or change the workspace, and the
/// borrow ends on every way out.
///
/// The operation is all or nothing: if a change is rejected, or anything
/// else fails, the workspace is left exactly as it was. See
/// [`remove_changes_in`] for what is returned on which input.
pub fn remove_changes_from_commit_in_stack(
    ws: &mut Workspace,
    source_stack_id: StackId,
    source_commit_id: ObjectId,
    changes: &Vec<DiffSpec>,
    context_lines: u32,
    rebase_noops: bool,
) -> (r: Result<MoveChangesResult, Error>)
    requires
        wf(old(ws)@.objects),
    ensures
        wf(final(ws)@.objects),
        extends(final(ws)@.objects, old(ws)@.objects),
        match remove_changes_in(
            old(ws)@,
            source_stack_id,
            source_commit_id,
            specs_view(changes@),
            context_lines as int,
            rebase_noops,
        ) {
            Ok(done) => r is Ok && final(ws)@ == done.0 && keys_distinct(r.unwrap().replaced_commits@) && pairs_map(
                r.unwrap().replaced_commits@,
            ) == done.1,
            Err(e) => r is Err && r.unwrap_err() == e && final(ws)@ == old(ws)@,
        },
{
    let ghost s0 = ws.store@;
    let ghost stacks0 = ws@.stacks;
    proof {
        assert(s0.take(s0.len() as int) =~= s0);
    }
    let index = match ws.find_stack(source_stack_id) {
        None => {
            return Err(Error::NotFound);
        },
        Some(index) => index,
    };
    let mark = ws.store.len();
    let (tree, rejected) = match create_tree_without_diff(
        &mut ws.store,
        ChangesSource::Commit { id: source_commit_id },
        changes,
        context_lines,
    ) {
        Err(e) => {
            return Err(e);
        },
        Ok(left) => left,
    };
    let ghost s1 = ws.store@;
    if rejected.len() > 0 {
        ws.store.truncate(mark);
        proof {
            assert(ws.store@ =~= s0);
            assert(ws@.stacks == stacks0);
        }
        return Err(Error::IncompleteApplication);
    }
    let rewritten = match replace_commit_tree(&mut ws.store, source_commit_id, tree) {
        Err(e) => {
            ws.store.truncate(mark);
            proof {
                assert(ws.store@ =~= s0);
            }
            return Err(e);
        },
        Ok(rewritten) => rewritten,
    };
    let ghost s2 = ws.store@;
    proof {
        lemma_extends_transitive(s2, s1, s0);
        assert(stacks0[index as int] == ws.stacks@[index as int]@);
    }
    let mut stack = copy_stack(&ws.stacks[index]);
    match replay_stack_with(&mut ws.store, &mut stack, source_commit_id, rewritten, rebase_noops) {
        Err(e) => {
            proof {
                lemma_extends_transitive(ws.store@, s2, s0);
            }
            ws.store.truncate(mark);
            proof {
                assert(ws.store@ =~= s0);
            }
            Err(e)
        },
        Ok(replaced_commits) => {
            proof {
                lemma_extends_transitive(ws.store@, s2, s0);
            }
            let ghost moved = stack@;
            ws.stacks.set(index, stack);
            proof {
                assert(ws@.stacks =~= stacks0.update(index as int, moved));
            }
            Ok(MoveChangesResult { replaced_commits })
        },
    }
}


/// All or nothing: if taking the changes out of the commit rejects a
/// request, the operation fails as incomplete, whatever else holds. The
/// operation then leaves the workspace as it was, as every failure does.
pub proof fn law_rejection_aborts(
    ws: WorkspaceView,
    stack_id: StackId,
    commit: ObjectId,
    specs: Seq<DiffSpecView>,
    tolerance: int,
    keep_noops: bool,
)
    requires
        stack_index_from(ws.stacks, stack_id, 0) < ws.stacks.len(),
        subtract(ws.objects, ChangesSource::Commit { id: commit }, specs, tolerance) is Ok,
        subtract(ws.objects, ChangesSource::Commit { id: commit }, specs, tolerance).unwrap().2.len() > 0,
    ensures
        remove_changes_in(ws, stack_id, commit, specs, tolerance, keep_noops) == Err::<
            (WorkspaceView, Map<ObjectId, ObjectId>),
            Error,
        >(Error::IncompleteApplication),
{
}

} // verus!

//! Rewriting a commit with another tree.

use vstd::prelude::*;
use crate::error::Error;
use crate::object::{Commit, CommitView, Object, ObjectKind, ObjectView, copy_commit};
use crate::object_id::ObjectId;
use crate::store::{
    ObjectStore,
    Objects,
    commit_of,
    extends,
    has_kind,
    lemma_extends_has,
    lemma_put,
    lemma_refs_below,
    put,
    slot,
    wf,
};

verus! {

/// The commit `c` with `tree` in place of its tree.
pub open spec fn with_tree(c: CommitView, tree: ObjectId) -> CommitView {
    CommitView { tree, parents: c.parents, author: c.author, committer: c.committer, message: c.message }
}

/// Storing the commit under `commit` again with `tree` for its tree.
pub open spec fn replace_tree(s: Objects, commit: ObjectId, tree: ObjectId) -> Result<(Objects, ObjectId), Error> {
    if !has_kind(s, commit, ObjectKind::Commit) {
        Err(Error::NotFound)
    } else {
        put(s, ObjectView::Commit(with_tree(commit_of(s, commit), tree)))
    }
}

/// Produces the commit that has the parents, author, committer and message
/// of `commit_id` and `tree_id` for its tree, and returns its id.
pub fn replace_commit_tree(store: &mut ObjectStore, commit_id: ObjectId, tree_id: ObjectId) -> (r: Result<
    ObjectId,
    Error,
>)
    requires
        wf(old(store)@),
    ensures
        wf(final(store)@),
        extends(final(store)@, old(store)@),
        match replace_tree(old(store)@, commit_id, tree_id) {
            Ok(done) => r == Ok::<ObjectId, Error>(done.1) && final(store)@ == done.0,
            Err(e) => r == Err::<ObjectId, Error>(e) && final(store)@ == old(store)@,
        },
{
    proof {
        assert(store@.take(store@.len() as int) =~= store@);
    }
    let rewritten = match store.commit(&commit_id) {
        None => {
            return Err(Error::NotFound);
        },
        Some(c) => {
            let mut copy = copy_commit(c);
            copy.tree = tree_id;
            copy
        },
    };
    store.put(Object::Commit(rewritten))
}

/// Content addressing of rewritten commits: the commit that comes out has
/// the given tree and everything else of the commit it was made from; it is
/// that commit itself, and nothing is written, exactly when the tree is the
/// tree that the commit has.
pub proof fn law_replace_tree(s: Objects, commit: ObjectId, tree: ObjectId)
    requires
        wf(s),
        has_kind(s, commit, ObjectKind::Commit),
    ensures
        tree == commit_of(s, commit).tree ==> replace_tree(s, commit, tree) == Ok::<(Objects, ObjectId), Error>(
            (s, commit),
        ),
        replace_tree(s, commit, tree) is Ok ==> {
            let done = replace_tree(s, commit, tree).unwrap();
            &&& has_kind(done.0, done.1, ObjectKind::Commit)
            &&& commit_of(done.0, done.1) == with_tree(commit_of(s, commit), tree)
            &&& (done.1 == commit <==> tree == commit_of(s, commit).tree)
        },
{
    let old_commit = commit_of(s, commit);
    let i = slot(s, commit);
    assert(s[i].1 == ObjectView::Commit(old_commit));
    lemma_refs_below(s, commit);
    if tree == old_commit.tree {
        assert(with_tree(old_commit, tree) == old_commit);
    }
    if replace_tree(s, commit, tree) is Ok {
        let o = ObjectView::Commit(with_tree(old_commit, tree));
        let done = put(s, o).unwrap();
        lemma_put(s, o);
        if done.1 == commit {
            lemma_extends_has(done.0, s, commit);
        }
    }
}

} // verus!

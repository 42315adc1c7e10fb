//! The three-way merge of trees that replaying a commit onto a new parent
//! needs: the changes that the commit made to its parent's tree are found,
//! file by file, and made to the new parent's tree. Two different edits of
//! one file are a conflict; no attempt is made to reconcile them.

use vstd::prelude::*;
use crate::error::Error;
use crate::bytes::copy_bytes;
use crate::object::{
    EntryKind, EntryView, Object, ObjectKind, ObjectView, TreeEntry, entries_view, lemma_lower_bound,
    lookup, lookup_slot, lower_bound, same_slot, slot_of, target_kind,
};
use crate::object_id::ObjectId;
use crate::store::{
    ObjectStore, Objects, extends, has_kind, lemma_extends_transitive, object_of, present, put, refs_ok,
    slot, wf,
};
use crate::tree_path::{
    diverge, entries_at, entry_at_path, lemma_set_path, lookup_path, path_view, resolves, set_path, subtree,
    write_path,
};

verus! {

/// What one name comes to when `ours` and `theirs` both descend from `base`:
/// the side that changed it wins, two equal changes agree, and two different
/// changes are a conflict, which is `None`.
pub open spec fn resolve(
    base: Option<(EntryKind, ObjectId)>,
    ours: Option<(EntryKind, ObjectId)>,
    theirs: Option<(EntryKind, ObjectId)>,
) -> Option<Option<(EntryKind, ObjectId)>> {
    if ours == base {
        Some(theirs)
    } else if theirs == base || ours == theirs {
        Some(ours)
    } else {
        None
    }
}

/// Resolves one name; see [`resolve`].
pub fn resolve_slot(
    base: Option<(EntryKind, ObjectId)>,
    ours: Option<(EntryKind, ObjectId)>,
    theirs: Option<(EntryKind, ObjectId)>,
) -> (r: Option<Option<(EntryKind, ObjectId)>>)
    ensures
        r == resolve(base, ours, theirs),
{
    if same_slot(&ours, &base) {
        Some(theirs)
    } else if same_slot(&theirs, &base) || same_slot(&ours, &theirs) {
        Some(ours)
    } else {
        None
    }
}

/// One change between two trees: a path, what stood there before, and what
/// stands there after.
#[derive(Clone, Debug, PartialEq, Eq)]
pub struct Change {
    pub path: Vec<Vec<u8>>,
    pub was: Option<(EntryKind, ObjectId)>,
    pub is: Option<(EntryKind, ObjectId)>,
}

/// The view of a [`Change`].
pub struct ChangeView {
    pub path: Seq<Seq<u8>>,
    pub was: Option<(EntryKind, ObjectId)>,
    pub is: Option<(EntryKind, ObjectId)>,
}

impl View for Change {
    type V = ChangeView;

    open spec fn view(&self) -> ChangeView {
        ChangeView { path: path_view(self.path@), was: self.was, is: self.is }
    }
}

/// The views of a list of changes, in order.
pub open spec fn changes_view(v: Seq<Change>) -> Seq<ChangeView> {
    Seq::new(v.len(), |i: int| v[i]@)
}

/// How late a tree was added to the store, counted from one; zero for no
/// tree. What a tree holds was added before it.
pub open spec fn rank(s: Objects, tree: Option<ObjectId>) -> int {
    match tree {
        Some(id) => if present(s, id) {
            slot(s, id) + 1
        } else {
            0
        },
        None => 0,
    }
}

/// Whether the difference between two entries is looked into rather than
/// taken as one change: one of them is a directory, and the other is a
/// directory or nothing.
pub open spec fn descends(x: Option<(EntryKind, ObjectId)>, y: Option<(EntryKind, ObjectId)>) -> bool {
    (subtree(x) is Some || subtree(y) is Some) && (x is None || subtree(x) is Some) && (y is None || subtree(y) is Some)
}

/// The directory that an entry of a tree names was added before the tree.
pub proof fn lemma_child_rank(s: Objects, root: Option<ObjectId>, name: Seq<u8>)
    requires
        wf(s),
    ensures
        subtree(slot_of(lookup(entries_at(s, root), name))) is Some ==> 0 < rank(
            s,
            subtree(slot_of(lookup(entries_at(s, root), name))),
        ) < rank(s, root),
        0 <= rank(s, subtree(slot_of(lookup(entries_at(s, root), name)))) <= rank(s, root),
{
    let entries = entries_at(s, root);
    if lookup(entries, name) is Some {
        let r = root.unwrap();
        let i = slot(s, r);
        let p = lower_bound(entries, name);
        lemma_lower_bound(entries, name);
        crate::store::lemma_wf_prefix(s, i);
        assert(s[i].1 == object_of(s, r));
        reveal(refs_ok);
        let child = entries[p].id;
        assert(has_kind(s.take(i), child, target_kind(entries[p].kind)));
        crate::store::lemma_extends_has(s, s.take(i), child);
    }
}

/// The entries over which one pass of the comparison of two trees goes:
/// those of the first tree in the first pass, those of the second after.
pub open spec fn pass_entries(s: Objects, b: Option<ObjectId>, t: Option<ObjectId>, first: bool) -> Seq<EntryView> {
    if first {
        entries_at(s, b)
    } else {
        entries_at(s, t)
    }
}

/// The changes between the entries `x` and `y` at `path`: none if they are
/// the same, those between the two directories if the difference is looked
/// into, and else the one change from `x` to `y`.
pub open spec fn entry_changes(
    s: Objects,
    x: Option<(EntryKind, ObjectId)>,
    y: Option<(EntryKind, ObjectId)>,
    path: Seq<Seq<u8>>,
) -> Seq<ChangeView>
    decreases rank(s, subtree(x)) + rank(s, subtree(y)) + 1, 0int,
    when wf(s)
{
    if x == y {
        Seq::empty()
    } else if descends(x, y) {
        tree_changes(s, subtree(x), subtree(y), path)
    } else {
        seq![ChangeView { path, was: x, is: y }]
    }
}

/// The changes from the tree `b` to the tree `t`, each with `prefix` before
/// its path: first those at the names of `b`, in order, then those at the
/// names that only `t` has.
pub open spec fn tree_changes(s: Objects, b: Option<ObjectId>, t: Option<ObjectId>, prefix: Seq<Seq<u8>>) -> Seq<
    ChangeView,
>
    decreases rank(s, b) + rank(s, t), entries_at(s, b).len() + entries_at(s, t).len() + 1,
    when wf(s)
{
    pass_changes(s, b, t, prefix, true, 0) + pass_changes(s, b, t, prefix, false, 0)
}

/// The changes that one pass finds from its entry `i` on.
pub open spec fn pass_changes(
    s: Objects,
    b: Option<ObjectId>,
    t: Option<ObjectId>,
    prefix: Seq<Seq<u8>>,
    first: bool,
    i: int,
) -> Seq<ChangeView>
    decreases rank(s, b) + rank(s, t), pass_entries(s, b, t, first).len() - i,
    when wf(s)
{
    let names = pass_entries(s, b, t, first);
    if i < 0 || i >= names.len() {
        Seq::empty()
    } else {
        let n = names[i].name;
        let x = slot_of(lookup(entries_at(s, b), n));
        let y = slot_of(lookup(entries_at(s, t), n));
        proof {
            lemma_child_rank(s, b, n);
            lemma_child_rank(s, t, n);
            lemma_pass_rank(s, b, t, first);
        }
        (if !first && x is Some {
            Seq::empty()
        } else {
            entry_changes(s, x, y, prefix.push(n))
        }) + pass_changes(s, b, t, prefix, first, i + 1)
    }
}

/// A tree that has entries is in the store.
pub proof fn lemma_pass_rank(s: Objects, b: Option<ObjectId>, t: Option<ObjectId>, first: bool)
    ensures
        pass_entries(s, b, t, first).len() > 0 ==> rank(s, b) + rank(s, t) >= 1,
        rank(s, b) >= 0,
        rank(s, t) >= 0,
{
}

/// Making changes to the tree `current`, one after another. A change is
/// made where the tree still has what stood there before the change, and
/// skipped where the tree has the change already; anything else at the
/// path is a conflict.
pub open spec fn apply_changes(s: Objects, current: Option<ObjectId>, changes: Seq<ChangeView>) -> Result<
    (Objects, Option<ObjectId>),
    Error,
>
    decreases changes.len(),
{
    if changes.len() == 0 {
        Ok((s, current))
    } else {
        let c = changes[0];
        let now = lookup_path(s, current, c.path);
        match resolve(c.was, now, c.is) {
            None => Err(Error::ReplayConflict),
            Some(v) => if v == now {
                apply_changes(s, current, changes.drop_first())
            } else {
                match set_path(s, current, c.path, v) {
                    Err(e) => Err(e),
                    Ok(done) => apply_changes(done.0, done.1, changes.drop_first()),
                }
            },
        }
    }
}

/// Merging the change from `base` to `theirs` into `ours`. Where one side
/// did not change anything the other side's tree is the result and nothing
/// is written; otherwise the changes from `base` to `theirs` are made to
/// `ours`. The result is always a stored tree, the empty tree if nothing is
/// left.
pub open spec fn merge_trees(s: Objects, base: Option<ObjectId>, ours: ObjectId, theirs: ObjectId) -> Result<
    (Objects, ObjectId),
    Error,
> {
    if !has_kind(s, ours, ObjectKind::Tree) || !has_kind(s, theirs, ObjectKind::Tree) || (base is Some
        && !has_kind(s, base.unwrap(), ObjectKind::Tree)) {
        Err(Error::NotFound)
    } else if base == Some(ours) {
        Ok((s, theirs))
    } else if base == Some(theirs) || ours == theirs {
        Ok((s, ours))
    } else {
        match apply_changes(s, Some(ours), tree_changes(s, base, Some(theirs), Seq::empty())) {
            Err(e) => Err(e),
            Ok(done) => match done.1 {
                Some(tree) => Ok((done.0, tree)),
                None => put(done.0, ObjectView::Tree(Seq::empty())),
            },
        }
    }
}

fn entries_in(store: &ObjectStore, root: Option<ObjectId>) -> (r: Option<&Vec<TreeEntry>>)
    requires
        wf(store@),
    ensures
        match r {
            Some(entries) => entries_view(entries@) == entries_at(store@, root),
            None => entries_at(store@, root).len() == 0,
        },
{
    match root {
        Some(id) => store.tree(&id),
        None => None,
    }
}

fn slot_in(entries: Option<&Vec<TreeEntry>>, name: &Vec<u8>) -> (r: Option<(EntryKind, ObjectId)>)
    ensures
        match entries {
            Some(e) => r == slot_of(lookup(entries_view(e@), name@)),
            None => r is None,
        },
{
    match entries {
        Some(e) => lookup_slot(e, name),
        None => None,
    }
}

fn copy_path(path: &Vec<Vec<u8>>) -> (r: Vec<Vec<u8>>)
    ensures
        path_view(r@) == path_view(path@),
{
    let mut out: Vec<Vec<u8>> = Vec::new();
    let mut i: usize = 0;
    while i < path.len()
        invariant
            i <= path.len(),
            out.len() == i,
            forall|k: int| 0 <= k < i ==> out@[k]@ == path@[k]@,
        decreases path.len() - i,
    {
        out.push(copy_bytes(&path[i]));
        i += 1;
    }
    proof {
        assert(path_view(out@) =~= path_view(path@));
    }
    out
}

fn descends_into(x: Option<(EntryKind, ObjectId)>, y: Option<(EntryKind, ObjectId)>) -> (r: bool)
    ensures
        r == descends(x, y),
{
    let x_dir = match x {
        Some(v) => v.0 == EntryKind::Tree,
        None => false,
    };
    let y_dir = match y {
        Some(v) => v.0 == EntryKind::Tree,
        None => false,
    };
    (x_dir || y_dir) && (x.is_none() || x_dir) && (y.is_none() || y_dir)
}

fn tree_under(x: Option<(EntryKind, ObjectId)>) -> (r: Option<ObjectId>)
    ensures
        r == subtree(x),
{
    match x {
        Some(v) => if v.0 == EntryKind::Tree {
            Some(v.1)
        } else {
            None
        },
        None => None,
    }
}

fn collect_pass(
    store: &ObjectStore,
    b: Option<ObjectId>,
    t: Option<ObjectId>,
    prefix: &mut Vec<Vec<u8>>,
    first: bool,
    out: &mut Vec<Change>,
)
    requires
        wf(store@),
    ensures
        path_view(final(prefix)@) == path_view(old(prefix)@),
        changes_view(final(out)@) == changes_view(old(out)@) + pass_changes(
            store@,
            b,
            t,
            path_view(old(prefix)@),
            first,
            0,
        ),
    decreases rank(store@, b) + rank(store@, t), 1int,
{
    let ghost s = store@;
    let ghost p0 = path_view(prefix@);
    let ghost start = changes_view(out@);
    let b_entries = entries_in(store, b);
    let t_entries = entries_in(store, t);
    let names = if first {
        b_entries
    } else {
        t_entries
    };
    let names = match names {
        Some(names) => names,
        None => {
            proof {
                assert(start + pass_changes(s, b, t, p0, first, 0) =~= start);
            }
            return ;
        },
    };
    let mut i: usize = 0;
    while i < names.len()
        invariant
            i <= names.len(),
            wf(store@),
            s == store@,
            entries_view(names@) == pass_entries(s, b, t, first),
            match b_entries {
                Some(e) => entries_view(e@) == entries_at(s, b),
                None => entries_at(s, b).len() == 0,
            },
            match t_entries {
                Some(e) => entries_view(e@) == entries_at(s, t),
                None => entries_at(s, t).len() == 0,
            },
            path_view(prefix@) == p0,
            changes_view(out@) + pass_changes(s, b, t, p0, first, i as int) == start + pass_changes(
                s,
                b,
                t,
                p0,
                first,
                0,
            ),
        decreases names.len() - i,
    {
        let name = &names[i].name;
        let ghost n = name@;
        let ghost before = changes_view(out@);
        proof {
            assert(entries_view(names@)[i as int].name == n);
            lemma_child_rank(s, b, n);
            lemma_child_rank(s, t, n);
            lemma_pass_rank(s, b, t, first);
        }
        let x = slot_in(b_entries, name);
        let y = slot_in(t_entries, name);
        if first || x.is_none() {
            if !same_slot(&x, &y) {
                prefix.push(copy_bytes(name));
                proof {
                    assert(path_view(prefix@) =~= p0.push(n));
                }
                if descends_into(x, y) {
                    collect_tree(store, tree_under(x), tree_under(y), prefix, out);
                } else {
                    let ghost had = changes_view(out@);
                    out.push(Change { path: copy_path(prefix), was: x, is: y });
                    proof {
                        assert(changes_view(out@) =~= had + seq![ChangeView { path: p0.push(n), was: x, is: y }]);
                    }
                }
                let ghost longer = path_view(prefix@);
                proof {
                    assert(longer == p0.push(n));
                }
                prefix.pop();
                proof {
                    assert(path_view(prefix@) =~= longer.drop_last());
                    assert(p0.push(n).drop_last() =~= p0);
                }
            } else {
                proof {
                    assert(before + Seq::<ChangeView>::empty() =~= before);
                }
            }
        } else {
            proof {
                assert(before + Seq::<ChangeView>::empty() =~= before);
            }
        }
        proof {
            let here = if !first && x is Some {
                Seq::<ChangeView>::empty()
            } else {
                entry_changes(s, x, y, p0.push(n))
            };
            assert(changes_view(out@) == before + here);
            assert(pass_changes(s, b, t, p0, first, i as int) == here + pass_changes(
                s,
                b,
                t,
                p0,
                first,
                i as int + 1,
            ));
            assert((before + here) + pass_changes(s, b, t, p0, first, i as int + 1) =~= before + (here
                + pass_changes(s, b, t, p0, first, i as int + 1)));
        }
        i += 1;
    }
    proof {
        assert(changes_view(out@) + Seq::<ChangeView>::empty() =~= changes_view(out@));
    }
}

fn collect_tree(
    store: &ObjectStore,
    b: Option<ObjectId>,
    t: Option<ObjectId>,
    prefix: &mut Vec<Vec<u8>>,
    out: &mut Vec<Change>,
)
    requires
        wf(store@),
    ensures
        path_view(final(prefix)@) == path_view(old(prefix)@),
        changes_view(final(out)@) == changes_view(old(out)@) + tree_changes(store@, b, t, path_view(old(prefix)@)),
    decreases rank(store@, b) + rank(store@, t), 2int,
{
    let ghost start = changes_view(out@);
    let ghost p0 = path_view(prefix@);
    collect_pass(store, b, t, prefix, true, out);
    collect_pass(store, b, t, prefix, false, out);
    proof {
        assert((start + pass_changes(store@, b, t, p0, true, 0)) + pass_changes(store@, b, t, p0, false, 0) =~= start
            + tree_changes(store@, b, t, p0));
    }
}

/// The changes from the tree `b` to the tree `t`; see [`tree_changes`].
pub fn changes_between(store: &ObjectStore, b: Option<ObjectId>, t: Option<ObjectId>) -> (r: Vec<Change>)
    requires
        wf(store@),
    ensures
        changes_view(r@) == tree_changes(store@, b, t, Seq::empty()),
{
    let mut out: Vec<Change> = Vec::new();
    let mut prefix: Vec<Vec<u8>> = Vec::new();
    proof {
        assert(path_view(prefix@) =~= Seq::<Seq<u8>>::empty());
        assert(changes_view(out@) =~= Seq::<ChangeView>::empty());
    }
    collect_tree(store, b, t, &mut prefix, &mut out);
    proof {
        assert(Seq::<ChangeView>::empty() + tree_changes(store@, b, t, Seq::empty()) =~= tree_changes(
            store@,
            b,
            t,
            Seq::empty(),
        ));
    }
    out
}

/// Makes changes to the tree `current`; see [`apply_changes`]. A failure
/// leaves in the store what was written before it.
pub fn apply(store: &mut ObjectStore, current: Option<ObjectId>, changes: &Vec<Change>) -> (r: Result<
    Option<ObjectId>,
    Error,
>)
    requires
        wf(old(store)@),
    ensures
        wf(final(store)@),
        extends(final(store)@, old(store)@),
        match apply_changes(old(store)@, current, changes_view(changes@)) {
            Ok(done) => r == Ok::<Option<ObjectId>, Error>(done.1) && final(store)@ == done.0,
            Err(e) => r == Err::<Option<ObjectId>, Error>(e),
        },
{
    let ghost s0 = store@;
    let ghost all = changes_view(changes@);
    let mut tree = current;
    let mut i: usize = 0;
    proof {
        assert(s0.take(s0.len() as int) =~= s0);
        assert(all.subrange(0, all.len() as int) =~= all);
    }
    while i < changes.len()
        invariant
            i <= changes.len(),
            all == changes_view(changes@),
            wf(store@),
            extends(store@, s0),
            s0 == old(store)@,
            apply_changes(store@, tree, all.subrange(i as int, all.len() as int)) == apply_changes(s0, current, all),
        decreases changes.len() - i,
    {
        let ghost rest = all.subrange(i as int, all.len() as int);
        let ghost mid = store@;
        let c = &changes[i];
        proof {
            assert(rest[0] == changes@[i as int]@);
            assert(rest.drop_first() =~= all.subrange(i as int + 1, all.len() as int));
            assert(path_view(c.path@).skip(0) =~= path_view(c.path@));
        }
        let now = entry_at_path(store, tree, &c.path, 0);
        match resolve_slot(c.was, now, c.is) {
            None => {
                return Err(Error::ReplayConflict);
            },
            Some(v) => {
                if !same_slot(&v, &now) {
                    match write_path(store, tree, &c.path, 0, v) {
                        Err(e) => {
                            proof {
                                lemma_extends_transitive(store@, mid, s0);
                            }
                            return Err(e);
                        },
                        Ok(next) => {
                            proof {
                                lemma_extends_transitive(store@, mid, s0);
                            }
                            tree = next;
                        },
                    }
                }
            },
        }
        i += 1;
    }
    Ok(tree)
}

/// Merges the change from `base` to `theirs` into `ours`; see
/// [`merge_trees`]. On failure the store is as it was.
pub fn merge(store: &mut ObjectStore, base: Option<ObjectId>, ours: ObjectId, theirs: ObjectId) -> (r: Result<
    ObjectId,
    Error,
>)
    requires
        wf(old(store)@),
    ensures
        wf(final(store)@),
        extends(final(store)@, old(store)@),
        match merge_trees(old(store)@, base, ours, theirs) {
            Ok(done) => r == Ok::<ObjectId, Error>(done.1) && final(store)@ == done.0,
            Err(e) => r == Err::<ObjectId, Error>(e) && final(store)@ == old(store)@,
        },
{
    let ghost s0 = store@;
    proof {
        assert(s0.take(s0.len() as int) =~= s0);
    }
    if !store.holds(&ours, ObjectKind::Tree) || !store.holds(&theirs, ObjectKind::Tree) {
        return Err(Error::NotFound);
    }
    let base_is_ours = match base {
        Some(b) => {
            if !store.holds(&b, ObjectKind::Tree) {
                return Err(Error::NotFound);
            }
            b == ours
        },
        None => false,
    };
    let base_is_theirs = match base {
        Some(b) => b == theirs,
        None => false,
    };
    if base_is_ours {
        return Ok(theirs);
    }
    if base_is_theirs || ours == theirs {
        return Ok(ours);
    }
    let mark = store.len();
    let changes = changes_between(store, base, Some(theirs));
    match apply(store, Some(ours), &changes) {
        Err(e) => {
            store.truncate(mark);
            proof {
                assert(store@ =~= s0);
            }
            Err(e)
        },
        Ok(Some(tree)) => Ok(tree),
        Ok(None) => {
            let ghost mid = store@;
            let empty: Vec<TreeEntry> = Vec::new();
            proof {
                assert(entries_view(empty@) =~= Seq::<EntryView>::empty());
            }
            match store.put(Object::Tree(empty)) {
                Err(e) => {
                    store.truncate(mark);
                    proof {
                        assert(store@ =~= s0);
                    }
                    Err(e)
                },
                Ok(tree) => {
                    proof {
                        lemma_extends_transitive(store@, mid, s0);
                    }
                    Ok(tree)
                },
            }
        },
    }
}


/// No two changes overlap: their paths part ways.
pub open spec fn changes_apart(changes: Seq<ChangeView>) -> bool {
    forall|i: int, j: int|
        0 <= i < changes.len() && 0 <= j < changes.len() && i != j ==> diverge(
            (#[trigger] changes[i]).path,
            (#[trigger] changes[j]).path,
        )
}

/// Every change has a path and changes something.
pub open spec fn changes_real(changes: Seq<ChangeView>) -> bool {
    forall|i: int| 0 <= i < changes.len() ==> (#[trigger] changes[i]).path.len() > 0 && changes[i].was != changes[i].is
}

/// The path `q` parts ways with the path of every change.
pub open spec fn clear_of_changes(changes: Seq<ChangeView>, q: Seq<Seq<u8>>) -> bool {
    forall|i: int| 0 <= i < changes.len() ==> diverge((#[trigger] changes[i]).path, q)
}

/// What making changes comes to. Where the changes do not overlap and all
/// could be made, the tree that comes out has at the path of every change
/// what the change put there, and every path that parts ways with all of
/// them leads where it led before.
pub proof fn law_apply_changes(s: Objects, current: Option<ObjectId>, changes: Seq<ChangeView>)
    requires
        wf(s),
        resolves(s, current),
        changes_apart(changes),
        changes_real(changes),
        apply_changes(s, current, changes) is Ok,
    ensures
        ({
            let r = apply_changes(s, current, changes).unwrap();
            &&& wf(r.0)
            &&& extends(r.0, s)
            &&& resolves(r.0, r.1)
            &&& forall|i: int|
                0 <= i < changes.len() ==> lookup_path(r.0, r.1, (#[trigger] changes[i]).path) == changes[i].is
            &&& forall|q: Seq<Seq<u8>>|
                clear_of_changes(changes, q) ==> #[trigger] lookup_path(r.0, r.1, q) == lookup_path(s, current, q)
        }),
    decreases changes.len(),
{
    let r = apply_changes(s, current, changes).unwrap();
    if changes.len() == 0 {
        assert(s.take(s.len() as int) =~= s);
    } else {
        let c = changes[0];
        let rest = changes.drop_first();
        let now = lookup_path(s, current, c.path);
        let v = resolve(c.was, now, c.is).unwrap();
        assert(c.path.len() > 0 && c.was != c.is);
        assert(v == c.is);
        let (s1, t1) = if v == now {
            (s, current)
        } else {
            set_path(s, current, c.path, v).unwrap()
        };
        if v == now {
            assert(s.take(s.len() as int) =~= s);
        } else {
            lemma_set_path(s, current, c.path, v);
        }
        assert(lookup_path(s1, t1, c.path) == c.is);
        assert(changes_apart(rest)) by {
            assert forall|i: int, j: int| 0 <= i < rest.len() && 0 <= j < rest.len() && i != j implies diverge(
                (#[trigger] rest[i]).path,
                (#[trigger] rest[j]).path,
            ) by {
                assert(rest[i] == changes[i + 1] && rest[j] == changes[j + 1]);
            }
        }
        assert(changes_real(rest)) by {
            assert forall|i: int| 0 <= i < rest.len() implies (#[trigger] rest[i]).path.len() > 0 && rest[i].was
                != rest[i].is by {
                assert(rest[i] == changes[i + 1]);
            }
        }
        law_apply_changes(s1, t1, rest);
        let rr = apply_changes(s1, t1, rest).unwrap();
        assert(r == rr);
        lemma_extends_transitive(r.0, s1, s);
        assert(clear_of_changes(rest, c.path)) by {
            assert forall|j: int| 0 <= j < rest.len() implies diverge((#[trigger] rest[j]).path, c.path) by {
                assert(rest[j] == changes[j + 1]);
                assert(diverge(changes[j + 1].path, changes[0].path));
            }
        }
        assert forall|i: int| 0 <= i < changes.len() implies lookup_path(r.0, r.1, (#[trigger] changes[i]).path)
            == changes[i].is by {
            if i == 0 {
                assert(lookup_path(rr.0, rr.1, c.path) == lookup_path(s1, t1, c.path));
            } else {
                assert(rest[i - 1] == changes[i]);
            }
        }
        assert forall|q: Seq<Seq<u8>>| clear_of_changes(changes, q) implies #[trigger] lookup_path(r.0, r.1, q)
            == lookup_path(s, current, q) by {
            assert(diverge(changes[0].path, q));
            assert(clear_of_changes(rest, q)) by {
                assert forall|j: int| 0 <= j < rest.len() implies diverge((#[trigger] rest[j]).path, q) by {
                    assert(rest[j] == changes[j + 1]);
                }
            }
            assert(lookup_path(rr.0, rr.1, q) == lookup_path(s1, t1, q));
            assert(lookup_path(s1, t1, q) == lookup_path(s, current, q));
        }
    }
}


/// The change `c` is a true one between the trees `b` and `t` below
/// `prefix`: its path continues `prefix`, and it holds what the two trees
/// have at the rest of the path, which differs.
pub open spec fn faithful(
    s: Objects,
    b: Option<ObjectId>,
    t: Option<ObjectId>,
    prefix: Seq<Seq<u8>>,
    c: ChangeView,
) -> bool {
    &&& c.path.len() > prefix.len()
    &&& c.path.take(prefix.len() as int) == prefix
    &&& c.was != c.is
    &&& c.was == lookup_path(s, b, c.path.skip(prefix.len() as int))
    &&& c.is == lookup_path(s, t, c.path.skip(prefix.len() as int))
}

/// Whether `name` is the name of an entry of a pass at or after `i` that
/// the pass looks at.
pub open spec fn in_pass(s: Objects, b: Option<ObjectId>, t: Option<ObjectId>, first: bool, i: int, name: Seq<u8>) -> bool {
    &&& lookup(pass_entries(s, b, t, first), name) is Some
    &&& lower_bound(pass_entries(s, b, t, first), name) >= i
    &&& (first || lookup(entries_at(s, b), name) is None)
}

proof fn lemma_diverge_at(p: Seq<Seq<u8>>, q: Seq<Seq<u8>>, k: int)
    requires
        0 <= k < p.len(),
        k < q.len(),
        forall|m: int| 0 <= m < k ==> p[m] == q[m],
        p[k] != q[k],
    ensures
        diverge(p, q),
        diverge(q, p),
    decreases k,
{
    if k > 0 {
        let pr = p.drop_first();
        let qr = q.drop_first();
        assert forall|m: int| 0 <= m < k - 1 implies pr[m] == qr[m] by {
            assert(pr[m] == p[m + 1] && qr[m] == q[m + 1]);
        }
        lemma_diverge_at(pr, qr, k - 1);
    }
}

proof fn lemma_lookup_nowhere(s: Objects, q: Seq<Seq<u8>>)
    ensures
        lookup_path(s, None, q) == None::<(EntryKind, ObjectId)>,
{
}

proof fn lemma_entry_changes(s: Objects, b: Option<ObjectId>, t: Option<ObjectId>, prefix: Seq<Seq<u8>>, n: Seq<u8>)
    requires
        wf(s),
    ensures
        ({
            let x = slot_of(lookup(entries_at(s, b), n));
            let y = slot_of(lookup(entries_at(s, t), n));
            let found = entry_changes(s, x, y, prefix.push(n));
            &&& forall|k: int|
                0 <= k < found.len() ==> faithful(s, b, t, prefix, #[trigger] found[k]) && found[k].path[prefix.len() as int]
                    == n
            &&& changes_apart(found)
        }),
    decreases
            rank(s, subtree(slot_of(lookup(entries_at(s, b), n)))) + rank(
                s,
                subtree(slot_of(lookup(entries_at(s, t), n))),
            ) + 1,
            0int,
{
    let x = slot_of(lookup(entries_at(s, b), n));
    let y = slot_of(lookup(entries_at(s, t), n));
    let path = prefix.push(n);
    let found = entry_changes(s, x, y, path);
    let len = prefix.len() as int;
    if x == y {
    } else if descends(x, y) {
        lemma_tree_changes(s, subtree(x), subtree(y), path);
        assert forall|k: int| 0 <= k < found.len() implies faithful(s, b, t, prefix, #[trigger] found[k])
            && found[k].path[len] == n by {
            let c = found[k];
            assert(faithful(s, subtree(x), subtree(y), path, c));
            assert(c.path.take(len + 1)[len] == n);
            assert(c.path.take(len) =~= c.path.take(len + 1).take(len));
            assert(path.take(len) =~= prefix);
            let q = c.path.skip(len);
            assert(q[0] == n);
            assert(q.drop_first() =~= c.path.skip(len + 1));
            lemma_lookup_nowhere(s, q.drop_first());
        }
    } else {
        let c = found[0];
        assert(c.path.take(len) =~= prefix);
        assert(c.path.skip(len) =~= seq![n]);
    }
}

proof fn lemma_pass_changes(
    s: Objects,
    b: Option<ObjectId>,
    t: Option<ObjectId>,
    prefix: Seq<Seq<u8>>,
    first: bool,
    i: int,
)
    requires
        wf(s),
        0 <= i,
    ensures
        ({
            let found = pass_changes(s, b, t, prefix, first, i);
            &&& forall|k: int|
                0 <= k < found.len() ==> faithful(s, b, t, prefix, #[trigger] found[k]) && in_pass(
                    s,
                    b,
                    t,
                    first,
                    i,
                    found[k].path[prefix.len() as int],
                )
            &&& changes_apart(found)
        }),
    decreases rank(s, b) + rank(s, t), pass_entries(s, b, t, first).len() - i,
{
    let names = pass_entries(s, b, t, first);
    let found = pass_changes(s, b, t, prefix, first, i);
    let len = prefix.len() as int;
    if i < names.len() {
        let n = names[i].name;
        let x = slot_of(lookup(entries_at(s, b), n));
        let y = slot_of(lookup(entries_at(s, t), n));
        lemma_child_rank(s, b, n);
        lemma_child_rank(s, t, n);
        lemma_pass_rank(s, b, t, first);
        crate::tree_path::lemma_entries_at_valid(s, b);
        crate::tree_path::lemma_entries_at_valid(s, t);
        crate::object::lemma_lookup_at(names, i);
        let here = if !first && x is Some {
            Seq::<ChangeView>::empty()
        } else {
            entry_changes(s, x, y, prefix.push(n))
        };
        let later = pass_changes(s, b, t, prefix, first, i + 1);
        assert(found == here + later);
        if first || x is None {
            lemma_entry_changes(s, b, t, prefix, n);
        }
        lemma_pass_changes(s, b, t, prefix, first, i + 1);
        assert forall|k: int| 0 <= k < found.len() implies faithful(s, b, t, prefix, #[trigger] found[k]) && in_pass(
            s,
            b,
            t,
            first,
            i,
            found[k].path[len],
        ) by {
            if k < here.len() {
                assert(found[k] == here[k]);
            } else {
                assert(found[k] == later[k - here.len()]);
            }
        }
        assert forall|a: int, c: int| 0 <= a < found.len() && 0 <= c < found.len() && a != c implies diverge(
            (#[trigger] found[a]).path,
            (#[trigger] found[c]).path,
        ) by {
            if a < here.len() && c < here.len() {
                assert(found[a] == here[a] && found[c] == here[c]);
            } else if a >= here.len() && c >= here.len() {
                assert(found[a] == later[a - here.len()] && found[c] == later[c - here.len()]);
            } else {
                let (h, l) = if a < here.len() {
                    (a, c)
                } else {
                    (c, a)
                };
                assert(found[h] == here[h] && found[l] == later[l - here.len()]);
                let p = found[h].path;
                let q = found[l].path;
                assert(p[len] == n);
                assert(in_pass(s, b, t, first, i + 1, q[len]));
                assert(lower_bound(names, n) == i);
                assert forall|m: int| 0 <= m < len implies p[m] == q[m] by {
                    assert(p.take(len)[m] == q.take(len)[m]);
                }
                lemma_diverge_at(p, q, len);
            }
        }
    }
}

proof fn lemma_tree_changes(s: Objects, b: Option<ObjectId>, t: Option<ObjectId>, prefix: Seq<Seq<u8>>)
    requires
        wf(s),
    ensures
        forall|k: int|
            0 <= k < tree_changes(s, b, t, prefix).len() ==> faithful(
                s,
                b,
                t,
                prefix,
                #[trigger] tree_changes(s, b, t, prefix)[k],
            ),
        changes_apart(tree_changes(s, b, t, prefix)),
    decreases rank(s, b) + rank(s, t), entries_at(s, b).len() + entries_at(s, t).len() + 1,
{
    let one = pass_changes(s, b, t, prefix, true, 0);
    let two = pass_changes(s, b, t, prefix, false, 0);
    let found = tree_changes(s, b, t, prefix);
    let len = prefix.len() as int;
    lemma_pass_changes(s, b, t, prefix, true, 0);
    lemma_pass_changes(s, b, t, prefix, false, 0);
    assert(found == one + two);
    assert forall|k: int| 0 <= k < found.len() implies faithful(s, b, t, prefix, #[trigger] found[k]) by {
        if k < one.len() {
            assert(found[k] == one[k]);
        } else {
            assert(found[k] == two[k - one.len()]);
        }
    }
    assert forall|a: int, c: int| 0 <= a < found.len() && 0 <= c < found.len() && a != c implies diverge(
        (#[trigger] found[a]).path,
        (#[trigger] found[c]).path,
    ) by {
        if a < one.len() && c < one.len() {
            assert(found[a] == one[a] && found[c] == one[c]);
        } else if a >= one.len() && c >= one.len() {
            assert(found[a] == two[a - one.len()] && found[c] == two[c - one.len()]);
        } else {
            let (h, l) = if a < one.len() {
                (a, c)
            } else {
                (c, a)
            };
            assert(found[h] == one[h] && found[l] == two[l - one.len()]);
            let p = found[h].path;
            let q = found[l].path;
            assert(in_pass(s, b, t, true, 0, p[len]));
            assert(in_pass(s, b, t, false, 0, q[len]));
            assert forall|m: int| 0 <= m < len implies p[m] == q[m] by {
                assert(p.take(len)[m] == q.take(len)[m]);
            }
            lemma_diverge_at(p, q, len);
        }
    }
}

/// The changes that are found between two trees are true and do not
/// overlap: each holds what the two trees have at its path, which differs,
/// and the paths of any two part ways.
pub proof fn law_tree_changes(s: Objects, b: Option<ObjectId>, t: Option<ObjectId>)
    requires
        wf(s),
    ensures
        forall|k: int|
            0 <= k < tree_changes(s, b, t, Seq::empty()).len() ==> {
                let c = #[trigger] tree_changes(s, b, t, Seq::empty())[k];
                &&& c.path.len() > 0
                &&& c.was != c.is
                &&& c.was == lookup_path(s, b, c.path)
                &&& c.is == lookup_path(s, t, c.path)
            },
        changes_apart(tree_changes(s, b, t, Seq::empty())),
        changes_real(tree_changes(s, b, t, Seq::empty())),
{
    let found = tree_changes(s, b, t, Seq::empty());
    lemma_tree_changes(s, b, t, Seq::empty());
    assert forall|k: int| 0 <= k < found.len() implies {
        let c = #[trigger] found[k];
        &&& c.path.len() > 0
        &&& c.was != c.is
        &&& c.was == lookup_path(s, b, c.path)
        &&& c.is == lookup_path(s, t, c.path)
    } by {
        assert(faithful(s, b, t, Seq::empty(), found[k]));
        assert(found[k].path.skip(0) =~= found[k].path);
    }
}

/// What a merge comes to. Where both sides changed something and the merge
/// succeeds, the merged tree has at every path that `theirs` changed what
/// `theirs` has there, and at every path that parts ways with all of those
/// what `ours` has there.
pub proof fn law_merge_trees(s: Objects, base: Option<ObjectId>, ours: ObjectId, theirs: ObjectId)
    requires
        wf(s),
        base != Some(ours),
        base != Some(theirs),
        ours != theirs,
        merge_trees(s, base, ours, theirs) is Ok,
    ensures
        ({
            let merged = merge_trees(s, base, ours, theirs).unwrap();
            let theirs_changes = tree_changes(s, base, Some(theirs), Seq::empty());
            &&& wf(merged.0)
            &&& extends(merged.0, s)
            &&& forall|k: int|
                0 <= k < theirs_changes.len() ==> lookup_path(
                    merged.0,
                    Some(merged.1),
                    (#[trigger] theirs_changes[k]).path,
                ) == lookup_path(s, Some(theirs), theirs_changes[k].path)
            &&& forall|q: Seq<Seq<u8>>|
                clear_of_changes(theirs_changes, q) ==> #[trigger] lookup_path(merged.0, Some(merged.1), q)
                    == lookup_path(s, Some(ours), q)
        }),
{
    let merged = merge_trees(s, base, ours, theirs).unwrap();
    let found = tree_changes(s, base, Some(theirs), Seq::empty());
    law_tree_changes(s, base, Some(theirs));
    law_apply_changes(s, Some(ours), found);
    let done = apply_changes(s, Some(ours), found).unwrap();
    if done.1 is None {
        let empty = ObjectView::Tree(Seq::empty());
        crate::store::lemma_put(done.0, empty);
        lemma_extends_transitive(merged.0, done.0, s);
        assert forall|q: Seq<Seq<u8>>| #[trigger] lookup_path(merged.0, Some(merged.1), q) == lookup_path(
            done.0,
            None,
            q,
        ) by {
            lemma_lookup_nowhere(done.0, q);
            assert(entries_at(merged.0, Some(merged.1)) =~= Seq::<EntryView>::empty());
        }
        assert forall|k: int| 0 <= k < found.len() implies lookup_path(
            merged.0,
            Some(merged.1),
            (#[trigger] found[k]).path,
        ) == lookup_path(s, Some(theirs), found[k].path) by {
            assert(lookup_path(merged.0, Some(merged.1), found[k].path) == lookup_path(done.0, None, found[k].path));
        }
    }
}

} // verus!

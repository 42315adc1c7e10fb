//! Reading and editing a tree at a path of several segments.
//!
//! An edit rebuilds the trees along the path from the bottom up: every
//! directory above the edited entry gets a new id, every subtree beside the
//! path is reused as it is, and a directory that loses its last entry is
//! removed from its parent. A missing tree counts as an empty one.

use vstd::prelude::*;
use crate::error::Error;
use crate::object::lookup_slot;
use crate::object::{
    EntryKind,
    EntryView,
    Object,
    ObjectKind,
    ObjectView,
    TreeEntry,
    copy_entries,
    entries_view,
    lemma_lower_bound,
    lemma_with_slot,
    lookup,
    lower_bound,
    set_entry,
    slot_of,
    valid_name,
    valid_tree,
    with_slot,
};
use crate::object_id::ObjectId;
use crate::store::{
    ObjectStore,
    Objects,
    extends,
    has_kind,
    lemma_extends_has,
    lemma_extends_transitive,
    lemma_put,
    lemma_refs_below,
    object_of,
    present,
    put,
    refs_ok,
    slot,
    tree_of,
    wf,
};

verus! {

/// The segments of a path as they stand between its slashes.
pub open spec fn split_acc(b: Seq<u8>, i: int, done: Seq<Seq<u8>>, cur: Seq<u8>) -> Seq<Seq<u8>>
    decreases b.len() - i,
{
    if i < 0 || i >= b.len() {
        done.push(cur)
    } else if b[i] == 47 {
        split_acc(b, i + 1, done.push(cur), Seq::empty())
    } else {
        split_acc(b, i + 1, done, cur.push(b[i]))
    }
}

/// The segments of a slash-separated path.
pub open spec fn split_path(b: Seq<u8>) -> Seq<Seq<u8>> {
    split_acc(b, 0, Seq::empty(), Seq::empty())
}

/// A path whose every segment can be the name of a tree entry.
pub open spec fn valid_path(path: Seq<Seq<u8>>) -> bool {
    path.len() > 0 && forall|i: int| 0 <= i < path.len() ==> valid_name(#[trigger] path[i])
}

/// The views of the segments of a path.
pub open spec fn path_view(v: Seq<Vec<u8>>) -> Seq<Seq<u8>> {
    Seq::new(v.len(), |i: int| v[i]@)
}

/// Splits a slash-separated path into its segments.
pub fn split_segments(path: &Vec<u8>) -> (r: Vec<Vec<u8>>)
    ensures
        path_view(r@) == split_path(path@),
{
    let mut done: Vec<Vec<u8>> = Vec::new();
    let mut cur: Vec<u8> = Vec::new();
    let mut i: usize = 0;
    proof {
        assert(path_view(done@) =~= Seq::<Seq<u8>>::empty());
    }
    while i < path.len()
        invariant
            i <= path.len(),
            split_acc(path@, i as int, path_view(done@), cur@) == split_path(path@),
        decreases path.len() - i,
    {
        let ghost d = path_view(done@);
        if path[i] == 47 {
            done.push(cur);
            proof {
                assert(path_view(done@) =~= d.push(cur@));
            }
            cur = Vec::new();
        } else {
            cur.push(path[i]);
        }
        i += 1;
    }
    let ghost d = path_view(done@);
    done.push(cur);
    proof {
        assert(path_view(done@) =~= d.push(cur@));
    }
    done
}

/// Whether every segment of a path can be the name of a tree entry.
pub fn path_is_valid(path: &Vec<Vec<u8>>) -> (r: bool)
    ensures
        r == valid_path(path_view(path@)),
{
    if path.len() == 0 {
        return false;
    }
    let mut i: usize = 0;
    while i < path.len()
        invariant
            i <= path.len(),
            forall|k: int| 0 <= k < i ==> valid_name(#[trigger] path_view(path@)[k]),
        decreases path.len() - i,
    {
        proof {
            assert(path_view(path@)[i as int] == path@[i as int]@);
        }
        if !crate::object::name_is_valid(&path[i]) {
            return false;
        }
        i += 1;
    }
    true
}

/// The tree that an entry names, if it names one.
pub open spec fn subtree(e: Option<(EntryKind, ObjectId)>) -> Option<ObjectId> {
    match e {
        Some(v) => if v.0 == EntryKind::Tree {
            Some(v.1)
        } else {
            None
        },
        None => None,
    }
}

/// The entries of the tree at `root`; none where there is no such tree.
pub open spec fn entries_at(s: Objects, root: Option<ObjectId>) -> Seq<EntryView> {
    match root {
        Some(r) => if has_kind(s, r, ObjectKind::Tree) {
            tree_of(s, r)
        } else {
            Seq::empty()
        },
        None => Seq::empty(),
    }
}

/// What stands at `path` below `root`: the mode and id of the entry that
/// the path leads to, or `None` if it leads nowhere.
pub open spec fn lookup_path(s: Objects, root: Option<ObjectId>, path: Seq<Seq<u8>>) -> Option<(EntryKind, ObjectId)>
    decreases path.len(),
{
    if path.len() == 0 {
        None
    } else {
        let e = slot_of(lookup(entries_at(s, root), path[0]));
        if path.len() == 1 {
            e
        } else {
            match subtree(e) {
                Some(id) => lookup_path(s, Some(id), path.drop_first()),
                None => None,
            }
        }
    }
}

/// Storing a list of entries as a tree. A tree without entries is not
/// stored; `None` stands for it.
pub open spec fn store_tree(s: Objects, entries: Seq<EntryView>) -> Result<(Objects, Option<ObjectId>), Error> {
    if entries.len() == 0 {
        Ok((s, None))
    } else {
        match put(s, ObjectView::Tree(entries)) {
            Err(e) => Err(e),
            Ok(done) => Ok((done.0, Some(done.1))),
        }
    }
}

/// An entry that names the tree `id`, or none for no tree.
pub open spec fn tree_slot(id: Option<ObjectId>) -> Option<(EntryKind, ObjectId)> {
    match id {
        Some(id) => Some((EntryKind::Tree, id)),
        None => None,
    }
}

/// Setting what stands at `path` below `root` to `value`: the store after
/// it and the new root. Directories on the way are made as needed, and an
/// entry that is in the way of a directory gives way to it. Removing below
/// something that is not a directory changes nothing.
pub open spec fn set_path(
    s: Objects,
    root: Option<ObjectId>,
    path: Seq<Seq<u8>>,
    value: Option<(EntryKind, ObjectId)>,
) -> Result<(Objects, Option<ObjectId>), Error>
    decreases path.len(),
{
    if path.len() == 0 {
        Ok((s, root))
    } else {
        let entries = entries_at(s, root);
        if path.len() == 1 {
            store_tree(s, with_slot(entries, path[0], value))
        } else {
            let child = subtree(slot_of(lookup(entries, path[0])));
            if value is None && child is None {
                Ok((s, root))
            } else {
                match set_path(s, child, path.drop_first(), value) {
                    Err(e) => Err(e),
                    Ok(below) => store_tree(below.0, with_slot(entries, path[0], tree_slot(below.1))),
                }
            }
        }
    }
}

/// Whether `root` is no tree at all or an object of the store.
pub open spec fn resolves(s: Objects, root: Option<ObjectId>) -> bool {
    root is None || present(s, root.unwrap())
}

/// Two paths part ways: at some segment that both have, they differ.
pub open spec fn diverge(p: Seq<Seq<u8>>, q: Seq<Seq<u8>>) -> bool
    decreases p.len(),
{
    p.len() > 0 && q.len() > 0 && (p[0] != q[0] || diverge(p.drop_first(), q.drop_first()))
}

/// The entries of a tree of a well-formed store are a valid tree.
pub proof fn lemma_entries_at_valid(s: Objects, root: Option<ObjectId>)
    requires
        wf(s),
    ensures
        valid_tree(entries_at(s, root)),
{
    if root is Some && has_kind(s, root.unwrap(), ObjectKind::Tree) {
        let i = slot(s, root.unwrap());
        assert(s[i].1 == object_of(s, root.unwrap()));
    }
}

/// What a tree entry of a well-formed store names is in the store.
pub proof fn lemma_child_resolves(s: Objects, root: Option<ObjectId>, name: Seq<u8>)
    requires
        wf(s),
    ensures
        resolves(s, subtree(slot_of(lookup(entries_at(s, root), name)))),
{
    let entries = entries_at(s, root);
    if lookup(entries, name) is Some {
        let r = root.unwrap();
        let p = lower_bound(entries, name);
        lemma_lower_bound(entries, name);
        lemma_refs_below(s, r);
        reveal(refs_ok);
        assert(has_kind(s, entries[p].id, crate::object::target_kind(entries[p].kind)));
    }
}

/// A path leads to the same place in a store and in one that extends it.
pub proof fn lemma_lookup_path_extends(a: Objects, b: Objects, root: Option<ObjectId>, q: Seq<Seq<u8>>)
    requires
        wf(a),
        wf(b),
        extends(a, b),
        resolves(b, root),
    ensures
        lookup_path(a, root, q) == lookup_path(b, root, q),
        entries_at(a, root) == entries_at(b, root),
    decreases q.len(),
{
    if root is Some {
        lemma_extends_has(a, b, root.unwrap());
    }
    if q.len() > 1 {
        let e = slot_of(lookup(entries_at(b, root), q[0]));
        lemma_child_resolves(b, root, q[0]);
        if subtree(e) is Some {
            lemma_lookup_path_extends(a, b, subtree(e), q.drop_first());
        }
    }
}

proof fn lemma_store_tree(s: Objects, entries: Seq<EntryView>)
    requires
        wf(s),
        store_tree(s, entries) is Ok,
    ensures
        wf(store_tree(s, entries).unwrap().0),
        extends(store_tree(s, entries).unwrap().0, s),
        resolves(store_tree(s, entries).unwrap().0, store_tree(s, entries).unwrap().1),
        entries_at(store_tree(s, entries).unwrap().0, store_tree(s, entries).unwrap().1) == entries,
{
    if entries.len() == 0 {
        assert(s.take(s.len() as int) =~= s);
        assert(entries =~= Seq::<EntryView>::empty());
    } else {
        lemma_put(s, ObjectView::Tree(entries));
    }
}

/// What an edit at a path does: the store stays well formed and only
/// grows; the path then leads to the value that was set; and every path
/// that parts ways with it leads where it led before.
pub proof fn lemma_set_path(s: Objects, root: Option<ObjectId>, path: Seq<Seq<u8>>, value: Option<(EntryKind, ObjectId)>)
    requires
        wf(s),
        resolves(s, root),
        set_path(s, root, path, value) is Ok,
    ensures
        wf(set_path(s, root, path, value).unwrap().0),
        extends(set_path(s, root, path, value).unwrap().0, s),
        resolves(set_path(s, root, path, value).unwrap().0, set_path(s, root, path, value).unwrap().1),
        path.len() > 0 ==> lookup_path(
            set_path(s, root, path, value).unwrap().0,
            set_path(s, root, path, value).unwrap().1,
            path,
        ) == value,
        forall|q: Seq<Seq<u8>>|
            diverge(path, q) ==> #[trigger] lookup_path(
                set_path(s, root, path, value).unwrap().0,
                set_path(s, root, path, value).unwrap().1,
                q,
            ) == lookup_path(s, root, q),
    decreases path.len(),
{
    let done = set_path(s, root, path, value).unwrap();
    let entries = entries_at(s, root);
    lemma_entries_at_valid(s, root);
    if path.len() == 0 {
        assert(s.take(s.len() as int) =~= s);
    } else if path.len() == 1 {
        let next = with_slot(entries, path[0], value);
        lemma_with_slot(entries, path[0], value);
        lemma_store_tree(s, next);
        assert forall|q: Seq<Seq<u8>>| diverge(path, q) implies #[trigger] lookup_path(done.0, done.1, q)
            == lookup_path(s, root, q) by {
            assert(!diverge(path.drop_first(), q.drop_first()));
            assert(q[0] != path[0]);
            assert(lookup(next, q[0]) == lookup(entries, q[0]));
            if q.len() > 1 {
                let child = subtree(slot_of(lookup(entries, q[0])));
                lemma_child_resolves(s, root, q[0]);
                if child is Some {
                    lemma_lookup_path_extends(done.0, s, child, q.drop_first());
                }
            }
        }
    } else {
        let child = subtree(slot_of(lookup(entries, path[0])));
        if value is None && child is None {
            assert(s.take(s.len() as int) =~= s);
        } else {
            lemma_child_resolves(s, root, path[0]);
            let rest = path.drop_first();
            let below = set_path(s, child, rest, value).unwrap();
            lemma_set_path(s, child, rest, value);
            let next = with_slot(entries, path[0], tree_slot(below.1));
            lemma_with_slot(entries, path[0], tree_slot(below.1));
            lemma_store_tree(below.0, next);
            lemma_extends_transitive(done.0, below.0, s);
            // the path itself
            assert(slot_of(lookup(next, path[0])) == tree_slot(below.1));
            if below.1 is Some {
                lemma_lookup_path_extends(done.0, below.0, below.1, rest);
            } else {
                assert(lookup_path(below.0, below.1, rest) == None::<(EntryKind, ObjectId)>);
            }
            // paths that part ways
            assert forall|q: Seq<Seq<u8>>| diverge(path, q) implies #[trigger] lookup_path(done.0, done.1, q)
                == lookup_path(s, root, q) by {
                if q[0] != path[0] {
                    assert(lookup(next, q[0]) == lookup(entries, q[0]));
                    if q.len() > 1 {
                        let other = subtree(slot_of(lookup(entries, q[0])));
                        lemma_child_resolves(s, root, q[0]);
                        if other is Some {
                            lemma_lookup_path_extends(done.0, s, other, q.drop_first());
                        }
                    }
                } else {
                    let qr = q.drop_first();
                    assert(diverge(rest, qr));
                    assert(qr.len() > 0);
                    assert(lookup_path(below.0, below.1, qr) == lookup_path(s, child, qr));
                    if below.1 is Some {
                        lemma_lookup_path_extends(done.0, below.0, below.1, qr);
                    }
                    if child is None {
                        assert(lookup_path(s, child, qr) == None::<(EntryKind, ObjectId)>);
                    }
                    if below.1 is None {
                        assert(lookup_path(below.0, below.1, qr) == None::<(EntryKind, ObjectId)>);
                    }
                }
            }
        }
    }
}

fn entries_of(store: &ObjectStore, root: Option<ObjectId>) -> (r: Vec<TreeEntry>)
    requires
        wf(store@),
    ensures
        entries_view(r@) == entries_at(store@, root),
{
    let empty: Vec<TreeEntry> = Vec::new();
    proof {
        assert(entries_view(empty@) =~= Seq::<EntryView>::empty());
    }
    match root {
        Some(r) => match store.tree(&r) {
            Some(entries) => copy_entries(entries),
            None => empty,
        },
        None => empty,
    }
}

fn subtree_of(e: Option<(EntryKind, ObjectId)>) -> (r: Option<ObjectId>)
    ensures
        r == subtree(e),
{
    match e {
        Some(v) => if v.0 == EntryKind::Tree {
            Some(v.1)
        } else {
            None
        },
        None => None,
    }
}

/// What stands at the segments of `path` from `depth` on, below `root`.
pub fn entry_at_path(store: &ObjectStore, root: Option<ObjectId>, path: &Vec<Vec<u8>>, depth: usize) -> (r: Option<
    (EntryKind, ObjectId),
>)
    requires
        wf(store@),
        depth <= path.len(),
    ensures
        r == lookup_path(store@, root, path_view(path@).skip(depth as int)),
    decreases path.len() - depth,
{
    let ghost rest = path_view(path@).skip(depth as int);
    if depth == path.len() {
        return None;
    }
    proof {
        assert(rest[0] == path@[depth as int]@);
        assert(rest.drop_first() =~= path_view(path@).skip(depth as int + 1));
    }
    let entries = entries_of(store, root);
    let e = lookup_slot(&entries, &path[depth]);
    if depth + 1 == path.len() {
        e
    } else {
        match subtree_of(e) {
            Some(id) => entry_at_path(store, Some(id), path, depth + 1),
            None => None,
        }
    }
}

fn write_tree(store: &mut ObjectStore, entries: Vec<TreeEntry>) -> (r: Result<Option<ObjectId>, Error>)
    requires
        wf(old(store)@),
    ensures
        wf(final(store)@),
        extends(final(store)@, old(store)@),
        match store_tree(old(store)@, entries_view(entries@)) {
            Ok(done) => r == Ok::<Option<ObjectId>, Error>(done.1) && final(store)@ == done.0,
            Err(e) => r == Err::<Option<ObjectId>, Error>(e) && final(store)@ == old(store)@,
        },
{
    if entries.len() == 0 {
        proof {
            assert(store@.take(store@.len() as int) =~= store@);
        }
        Ok(None)
    } else {
        match store.put(Object::Tree(entries)) {
            Err(e) => Err(e),
            Ok(id) => Ok(Some(id)),
        }
    }
}

/// Sets what stands at the segments of `path` from `depth` on, below
/// `root`, and returns the new root; see [`set_path`]. A failure leaves in
/// the store what was written before it.
pub fn write_path(
    store: &mut ObjectStore,
    root: Option<ObjectId>,
    path: &Vec<Vec<u8>>,
    depth: usize,
    value: Option<(EntryKind, ObjectId)>,
) -> (r: Result<Option<ObjectId>, Error>)
    requires
        wf(old(store)@),
        depth <= path.len(),
    ensures
        wf(final(store)@),
        extends(final(store)@, old(store)@),
        match set_path(old(store)@, root, path_view(path@).skip(depth as int), value) {
            Ok(done) => r == Ok::<Option<ObjectId>, Error>(done.1) && final(store)@ == done.0,
            Err(e) => r == Err::<Option<ObjectId>, Error>(e),
        },
    decreases path.len() - depth,
{
    let ghost s = store@;
    let ghost rest = path_view(path@).skip(depth as int);
    proof {
        assert(s.take(s.len() as int) =~= s);
    }
    if depth == path.len() {
        return Ok(root);
    }
    proof {
        assert(rest[0] == path@[depth as int]@);
        assert(rest.drop_first() =~= path_view(path@).skip(depth as int + 1));
    }
    let mut entries = entries_of(store, root);
    if depth + 1 == path.len() {
        set_entry(&mut entries, &path[depth], value);
        return write_tree(store, entries);
    }
    let child = subtree_of(lookup_slot(&entries, &path[depth]));
    if value.is_none() && child.is_none() {
        return Ok(root);
    }
    match write_path(store, child, path, depth + 1, value) {
        Err(e) => Err(e),
        Ok(below) => {
            let ghost mid = store@;
            let slot = match below {
                Some(id) => Some((EntryKind::Tree, id)),
                None => None,
            };
            set_entry(&mut entries, &path[depth], slot);
            let r = write_tree(store, entries);
            proof {
                lemma_extends_transitive(store@, mid, s);
            }
            r
        },
    }
}

} // verus!

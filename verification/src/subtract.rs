//! Taking changes back out of a tree.
//!
//! The changes are those between a `before` and an `after` tree. Each
//! request names a path and, optionally, hunks of the change at that path.
//! Without hunks the whole change at the path is taken out: the path goes
//! back to what it was before. With hunks only those are taken out of the
//! file's content. A request that cannot be met is reported and leaves the
//! tree as it is.

use vstd::prelude::*;
use crate::bytes::copy_bytes;
use crate::error::Error;
use crate::object::{EntryKind, EntryView, Object, ObjectKind, ObjectView, same_slot};
use crate::object_id::ObjectId;
use crate::patch::{HunkHeader, revert_content, revert_text};
use crate::rebase::first_parent_tree;
use crate::store::{
    ObjectStore, Objects, blob_of, commit_of, extends, has_kind, lemma_commit_refs,
    lemma_extends_transitive, put, wf,
};
use crate::tree_path::{
    entry_at_path, lookup_path, path_is_valid, path_view, set_path, split_path, split_segments, valid_path,
    write_path,
};

verus! {

/// A request to take a change out: the slash-separated path of the change
/// and the hunks to take out, or no hunks for the whole change.
#[derive(Clone, Debug, PartialEq, Eq)]
pub struct DiffSpec {
    pub path: Vec<u8>,
    pub hunk_headers: Vec<HunkHeader>,
}

/// The view of a [`DiffSpec`].
pub struct DiffSpecView {
    pub path: Seq<u8>,
    pub hunk_headers: Seq<HunkHeader>,
}

impl View for DiffSpec {
    type V = DiffSpecView;

    open spec fn view(&self) -> DiffSpecView {
        DiffSpecView { path: self.path@, hunk_headers: self.hunk_headers@ }
    }
}

/// The views of a list of requests, in order.
pub open spec fn specs_view(v: Seq<DiffSpec>) -> Seq<DiffSpecView> {
    Seq::new(v.len(), |i: int| v[i]@)
}

/// Which changes are meant: those that a commit made to the tree of its
/// first parent, or those between two trees.
#[derive(Clone, Copy, Debug, PartialEq, Eq)]
pub enum ChangesSource {
    Commit { id: ObjectId },
    Tree { after_id: ObjectId, before_id: ObjectId },
}

/// The tree before the changes, if there is one, and the tree after them.
pub open spec fn before_and_after(s: Objects, source: ChangesSource) -> Result<(Option<ObjectId>, ObjectId), Error> {
    match source {
        ChangesSource::Commit { id } => if !has_kind(s, id, ObjectKind::Commit) {
            Err(Error::NotFound)
        } else {
            Ok((first_parent_tree(s, commit_of(s, id)), commit_of(s, id).tree))
        },
        ChangesSource::Tree { after_id, before_id } => if !has_kind(s, after_id, ObjectKind::Tree) || !has_kind(
            s,
            before_id,
            ObjectKind::Tree,
        ) {
            Err(Error::NotFound)
        } else {
            Ok((Some(before_id), after_id))
        },
    }
}

/// The content of the file `now` after the hunks of the change from the
/// file `was` to the file `is` were taken out of it. `None` unless all three
/// are files of the store and every hunk can be taken out.
pub open spec fn reverted_blob(
    s: Objects,
    was: Option<(EntryKind, ObjectId)>,
    is: Option<(EntryKind, ObjectId)>,
    now: Option<(EntryKind, ObjectId)>,
    hunks: Seq<HunkHeader>,
    tolerance: int,
) -> Option<Seq<u8>> {
    if was is Some && is is Some && now is Some && was.unwrap().0 != EntryKind::Tree && is.unwrap().0
        != EntryKind::Tree && now.unwrap().0 != EntryKind::Tree && has_kind(s, was.unwrap().1, ObjectKind::Blob)
        && has_kind(s, is.unwrap().1, ObjectKind::Blob) && has_kind(s, now.unwrap().1, ObjectKind::Blob) {
        revert_text(
            blob_of(s, was.unwrap().1),
            blob_of(s, is.unwrap().1),
            blob_of(s, now.unwrap().1),
            hunks,
            tolerance,
        )
    } else {
        None
    }
}

/// Whether there is a change at a path: the path is well formed, and the
/// trees before and after differ at it.
pub open spec fn changed(s: Objects, before: Option<ObjectId>, after: ObjectId, path: Seq<Seq<u8>>) -> bool {
    valid_path(path) && lookup_path(s, before, path) != lookup_path(s, Some(after), path)
}

/// Whether the whole change at a path can be taken out: there is a change,
/// and the tree being edited still has at the path what the change put.
pub open spec fn applies(
    s: Objects,
    before: Option<ObjectId>,
    after: ObjectId,
    current: Option<ObjectId>,
    path: Seq<Seq<u8>>,
) -> bool {
    changed(s, before, after, path) && lookup_path(s, current, path) == lookup_path(s, Some(after), path)
}

/// Meeting one request on the tree `current`: the store and the tree after
/// it, and whether the request was met. A request that is not met changes
/// nothing.
///
/// A request without hunks is met if the whole change applies: the path
/// then gets back what it had before. A request with hunks is met if there
/// is a change at its path and the hunks can be taken out of the file that
/// the tree has there now, which then gets the content without them.
#[verifier::opaque]
pub open spec fn subtract_one(
    s: Objects,
    before: Option<ObjectId>,
    after: ObjectId,
    current: Option<ObjectId>,
    spec: DiffSpecView,
    tolerance: int,
) -> Result<(Objects, Option<ObjectId>, bool), Error> {
    let path = split_path(spec.path);
    let was = lookup_path(s, before, path);
    let is = lookup_path(s, Some(after), path);
    let now = lookup_path(s, current, path);
    if !changed(s, before, after, path) {
        Ok((s, current, false))
    } else if spec.hunk_headers.len() == 0 {
        if now != is {
            Ok((s, current, false))
        } else {
            match set_path(s, current, path, was) {
                Err(e) => Err(e),
                Ok(done) => Ok((done.0, done.1, true)),
            }
        }
    } else {
        match reverted_blob(s, was, is, now, spec.hunk_headers, tolerance) {
            None => Ok((s, current, false)),
            Some(content) => match put(s, ObjectView::Blob(content)) {
                Err(e) => Err(e),
                Ok(blob) => match set_path(blob.0, current, path, Some((now.unwrap().0, blob.1))) {
                    Err(e) => Err(e),
                    Ok(done) => Ok((done.0, done.1, true)),
                },
            },
        }
    }
}

/// Meeting the requests one after another: the store and the tree after
/// them, and the requests that were not met, in order.
pub open spec fn subtract_all(
    s: Objects,
    before: Option<ObjectId>,
    after: ObjectId,
    current: Option<ObjectId>,
    specs: Seq<DiffSpecView>,
    tolerance: int,
) -> Result<(Objects, Option<ObjectId>, Seq<DiffSpecView>), Error>
    decreases specs.len(),
{
    if specs.len() == 0 {
        Ok((s, current, Seq::empty()))
    } else {
        match subtract_one(s, before, after, current, specs[0], tolerance) {
            Err(e) => Err(e),
            Ok(one) => match subtract_all(one.0, before, after, one.1, specs.drop_first(), tolerance) {
                Err(e) => Err(e),
                Ok(rest) => Ok(
                    (
                        rest.0,
                        rest.1,
                        if one.2 {
                            rest.2
                        } else {
                            seq![specs[0]] + rest.2
                        },
                    ),
                ),
            },
        }
    }
}

/// The tree `tree` without the requested changes of `source`, with the
/// requests that were rejected. The result is always a stored tree, the
/// empty tree if nothing is left.
pub open spec fn subtract_from(
    s: Objects,
    tree: ObjectId,
    source: ChangesSource,
    specs: Seq<DiffSpecView>,
    tolerance: int,
) -> Result<(Objects, ObjectId, Seq<DiffSpecView>), Error> {
    match before_and_after(s, source) {
        Err(e) => Err(e),
        Ok(trees) => if !has_kind(s, tree, ObjectKind::Tree) {
            Err(Error::NotFound)
        } else {
            match subtract_all(s, trees.0, trees.1, Some(tree), specs, tolerance) {
                Err(e) => Err(e),
                Ok(done) => match done.1 {
                    Some(left) => Ok((done.0, left, done.2)),
                    None => match put(done.0, ObjectView::Tree(Seq::empty())) {
                        Err(e) => Err(e),
                        Ok(empty) => Ok((empty.0, empty.1, done.2)),
                    },
                },
            }
        },
    }
}

/// The tree after the changes of `source` without the requested ones.
pub open spec fn subtract(s: Objects, source: ChangesSource, specs: Seq<DiffSpecView>, tolerance: int) -> Result<
    (Objects, ObjectId, Seq<DiffSpecView>),
    Error,
> {
    match before_and_after(s, source) {
        Err(e) => Err(e),
        Ok(trees) => subtract_from(s, trees.1, source, specs, tolerance),
    }
}

/// A copy of a request.
pub fn copy_spec(spec: &DiffSpec) -> (r: DiffSpec)
    ensures
        r@ == spec@,
{
    let mut hunks: Vec<HunkHeader> = Vec::new();
    let mut i: usize = 0;
    while i < spec.hunk_headers.len()
        invariant
            i <= spec.hunk_headers.len(),
            hunks@ == spec.hunk_headers@.take(i as int),
        decreases spec.hunk_headers.len() - i,
    {
        hunks.push(spec.hunk_headers[i]);
        proof {
            assert(hunks@ =~= spec.hunk_headers@.take(i as int + 1));
        }
        i += 1;
    }
    proof {
        assert(spec.hunk_headers@.take(spec.hunk_headers@.len() as int) =~= spec.hunk_headers@);
    }
    DiffSpec { path: copy_bytes(&spec.path), hunk_headers: hunks }
}

/// The trees between which the changes of `source` lie.
pub fn source_trees(store: &ObjectStore, source: ChangesSource) -> (r: Result<(Option<ObjectId>, ObjectId), Error>)
    requires
        wf(store@),
    ensures
        r == before_and_after(store@, source),
{
    match source {
        ChangesSource::Commit { id } => match store.commit(&id) {
            None => Err(Error::NotFound),
            Some(c) => {
                let before = if c.parents.len() > 0 {
                    proof {
                        lemma_commit_refs(store@, id);
                        assert(has_kind(store@, c@.parents[0], ObjectKind::Commit));
                    }
                    match store.commit(&c.parents[0]) {
                        Some(p) => Some(p.tree),
                        None => None,
                    }
                } else {
                    None
                };
                Ok((before, c.tree))
            },
        },
        ChangesSource::Tree { after_id, before_id } => {
            if !store.holds(&after_id, ObjectKind::Tree) || !store.holds(&before_id, ObjectKind::Tree) {
                Err(Error::NotFound)
            } else {
                Ok((Some(before_id), after_id))
            }
        },
    }
}

fn reverted_content(
    store: &ObjectStore,
    was: Option<(EntryKind, ObjectId)>,
    is: Option<(EntryKind, ObjectId)>,
    now: Option<(EntryKind, ObjectId)>,
    hunks: &Vec<HunkHeader>,
    tolerance: u32,
) -> (r: Option<Vec<u8>>)
    requires
        wf(store@),
    ensures
        match reverted_blob(store@, was, is, now, hunks@, tolerance as int) {
            Some(content) => r is Some && r.unwrap()@ == content,
            None => r is None,
        },
{
    match (was, is, now) {
        (Some(w), Some(n), Some(c)) => {
            if w.0 == EntryKind::Tree || n.0 == EntryKind::Tree || c.0 == EntryKind::Tree {
                return None;
            }
            match (store.blob(&w.1), store.blob(&n.1), store.blob(&c.1)) {
                (Some(old), Some(new), Some(current)) => revert_content(old, new, current, hunks, tolerance),
                _ => None,
            }
        },
        _ => None,
    }
}

/// Meets one request on the tree `current`; see [`subtract_one`]. A failure
/// leaves in the store what was written before it.
pub fn remove_change(
    store: &mut ObjectStore,
    before: Option<ObjectId>,
    after: ObjectId,
    current: Option<ObjectId>,
    change: &DiffSpec,
    context_lines: u32,
) -> (r: Result<(Option<ObjectId>, bool), Error>)
    requires
        wf(old(store)@),
    ensures
        wf(final(store)@),
        extends(final(store)@, old(store)@),
        match subtract_one(old(store)@, before, after, current, change@, context_lines as int) {
            Ok(done) => r == Ok::<(Option<ObjectId>, bool), Error>((done.1, done.2)) && final(store)@ == done.0,
            Err(e) => r == Err::<(Option<ObjectId>, bool), Error>(e),
        },
{
    let ghost s = store@;
    proof {
        reveal(subtract_one);
        assert(s.take(s.len() as int) =~= s);
    }
    let path = split_segments(&change.path);
    proof {
        assert(path_view(path@).skip(0) =~= path_view(path@));
    }
    if !path_is_valid(&path) {
        return Ok((current, false));
    }
    let was = entry_at_path(store, before, &path, 0);
    let is = entry_at_path(store, Some(after), &path, 0);
    let now = entry_at_path(store, current, &path, 0);
    if same_slot(&was, &is) {
        return Ok((current, false));
    }
    if change.hunk_headers.len() == 0 {
        if !same_slot(&now, &is) {
            return Ok((current, false));
        }
        return match write_path(store, current, &path, 0, was) {
            Err(e) => Err(e),
            Ok(tree) => Ok((tree, true)),
        };
    }
    let content = match reverted_content(store, was, is, now, &change.hunk_headers, context_lines) {
        None => {
            return Ok((current, false));
        },
        Some(content) => content,
    };
    let kind = match now {
        Some(e) => e.0,
        None => EntryKind::Blob,
    };
    let blob = match store.put(Object::Blob(content)) {
        Err(e) => {
            return Err(e);
        },
        Ok(id) => id,
    };
    let ghost mid = store@;
    match write_path(store, current, &path, 0, Some((kind, blob))) {
        Err(e) => {
            proof {
                lemma_extends_transitive(store@, mid, s);
            }
            Err(e)
        },
        Ok(tree) => {
            proof {
                lemma_extends_transitive(store@, mid, s);
            }
            Ok((tree, true))
        },
    }
}

/// Builds the tree after the changes of `source` without the requested
/// ones and returns it with the requests that were rejected; see
/// [`subtract`]. On failure the store is as it was.
pub fn create_tree_without_diff(
    store: &mut ObjectStore,
    source: ChangesSource,
    changes: &Vec<DiffSpec>,
    context_lines: u32,
) -> (r: Result<(ObjectId, Vec<DiffSpec>), Error>)
    requires
        wf(old(store)@),
    ensures
        wf(final(store)@),
        extends(final(store)@, old(store)@),
        match subtract(old(store)@, source, specs_view(changes@), context_lines as int) {
            Ok(done) => r is Ok && r.unwrap().0 == done.1 && specs_view(r.unwrap().1@) == done.2 && final(store)@
                == done.0,
            Err(e) => r is Err && r.unwrap_err() == e && final(store)@ == old(store)@,
        },
{
    proof {
        assert(store@.take(store@.len() as int) =~= store@);
    }
    match source_trees(store, source) {
        Err(e) => Err(e),
        Ok(trees) => subtract_from_tree(store, trees.1, source, changes, context_lines),
    }
}

/// Takes the requested changes of `source` out of the tree `tree`, which
/// need not be the tree that the changes led to: a hunk is looked for in
/// the file it belongs to, up to `context_lines` lines away from where the
/// change put it. Returns the tree that is left with the requests that
/// were rejected; see [`subtract_from`]. On failure the store is as it was.
pub fn subtract_from_tree(
    store: &mut ObjectStore,
    tree: ObjectId,
    source: ChangesSource,
    changes: &Vec<DiffSpec>,
    context_lines: u32,
) -> (r: Result<(ObjectId, Vec<DiffSpec>), Error>)
    requires
        wf(old(store)@),
    ensures
        wf(final(store)@),
        extends(final(store)@, old(store)@),
        match subtract_from(old(store)@, tree, source, specs_view(changes@), context_lines as int) {
            Ok(done) => r is Ok && r.unwrap().0 == done.1 && specs_view(r.unwrap().1@) == done.2 && final(store)@
                == done.0,
            Err(e) => r is Err && r.unwrap_err() == e && final(store)@ == old(store)@,
        },
{
    let ghost s0 = store@;
    let ghost specs = specs_view(changes@);
    let ghost tolerance = context_lines as int;
    let mark = store.len();
    proof {
        assert(s0.take(s0.len() as int) =~= s0);
    }
    let (before, after) = match source_trees(store, source) {
        Err(e) => {
            return Err(e);
        },
        Ok(trees) => trees,
    };
    if !store.holds(&tree, ObjectKind::Tree) {
        return Err(Error::NotFound);
    }
    let mut current: Option<ObjectId> = Some(tree);
    let mut rejected: Vec<DiffSpec> = Vec::new();
    let mut i: usize = 0;
    proof {
        assert(specs.subrange(0, specs.len() as int) =~= specs);
        assert(specs_view(rejected@) =~= Seq::<DiffSpecView>::empty());
    }
    while i < changes.len()
        invariant
            i <= changes.len(),
            specs == specs_view(changes@),
            tolerance == context_lines as int,
            wf(store@),
            wf(s0),
            extends(store@, s0),
            mark == s0.len(),
            s0 == old(store)@,
            before_and_after(s0, source) == Ok::<(Option<ObjectId>, ObjectId), Error>((before, after)),
            has_kind(s0, tree, ObjectKind::Tree),
            subtract_all(s0, before, after, Some(tree), specs, tolerance) == (match subtract_all(
                store@,
                before,
                after,
                current,
                specs.subrange(i as int, specs.len() as int),
                tolerance,
            ) {
                Err(e) => Err::<(Objects, Option<ObjectId>, Seq<DiffSpecView>), Error>(e),
                Ok(rest) => Ok((rest.0, rest.1, specs_view(rejected@) + rest.2)),
            }),
        decreases changes.len() - i,
    {
        let ghost todo = specs.subrange(i as int, specs.len() as int);
        let ghost mid = store@;
        let ghost thrown = specs_view(rejected@);
        proof {
            assert(todo[0] == changes@[i as int]@);
            assert(todo.drop_first() =~= specs.subrange(i as int + 1, specs.len() as int));
        }
        match remove_change(store, before, after, current, &changes[i], context_lines) {
            Err(e) => {
                proof {
                    lemma_extends_transitive(store@, mid, s0);
                }
                store.truncate(mark);
                proof {
                    assert(store@ =~= s0);
                    assert(s0.take(s0.len() as int) =~= s0);
                }
                return Err(e);
            },
            Ok((left, accepted)) => {
                proof {
                    lemma_extends_transitive(store@, mid, s0);
                }
                if !accepted {
                    rejected.push(copy_spec(&changes[i]));
                    proof {
                        assert(specs_view(rejected@) =~= thrown.push(todo[0]));
                        match subtract_all(store@, before, after, left, todo.drop_first(), tolerance) {
                            Ok(rest) => {
                                assert(thrown + (seq![todo[0]] + rest.2) =~= thrown.push(todo[0]) + rest.2);
                            },
                            Err(_) => {},
                        }
                    }
                }
                current = left;
            },
        }
        i += 1;
    }
    proof {
        assert(specs_view(rejected@) + Seq::<DiffSpecView>::empty() =~= specs_view(rejected@));
    }
    match current {
        Some(left) => Ok((left, rejected)),
        None => {
            let ghost mid = store@;
            let empty: Vec<crate::object::TreeEntry> = Vec::new();
            proof {
                assert(crate::object::entries_view(empty@) =~= Seq::<EntryView>::empty());
            }
            match store.put(Object::Tree(empty)) {
                Err(e) => {
                    store.truncate(mark);
                    proof {
                        assert(store@ =~= s0);
                        assert(s0.take(s0.len() as int) =~= s0);
                    }
                    Err(e)
                },
                Ok(left) => {
                    proof {
                        lemma_extends_transitive(store@, mid, s0);
                    }
                    Ok((left, rejected))
                },
            }
        },
    }
}


/// The segments of the path of a request.
pub open spec fn spec_path(spec: DiffSpecView) -> Seq<Seq<u8>> {
    split_path(spec.path)
}

/// Every request asks for the whole of a change that there is: it names no
/// hunks, its path is well formed, and `before` and `after` differ at it.
pub open spec fn whole_changes(s: Objects, before: Option<ObjectId>, after: ObjectId, specs: Seq<DiffSpecView>) -> bool {
    forall|i: int|
        0 <= i < specs.len() ==> {
            let p = spec_path(#[trigger] specs[i]);
            &&& specs[i].hunk_headers.len() == 0
            &&& valid_path(p)
            &&& lookup_path(s, before, p) != lookup_path(s, Some(after), p)
        }
}

/// No two requests overlap: their paths part ways.
pub open spec fn apart(specs: Seq<DiffSpecView>) -> bool {
    forall|i: int, j: int|
        0 <= i < specs.len() && 0 <= j < specs.len() && i != j ==> crate::tree_path::diverge(
            spec_path(#[trigger] specs[i]),
            spec_path(#[trigger] specs[j]),
        )
}

/// The path `q` parts ways with the path of every request.
pub open spec fn clear_of(specs: Seq<DiffSpecView>, q: Seq<Seq<u8>>) -> bool {
    forall|i: int| 0 <= i < specs.len() ==> crate::tree_path::diverge(spec_path(#[trigger] specs[i]), q)
}

/// The tree being edited still has at the path of every request what the
/// change put there.
pub open spec fn untouched(s: Objects, after: ObjectId, current: Option<ObjectId>, specs: Seq<DiffSpecView>) -> bool {
    forall|i: int|
        0 <= i < specs.len() ==> lookup_path(s, current, spec_path(#[trigger] specs[i])) == lookup_path(
            s,
            Some(after),
            spec_path(specs[i]),
        )
}

proof fn lemma_subtract_all(
    s: Objects,
    before: Option<ObjectId>,
    after: ObjectId,
    current: Option<ObjectId>,
    specs: Seq<DiffSpecView>,
    tolerance: int,
)
    requires
        wf(s),
        crate::tree_path::resolves(s, before),
        crate::store::present(s, after),
        crate::tree_path::resolves(s, current),
        whole_changes(s, before, after, specs),
        untouched(s, after, current, specs),
        apart(specs),
        subtract_all(s, before, after, current, specs, tolerance) is Ok,
    ensures
        ({
            let r = subtract_all(s, before, after, current, specs, tolerance).unwrap();
            &&& r.2 == Seq::<DiffSpecView>::empty()
            &&& wf(r.0)
            &&& extends(r.0, s)
            &&& crate::tree_path::resolves(r.0, r.1)
            &&& forall|i: int|
                0 <= i < specs.len() ==> lookup_path(r.0, r.1, spec_path(#[trigger] specs[i])) == lookup_path(
                    s,
                    before,
                    spec_path(specs[i]),
                )
            &&& forall|q: Seq<Seq<u8>>|
                clear_of(specs, q) ==> #[trigger] lookup_path(r.0, r.1, q) == lookup_path(s, current, q)
        }),
    decreases specs.len(),
{
    let r = subtract_all(s, before, after, current, specs, tolerance).unwrap();
    if specs.len() == 0 {
        assert(s.take(s.len() as int) =~= s);
    } else {
        reveal(subtract_one);
        let p0 = spec_path(specs[0]);
        let was = lookup_path(s, before, p0);
        assert(crate::tree_path::valid_path(p0));
        assert(applies(s, before, after, current, p0));
        let done = set_path(s, current, p0, was).unwrap();
        crate::tree_path::lemma_set_path(s, current, p0, was);
        let rest = specs.drop_first();
        if before is Some {
            crate::store::lemma_extends_has(done.0, s, before.unwrap());
        }
        crate::store::lemma_extends_has(done.0, s, after);
        assert forall|j: int| 0 <= j < rest.len() implies {
            let p = spec_path(#[trigger] rest[j]);
            &&& rest[j].hunk_headers.len() == 0
            &&& valid_path(p)
            &&& lookup_path(done.0, before, p) != lookup_path(done.0, Some(after), p)
            &&& lookup_path(done.0, done.1, p) == lookup_path(done.0, Some(after), p)
        } by {
            assert(rest[j] == specs[j + 1]);
            let p = spec_path(specs[j + 1]);
            crate::tree_path::lemma_lookup_path_extends(done.0, s, before, p);
            crate::tree_path::lemma_lookup_path_extends(done.0, s, Some(after), p);
            assert(crate::tree_path::diverge(spec_path(specs[0]), spec_path(specs[j + 1])));
            assert(lookup_path(done.0, done.1, p) == lookup_path(s, current, p));
        }
        assert(apart(rest)) by {
            assert forall|i: int, j: int| 0 <= i < rest.len() && 0 <= j < rest.len() && i != j implies crate::tree_path::diverge(
                spec_path(#[trigger] rest[i]),
                spec_path(#[trigger] rest[j]),
            ) by {
                assert(rest[i] == specs[i + 1] && rest[j] == specs[j + 1]);
            }
        }
        lemma_subtract_all(done.0, before, after, done.1, rest, tolerance);
        let rr = subtract_all(done.0, before, after, done.1, rest, tolerance).unwrap();
        assert(r.0 == rr.0 && r.1 == rr.1 && r.2 == rr.2);
        crate::store::lemma_extends_transitive(r.0, done.0, s);
        assert(clear_of(rest, p0)) by {
            assert forall|j: int| 0 <= j < rest.len() implies crate::tree_path::diverge(
                spec_path(#[trigger] rest[j]),
                p0,
            ) by {
                assert(rest[j] == specs[j + 1]);
                assert(crate::tree_path::diverge(spec_path(specs[j + 1]), spec_path(specs[0])));
            }
        }
        assert forall|i: int| 0 <= i < specs.len() implies lookup_path(r.0, r.1, spec_path(#[trigger] specs[i]))
            == lookup_path(s, before, spec_path(specs[i])) by {
            if i == 0 {
                assert(lookup_path(r.0, r.1, p0) == lookup_path(done.0, done.1, p0));
            } else {
                assert(rest[i - 1] == specs[i]);
                crate::tree_path::lemma_lookup_path_extends(done.0, s, before, spec_path(specs[i]));
                assert(lookup_path(rr.0, rr.1, spec_path(rest[i - 1])) == lookup_path(
                    done.0,
                    before,
                    spec_path(rest[i - 1]),
                ));
            }
        }
        assert forall|q: Seq<Seq<u8>>| clear_of(specs, q) implies #[trigger] lookup_path(r.0, r.1, q)
            == lookup_path(s, current, q) by {
            assert(crate::tree_path::diverge(spec_path(specs[0]), q));
            assert(clear_of(rest, q)) by {
                assert forall|j: int| 0 <= j < rest.len() implies crate::tree_path::diverge(
                    spec_path(#[trigger] rest[j]),
                    q,
                ) by {
                    assert(rest[j] == specs[j + 1]);
                }
            }
            assert(lookup_path(rr.0, rr.1, q) == lookup_path(done.0, done.1, q));
            assert(lookup_path(done.0, done.1, q) == lookup_path(s, current, q));
        }
    }
}

/// Taking changes out round-trips: where every request asks for the whole
/// of a change that there is and no two requests overlap, none is rejected,
/// the tree that comes out has at the path of every request what stood
/// there before the change, so that nothing of the requested changes is
/// left in it, and every path that parts ways with all of them is as the
/// change left it.
pub proof fn law_subtract_round_trip(
    s: Objects,
    before: Option<ObjectId>,
    after: ObjectId,
    specs: Seq<DiffSpecView>,
    tolerance: int,
)
    requires
        wf(s),
        crate::tree_path::resolves(s, before),
        crate::store::present(s, after),
        whole_changes(s, before, after, specs),
        apart(specs),
        subtract_all(s, before, after, Some(after), specs, tolerance) is Ok,
    ensures
        ({
            let r = subtract_all(s, before, after, Some(after), specs, tolerance).unwrap();
            &&& r.2 == Seq::<DiffSpecView>::empty()
            &&& forall|i: int|
                0 <= i < specs.len() ==> lookup_path(r.0, r.1, spec_path(#[trigger] specs[i])) == lookup_path(
                    s,
                    before,
                    spec_path(specs[i]),
                )
            &&& forall|q: Seq<Seq<u8>>|
                clear_of(specs, q) ==> #[trigger] lookup_path(r.0, r.1, q) == lookup_path(s, Some(after), q)
        }),
{
    lemma_subtract_all(s, before, after, Some(after), specs, tolerance);
}

} // verus!

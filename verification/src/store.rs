//! The content-addressed object store.
//!
//! The store is an arena: objects are appended, never changed, and found by
//! their id. An object can only be added after everything it refers to, so
//! the graph is acyclic by construction and every reference resolves.

use vstd::prelude::*;
use crate::digest::{digest_object, object_digest};
use crate::encode::{encode, encode_object};
use crate::error::Error;
use crate::object::{
    Commit, CommitView, EntryView, Object, ObjectKind, ObjectView, TreeEntry, entry_target, kind_of,
    object_is_valid, object_kind, same_object, target_kind, valid_object,
};
use crate::object_id::ObjectId;

verus! {

/// The model of a store: its objects with their ids, in the order in which
/// they were added.
pub type Objects = Seq<(ObjectId, ObjectView)>;

/// Whether the store holds an object under `id`.
pub open spec fn present(s: Objects, id: ObjectId) -> bool {
    exists|i: int| 0 <= i < s.len() && (#[trigger] s[i]).0 == id
}

/// The position of the object with the given id.
pub open spec fn slot(s: Objects, id: ObjectId) -> int {
    choose|i: int| 0 <= i < s.len() && (#[trigger] s[i]).0 == id
}

/// The object stored under `id`.
pub open spec fn object_of(s: Objects, id: ObjectId) -> ObjectView {
    s[slot(s, id)].1
}

/// Whether the store holds an object of the given kind under `id`.
pub open spec fn has_kind(s: Objects, id: ObjectId, kind: ObjectKind) -> bool {
    present(s, id) && kind_of(object_of(s, id)) == kind
}

/// The commit stored under `id`.
pub open spec fn commit_of(s: Objects, id: ObjectId) -> CommitView {
    match object_of(s, id) {
        ObjectView::Commit(c) => c,
        _ => arbitrary(),
    }
}

/// The entries of the tree stored under `id`.
pub open spec fn tree_of(s: Objects, id: ObjectId) -> Seq<EntryView> {
    match object_of(s, id) {
        ObjectView::Tree(entries) => entries,
        _ => arbitrary(),
    }
}

/// The content of the blob stored under `id`.
pub open spec fn blob_of(s: Objects, id: ObjectId) -> Seq<u8> {
    match object_of(s, id) {
        ObjectView::Blob(data) => data,
        _ => arbitrary(),
    }
}

/// Everything that `o` refers to is in the store, under the kind that the
/// reference asks for.
#[verifier::opaque]
pub open spec fn refs_ok(s: Objects, o: ObjectView) -> bool {
    match o {
        ObjectView::Blob(_) => true,
        ObjectView::Tree(entries) => forall|k: int|
            0 <= k < entries.len() ==> has_kind(s, (#[trigger] entries[k]).id, target_kind(entries[k].kind)),
        ObjectView::Commit(c) => has_kind(s, c.tree, ObjectKind::Tree) && forall|k: int|
            0 <= k < c.parents.len() ==> has_kind(s, #[trigger] c.parents[k], ObjectKind::Commit),
    }
}

/// No id occurs twice.
pub open spec fn distinct(s: Objects) -> bool {
    forall|i: int, j: int| 0 <= i < j < s.len() ==> (#[trigger] s[i]).0 != (#[trigger] s[j]).0
}

/// The invariant of a store: ids are distinct, every object is stored under
/// the digest of its encoding, is well formed, and refers only to objects
/// that were added before it.
pub open spec fn wf(s: Objects) -> bool {
    &&& distinct(s)
    &&& forall|i: int|
        0 <= i < s.len() ==> {
            let o = (#[trigger] s[i]).1;
            &&& object_digest(kind_of(o), encode(o)) == Some(s[i].0)
            &&& valid_object(o)
            &&& refs_ok(s.take(i), o)
        }
}

/// `a` holds everything that `b` holds, at the same positions.
pub open spec fn extends(a: Objects, b: Objects) -> bool {
    b.len() <= a.len() && a.take(b.len() as int) == b
}

/// Adding an object. An object that is not well formed, or whose digest
/// cannot be had, or whose id is taken by another object, is a storage
/// fault; one that refers to a missing object is not found; the object that
/// is there already is found again under its id, and the store stays as it
/// is; any other is appended.
pub open spec fn put(s: Objects, o: ObjectView) -> Result<(Objects, ObjectId), Error> {
    if !valid_object(o) {
        Err(Error::StorageFault)
    } else if !refs_ok(s, o) {
        Err(Error::NotFound)
    } else {
        match object_digest(kind_of(o), encode(o)) {
            None => Err(Error::StorageFault),
            Some(id) => if present(s, id) {
                if object_of(s, id) == o {
                    Ok((s, id))
                } else {
                    Err(Error::StorageFault)
                }
            } else {
                Ok((s.push((id, o)), id))
            },
        }
    }
}

/// With distinct ids, the object at position `i` is the one found under its id.
pub proof fn lemma_slot(s: Objects, i: int)
    requires
        distinct(s),
        0 <= i < s.len(),
    ensures
        present(s, s[i].0),
        slot(s, s[i].0) == i,
        object_of(s, s[i].0) == s[i].1,
{
    let j = slot(s, s[i].0);
    assert(0 <= j < s.len() && s[j].0 == s[i].0);
}

/// What a store holds, a store that extends it holds too, at the same place.
pub proof fn lemma_extends_has(a: Objects, b: Objects, id: ObjectId)
    requires
        distinct(a),
        extends(a, b),
        present(b, id),
    ensures
        present(a, id),
        slot(a, id) == slot(b, id),
        object_of(a, id) == object_of(b, id),
{
    let j = slot(b, id);
    assert(a.take(b.len() as int)[j] == b[j]);
    lemma_slot(a, j);
}

/// References that resolve in a store resolve in a store that extends it.
pub proof fn lemma_extends_refs(a: Objects, b: Objects, o: ObjectView)
    requires
        distinct(a),
        extends(a, b),
        refs_ok(b, o),
    ensures
        refs_ok(a, o),
{
    reveal(refs_ok);
    match o {
        ObjectView::Blob(_) => {},
        ObjectView::Tree(entries) => {
            assert forall|k: int| 0 <= k < entries.len() implies has_kind(
                a,
                (#[trigger] entries[k]).id,
                target_kind(entries[k].kind),
            ) by {
                lemma_extends_has(a, b, entries[k].id);
            }
        },
        ObjectView::Commit(c) => {
            lemma_extends_has(a, b, c.tree);
            assert forall|k: int| 0 <= k < c.parents.len() implies has_kind(
                a,
                #[trigger] c.parents[k],
                ObjectKind::Commit,
            ) by {
                lemma_extends_has(a, b, c.parents[k]);
            }
        },
    }
}

/// Extension is transitive.
pub proof fn lemma_extends_transitive(a: Objects, b: Objects, c: Objects)
    requires
        extends(a, b),
        extends(b, c),
    ensures
        extends(a, c),
{
    assert(a.take(c.len() as int) =~= b.take(c.len() as int));
}

/// Every prefix of a well-formed store is well formed.
pub proof fn lemma_wf_prefix(s: Objects, n: int)
    requires
        wf(s),
        0 <= n <= s.len(),
    ensures
        wf(s.take(n)),
        extends(s, s.take(n)),
{
    let t = s.take(n);
    assert forall|i: int| 0 <= i < t.len() implies {
        let o = (#[trigger] t[i]).1;
        &&& object_digest(kind_of(o), encode(o)) == Some(t[i].0)
        &&& valid_object(o)
        &&& refs_ok(t.take(i), o)
    } by {
        assert(t[i] == s[i]);
        assert(t.take(i) =~= s.take(i));
    }
}

/// A store that took an object is well formed, extends the store before,
/// and holds the object under the id that was returned.
pub proof fn lemma_put(s: Objects, o: ObjectView)
    requires
        wf(s),
        put(s, o) is Ok,
    ensures
        wf(put(s, o).unwrap().0),
        extends(put(s, o).unwrap().0, s),
        present(put(s, o).unwrap().0, put(s, o).unwrap().1),
        object_of(put(s, o).unwrap().0, put(s, o).unwrap().1) == o,
        object_digest(kind_of(o), encode(o)) == Some(put(s, o).unwrap().1),
{
    let (t, id) = put(s, o).unwrap();
    if present(s, id) {
        assert(t == s);
        assert(s.take(s.len() as int) =~= s);
    } else {
        assert(t == s.push((id, o)));
        assert(t.take(s.len() as int) =~= s);
        assert forall|i: int| 0 <= i < t.len() implies {
            let x = (#[trigger] t[i]).1;
            &&& object_digest(kind_of(x), encode(x)) == Some(t[i].0)
            &&& valid_object(x)
            &&& refs_ok(t.take(i), x)
        } by {
            if i < s.len() {
                assert(t[i] == s[i]);
                assert(t.take(i) =~= s.take(i));
            }
        }
        assert(distinct(t)) by {
            assert forall|i: int, j: int| 0 <= i < j < t.len() implies (#[trigger] t[i]).0 != (#[trigger] t[j]).0 by {
                if j < s.len() {
                    assert(t[i] == s[i] && t[j] == s[j]);
                } else {
                    assert(t[i] == s[i]);
                }
            }
        }
        lemma_slot(t, s.len() as int);
    }
}

/// In a well-formed store, whatever an object refers to was added before it.
pub proof fn lemma_refs_below(s: Objects, id: ObjectId)
    requires
        wf(s),
        present(s, id),
    ensures
        refs_ok(s.take(slot(s, id)), object_of(s, id)),
        refs_ok(s, object_of(s, id)),
{
    let i = slot(s, id);
    lemma_wf_prefix(s, i);
    lemma_extends_refs(s, s.take(i), s[i].1);
}

/// In a well-formed store, a commit's tree and parents are in the store and
/// were added before the commit.
pub proof fn lemma_commit_refs(s: Objects, id: ObjectId)
    requires
        wf(s),
        has_kind(s, id, ObjectKind::Commit),
    ensures
        has_kind(s, commit_of(s, id).tree, ObjectKind::Tree),
        slot(s, commit_of(s, id).tree) < slot(s, id),
        forall|k: int|
            0 <= k < commit_of(s, id).parents.len() ==> has_kind(
                s,
                #[trigger] commit_of(s, id).parents[k],
                ObjectKind::Commit,
            ) && slot(s, commit_of(s, id).parents[k]) < slot(s, id),
{
    reveal(refs_ok);
    let i = slot(s, id);
    let c = commit_of(s, id);
    lemma_wf_prefix(s, i);
    let t = s.take(i);
    assert(refs_ok(t, s[i].1));
    lemma_extends_has(s, t, c.tree);
    assert forall|k: int| 0 <= k < c.parents.len() implies has_kind(
        s,
        #[trigger] c.parents[k],
        ObjectKind::Commit,
    ) && slot(s, c.parents[k]) < slot(s, id) by {
        lemma_extends_has(s, t, c.parents[k]);
    }
}

/// The object store.
#[derive(Clone, Debug)]
pub struct ObjectStore {
    objects: Vec<(ObjectId, Object)>,
}

impl View for ObjectStore {
    type V = Objects;

    closed spec fn view(&self) -> Objects {
        Seq::new(self.objects.len() as nat, |i: int| (self.objects[i].0, self.objects[i].1@))
    }
}

impl ObjectStore {
    /// An empty store.
    pub fn new() -> (r: Self)
        ensures
            r@ == Seq::<(ObjectId, ObjectView)>::empty(),
            wf(r@),
    {
        let r = ObjectStore { objects: Vec::new() };
        proof {
            assert(r@ =~= Seq::<(ObjectId, ObjectView)>::empty());
        }
        r
    }

    /// The number of objects.
    pub fn len(&self) -> (r: usize)
        ensures
            r == self@.len(),
    {
        self.objects.len()
    }

    fn find(&self, id: &ObjectId) -> (r: Option<usize>)
        ensures
            match r {
                Some(i) => i < self.objects.len() && self@[i as int].0 == *id,
                None => !present(self@, *id),
            },
    {
        let mut i: usize = 0;
        while i < self.objects.len()
            invariant
                i <= self.objects.len(),
                forall|k: int| 0 <= k < i ==> (#[trigger] self@[k]).0 != *id,
            decreases self.objects.len() - i,
        {
            if self.objects[i].0 == *id {
                return Some(i);
            }
            i += 1;
        }
        None
    }

    /// The object stored under `id`.
    pub fn get(&self, id: &ObjectId) -> (r: Option<&Object>)
        requires
            wf(self@),
        ensures
            r is Some <==> present(self@, *id),
            r is Some ==> r.unwrap()@ == object_of(self@, *id),
    {
        match self.find(id) {
            Some(i) => {
                proof {
                    lemma_slot(self@, i as int);
                }
                Some(&self.objects[i].1)
            },
            None => None,
        }
    }

    /// Whether an object of the given kind is stored under `id`.
    pub fn holds(&self, id: &ObjectId, kind: ObjectKind) -> (r: bool)
        requires
            wf(self@),
        ensures
            r == has_kind(self@, *id, kind),
    {
        match self.get(id) {
            Some(o) => object_kind(o) == kind,
            None => false,
        }
    }

    /// The commit stored under `id`.
    pub fn commit(&self, id: &ObjectId) -> (r: Option<&Commit>)
        requires
            wf(self@),
        ensures
            r is Some <==> has_kind(self@, *id, ObjectKind::Commit),
            r is Some ==> r.unwrap()@ == commit_of(self@, *id),
    {
        match self.get(id) {
            Some(Object::Commit(c)) => Some(c),
            _ => None,
        }
    }

    /// The entries of the tree stored under `id`.
    pub fn tree(&self, id: &ObjectId) -> (r: Option<&Vec<TreeEntry>>)
        requires
            wf(self@),
        ensures
            r is Some <==> has_kind(self@, *id, ObjectKind::Tree),
            r is Some ==> crate::object::entries_view(r.unwrap()@) == tree_of(self@, *id),
    {
        match self.get(id) {
            Some(Object::Tree(entries)) => Some(entries),
            _ => None,
        }
    }

    /// The content of the blob stored under `id`.
    pub fn blob(&self, id: &ObjectId) -> (r: Option<&Vec<u8>>)
        requires
            wf(self@),
        ensures
            r is Some <==> has_kind(self@, *id, ObjectKind::Blob),
            r is Some ==> r.unwrap()@ == blob_of(self@, *id),
    {
        match self.get(id) {
            Some(Object::Blob(data)) => Some(data),
            _ => None,
        }
    }

    fn refs_present(&self, o: &Object) -> (r: bool)
        requires
            wf(self@),
        ensures
            r == refs_ok(self@, o@),
    {
        proof {
            reveal(refs_ok);
        }
        match o {
            Object::Blob(_) => true,
            Object::Tree(entries) => {
                let ghost s = crate::object::entries_view(entries@);
                let mut i: usize = 0;
                while i < entries.len()
                    invariant
                        i <= entries.len(),
                        wf(self@),
                        s == crate::object::entries_view(entries@),
                        o@ == ObjectView::Tree(s),
                        forall|k: int|
                            0 <= k < i ==> has_kind(self@, (#[trigger] s[k]).id, target_kind(s[k].kind)),
                    decreases entries.len() - i,
                {
                    proof {
                        assert(s[i as int] == entries@[i as int]@);
                    }
                    if !self.holds(&entries[i].id, entry_target(entries[i].kind)) {
                        proof {
                            reveal(refs_ok);
                            assert(!has_kind(self@, s[i as int].id, target_kind(s[i as int].kind)));
                        }
                        return false;
                    }
                    i += 1;
                }
                true
            },
            Object::Commit(c) => {
                if !self.holds(&c.tree, ObjectKind::Tree) {
                    return false;
                }
                let mut i: usize = 0;
                while i < c.parents.len()
                    invariant
                        i <= c.parents.len(),
                        wf(self@),
                        o@ == ObjectView::Commit(c@),
                        has_kind(self@, c.tree, ObjectKind::Tree),
                        forall|k: int| 0 <= k < i ==> has_kind(self@, #[trigger] c.parents@[k], ObjectKind::Commit),
                    decreases c.parents.len() - i,
                {
                    if !self.holds(&c.parents[i], ObjectKind::Commit) {
                        proof {
                            reveal(refs_ok);
                            assert(!has_kind(self@, c@.parents[i as int], ObjectKind::Commit));
                        }
                        return false;
                    }
                    i += 1;
                }
                true
            },
        }
    }

    /// Adds an object and returns its id. See [`put`] for what happens to
    /// which object.
    pub fn put(&mut self, obj: Object) -> (r: Result<ObjectId, Error>)
        requires
            wf(old(self)@),
        ensures
            wf(final(self)@),
            extends(final(self)@, old(self)@),
            match put(old(self)@, obj@) {
                Ok(done) => r == Ok::<ObjectId, Error>(done.1) && final(self)@ == done.0,
                Err(e) => r == Err::<ObjectId, Error>(e) && final(self)@ == old(self)@,
            },
    {
        proof {
            assert(self@.take(self@.len() as int) =~= self@);
        }
        if !object_is_valid(&obj) {
            return Err(Error::StorageFault);
        }
        if !self.refs_present(&obj) {
            return Err(Error::NotFound);
        }
        let data = encode_object(&obj);
        match digest_object(object_kind(&obj), &data) {
            None => Err(Error::StorageFault),
            Some(id) => {
                match self.find(&id) {
                    Some(i) => {
                        proof {
                            lemma_slot(self@, i as int);
                        }
                        if same_object(&self.objects[i].1, &obj) {
                            Ok(id)
                        } else {
                            Err(Error::StorageFault)
                        }
                    },
                    None => {
                        proof {
                            lemma_put(self@, obj@);
                        }
                        let ghost before = self@;
                        let ghost o = obj@;
                        self.objects.push((id, obj));
                        proof {
                            assert(self@ =~= before.push((id, o)));
                        }
                        Ok(id)
                    },
                }
            },
        }
    }

    /// Forgets every object but the first `n`.
    pub fn truncate(&mut self, n: usize)
        requires
            wf(old(self)@),
            n <= old(self)@.len(),
        ensures
            final(self)@ == old(self)@.take(n as int),
            wf(final(self)@),
    {
        proof {
            lemma_wf_prefix(self@, n as int);
        }
        self.objects.truncate(n);
        proof {
            assert(self@ =~= old(self)@.take(n as int));
        }
    }
}


/// Adding an object that a well-formed store holds already finds it again
/// and writes nothing.
pub proof fn lemma_put_existing(s: Objects, id: ObjectId)
    requires
        wf(s),
        present(s, id),
    ensures
        put(s, object_of(s, id)) == Ok::<(Objects, ObjectId), Error>((s, id)),
{
    let i = slot(s, id);
    assert(s[i].0 == id);
    lemma_refs_below(s, id);
}

} // verus!

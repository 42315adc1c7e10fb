//! Blobs, trees and commits, and their mathematical views.

use vstd::prelude::*;
use crate::bytes::{copy_bytes, lemma_lex_asymmetric, lemma_lex_total, lemma_lex_transitive, lex_lt, order_bytes, ByteOrder};
use crate::object_id::ObjectId;

verus! {

/// What an object is: file content, a directory snapshot, or a commit.
#[derive(Clone, Copy, Debug, PartialEq, Eq, Structural)]
pub enum ObjectKind {
    Blob,
    Tree,
    Commit,
}

/// The mode of a tree entry.
#[derive(Clone, Copy, Debug, PartialEq, Eq, Structural)]
pub enum EntryKind {
    /// A directory: the entry names a tree.
    Tree,
    /// A regular file.
    Blob,
    /// An executable file.
    BlobExecutable,
    /// A symbolic link, whose target is the blob's content.
    Link,
}

/// The kind of object that an entry of the given mode names.
pub open spec fn target_kind(kind: EntryKind) -> ObjectKind {
    if kind == EntryKind::Tree {
        ObjectKind::Tree
    } else {
        ObjectKind::Blob
    }
}

/// One entry of a tree: a path segment with the mode and id of what it names.
#[derive(Clone, Debug, PartialEq, Eq)]
pub struct TreeEntry {
    pub name: Vec<u8>,
    pub kind: EntryKind,
    pub id: ObjectId,
}

/// The view of a [`TreeEntry`].
pub struct EntryView {
    pub name: Seq<u8>,
    pub kind: EntryKind,
    pub id: ObjectId,
}

impl View for TreeEntry {
    type V = EntryView;

    open spec fn view(&self) -> EntryView {
        EntryView { name: self.name@, kind: self.kind, id: self.id }
    }
}

/// The views of a list of entries, in order.
pub open spec fn entries_view(v: Seq<TreeEntry>) -> Seq<EntryView> {
    Seq::new(v.len(), |i: int| v[i]@)
}

/// A commit: a tree, the parent commits, and the metadata.
#[derive(Clone, Debug, PartialEq, Eq)]
pub struct Commit {
    pub tree: ObjectId,
    pub parents: Vec<ObjectId>,
    pub author: Vec<u8>,
    pub committer: Vec<u8>,
    pub message: Vec<u8>,
}

/// The view of a [`Commit`].
pub struct CommitView {
    pub tree: ObjectId,
    pub parents: Seq<ObjectId>,
    pub author: Seq<u8>,
    pub committer: Seq<u8>,
    pub message: Seq<u8>,
}

impl View for Commit {
    type V = CommitView;

    open spec fn view(&self) -> CommitView {
        CommitView {
            tree: self.tree,
            parents: self.parents@,
            author: self.author@,
            committer: self.committer@,
            message: self.message@,
        }
    }
}

/// An object of the store.
#[derive(Clone, Debug, PartialEq, Eq)]
pub enum Object {
    Blob(Vec<u8>),
    Tree(Vec<TreeEntry>),
    Commit(Commit),
}

/// The view of an [`Object`].
pub enum ObjectView {
    Blob(Seq<u8>),
    Tree(Seq<EntryView>),
    Commit(CommitView),
}

impl View for Object {
    type V = ObjectView;

    open spec fn view(&self) -> ObjectView {
        match self {
            Object::Blob(data) => ObjectView::Blob(data@),
            Object::Tree(entries) => ObjectView::Tree(entries_view(entries@)),
            Object::Commit(commit) => ObjectView::Commit(commit@),
        }
    }
}

/// The kind of an object.
pub open spec fn kind_of(o: ObjectView) -> ObjectKind {
    match o {
        ObjectView::Blob(_) => ObjectKind::Blob,
        ObjectView::Tree(_) => ObjectKind::Tree,
        ObjectView::Commit(_) => ObjectKind::Commit,
    }
}

/// A path segment: not empty, without `/` and without a zero byte.
pub open spec fn valid_name(name: Seq<u8>) -> bool {
    name.len() > 0 && forall|i: int| 0 <= i < name.len() ==> name[i] != 47 && name[i] != 0
}

/// The entries stand in strictly ascending order of their names.
pub open spec fn sorted(s: Seq<EntryView>) -> bool {
    forall|i: int, j: int| 0 <= i < j < s.len() ==> lex_lt(#[trigger] s[i].name, #[trigger] s[j].name)
}

/// A tree is valid when its entries are sorted by name, which makes the names
/// distinct and the entry list the one representation of its mapping, and
/// every name is a path segment.
pub open spec fn valid_tree(s: Seq<EntryView>) -> bool {
    sorted(s) && forall|i: int| 0 <= i < s.len() ==> valid_name(#[trigger] s[i].name)
}

/// The first position at or after `i` whose name does not sort before `name`.
pub open spec fn lower_bound_from(s: Seq<EntryView>, name: Seq<u8>, i: int) -> int
    decreases s.len() - i,
{
    if i < 0 || i >= s.len() {
        s.len() as int
    } else if lex_lt(s[i].name, name) {
        lower_bound_from(s, name, i + 1)
    } else {
        i
    }
}

/// The position at which an entry called `name` stands, or would be inserted.
pub open spec fn lower_bound(s: Seq<EntryView>, name: Seq<u8>) -> int {
    lower_bound_from(s, name, 0)
}

/// The entry called `name`, if the tree has one.
pub open spec fn lookup(s: Seq<EntryView>, name: Seq<u8>) -> Option<EntryView> {
    let p = lower_bound(s, name);
    if p < s.len() && s[p].name == name {
        Some(s[p])
    } else {
        None
    }
}

/// The tree with `e` in place of the entry of its name, or added to it.
pub open spec fn with_entry(s: Seq<EntryView>, e: EntryView) -> Seq<EntryView> {
    let p = lower_bound(s, e.name);
    if p < s.len() && s[p].name == e.name {
        s.update(p, e)
    } else {
        s.insert(p, e)
    }
}

/// The tree without the entry called `name`.
pub open spec fn without_entry(s: Seq<EntryView>, name: Seq<u8>) -> Seq<EntryView> {
    let p = lower_bound(s, name);
    if p < s.len() && s[p].name == name {
        s.remove(p)
    } else {
        s
    }
}

/// The tree after `name` was set to `value`: replaced or added for `Some`,
/// removed for `None`.
pub open spec fn with_slot(s: Seq<EntryView>, name: Seq<u8>, value: Option<(EntryKind, ObjectId)>) -> Seq<EntryView> {
    match value {
        Some(v) => with_entry(s, EntryView { name, kind: v.0, id: v.1 }),
        None => without_entry(s, name),
    }
}

/// What an entry holds besides its name.
pub open spec fn slot_of(e: Option<EntryView>) -> Option<(EntryKind, ObjectId)> {
    match e {
        Some(e) => Some((e.kind, e.id)),
        None => None,
    }
}

proof fn lemma_lower_bound_from(s: Seq<EntryView>, name: Seq<u8>, i: int)
    requires
        0 <= i <= s.len(),
    ensures
        i <= lower_bound_from(s, name, i) <= s.len(),
        forall|k: int| i <= k < lower_bound_from(s, name, i) ==> lex_lt(#[trigger] s[k].name, name),
        lower_bound_from(s, name, i) < s.len() ==> !lex_lt(s[lower_bound_from(s, name, i)].name, name),
    decreases s.len() - i,
{
    if i < s.len() && lex_lt(s[i].name, name) {
        lemma_lower_bound_from(s, name, i + 1);
    }
}

/// Every entry before the lower bound sorts before `name`, and the entry at
/// it does not.
pub proof fn lemma_lower_bound(s: Seq<EntryView>, name: Seq<u8>)
    ensures
        0 <= lower_bound(s, name) <= s.len(),
        forall|k: int| 0 <= k < lower_bound(s, name) ==> lex_lt(#[trigger] s[k].name, name),
        lower_bound(s, name) < s.len() ==> !lex_lt(s[lower_bound(s, name)].name, name),
{
    lemma_lower_bound_from(s, name, 0);
}

proof fn lemma_lower_bound_is_from(s: Seq<EntryView>, name: Seq<u8>, p: int, i: int)
    requires
        0 <= i <= p <= s.len(),
        forall|k: int| i <= k < p ==> lex_lt(#[trigger] s[k].name, name),
        p < s.len() ==> !lex_lt(s[p].name, name),
    ensures
        lower_bound_from(s, name, i) == p,
    decreases p - i,
{
    if i < p {
        lemma_lower_bound_is_from(s, name, p, i + 1);
    }
}

/// The lower bound is the one position that splits the tree at `name`.
pub proof fn lemma_lower_bound_is(s: Seq<EntryView>, name: Seq<u8>, p: int)
    requires
        0 <= p <= s.len(),
        forall|k: int| 0 <= k < p ==> lex_lt(#[trigger] s[k].name, name),
        p < s.len() ==> !lex_lt(s[p].name, name),
    ensures
        lower_bound(s, name) == p,
{
    lemma_lower_bound_is_from(s, name, p, 0);
}

/// In a sorted tree the entry at position `i` is the one found under its name.
pub proof fn lemma_lookup_at(s: Seq<EntryView>, i: int)
    requires
        sorted(s),
        0 <= i < s.len(),
    ensures
        lower_bound(s, s[i].name) == i,
        lookup(s, s[i].name) == Some(s[i]),
{
    let name = s[i].name;
    if lex_lt(name, name) {
        lemma_lex_asymmetric(name, name);
    }
    assert forall|k: int| 0 <= k < i implies lex_lt(#[trigger] s[k].name, name) by {}
    lemma_lower_bound_is(s, name, i);
}

/// In a sorted tree a name that is not found names no entry, and every entry
/// from the lower bound on sorts after it.
pub proof fn lemma_lookup_none(s: Seq<EntryView>, name: Seq<u8>)
    requires
        sorted(s),
        lookup(s, name) is None,
    ensures
        forall|k: int| 0 <= k < s.len() ==> (#[trigger] s[k]).name != name,
        forall|k: int| lower_bound(s, name) <= k < s.len() ==> lex_lt(name, #[trigger] s[k].name),
{
    let p = lower_bound(s, name);
    lemma_lower_bound(s, name);
    assert forall|k: int| 0 <= k < s.len() implies (#[trigger] s[k]).name != name by {
        if s[k].name == name {
            lemma_lookup_at(s, k);
        }
    }
    assert forall|k: int| p <= k < s.len() implies lex_lt(name, #[trigger] s[k].name) by {
        lemma_lex_total(s[p].name, name);
        if k > p {
            assert(lex_lt(s[p].name, s[k].name));
            lemma_lex_transitive(name, s[p].name, s[k].name);
        }
    }
}

/// Setting a name keeps the tree sorted, is seen by a lookup of that name,
/// and leaves every other name as it was.
pub proof fn lemma_with_slot(s: Seq<EntryView>, name: Seq<u8>, value: Option<(EntryKind, ObjectId)>)
    requires
        sorted(s),
    ensures
        sorted(with_slot(s, name, value)),
        slot_of(lookup(with_slot(s, name, value), name)) == value,
        lookup(with_slot(s, name, value), name) is Some ==> lookup(with_slot(s, name, value), name).unwrap().name == name,
        forall|m: Seq<u8>| m != name ==> lookup(with_slot(s, name, value), m) == lookup(s, m),
        forall|k: int| 0 <= k < with_slot(s, name, value).len() ==> {
            let e = #[trigger] with_slot(s, name, value)[k];
            e.name == name || exists|j: int| 0 <= j < s.len() && s[j] == e
        },
{
    let p = lower_bound(s, name);
    let t = with_slot(s, name, value);
    lemma_lower_bound(s, name);
    let present = p < s.len() && s[p].name == name;
    if !present {
        lemma_lookup_none(s, name);
    }
    // every entry at or after p, other than one called `name`, sorts after `name`
    assert forall|k: int| p <= k < s.len() && s[k].name != name implies lex_lt(name, #[trigger] s[k].name) by {
        if present {
            assert(k > p);
            assert(lex_lt(s[p].name, s[k].name));
        }
    }
    match value {
        Some(v) => {
            let e = EntryView { name, kind: v.0, id: v.1 };
            if present {
                assert(t == s.update(p, e));
                assert forall|i: int, j: int| 0 <= i < j < t.len() implies lex_lt(#[trigger] t[i].name, #[trigger] t[j].name) by {
                    assert(t[i].name == s[i].name);
                    assert(t[j].name == s[j].name);
                }
                lemma_lookup_at(t, p);
                assert forall|m: Seq<u8>| m != name implies lookup(t, m) == lookup(s, m) by {
                    lemma_lower_bound(s, m);
                    let q = lower_bound(s, m);
                    assert forall|k: int| 0 <= k < q implies lex_lt(#[trigger] t[k].name, m) by {
                        assert(t[k].name == s[k].name);
                    }
                    if q < s.len() {
                        assert(t[q].name == s[q].name);
                    }
                    lemma_lower_bound_is(t, m, q);
                }
                assert forall|k: int| 0 <= k < t.len() implies {
                    let e2 = #[trigger] t[k];
                    e2.name == name || exists|j: int| 0 <= j < s.len() && s[j] == e2
                } by {
                    if k != p {
                        assert(s[k] == t[k]);
                    }
                }
            } else {
                assert(t == s.insert(p, e));
                assert forall|i: int, j: int| 0 <= i < j < t.len() implies lex_lt(#[trigger] t[i].name, #[trigger] t[j].name) by {
                    if j < p {
                        assert(t[i] == s[i] && t[j] == s[j]);
                    } else if j == p {
                        assert(t[i] == s[i]);
                    } else if i == p {
                        assert(t[j] == s[j - 1]);
                    } else if i < p {
                        assert(t[i] == s[i] && t[j] == s[j - 1]);
                    } else {
                        assert(t[i] == s[i - 1] && t[j] == s[j - 1]);
                    }
                }
                assert(t[p] == e);
                lemma_lookup_at(t, p);
                assert forall|m: Seq<u8>| m != name implies lookup(t, m) == lookup(s, m) by {
                    lemma_lower_bound(s, m);
                    let q = lower_bound(s, m);
                    lemma_lex_total(m, name);
                    if lex_lt(m, name) {
                        // q <= p, and the bound stays where it was
                        if q > p {
                            assert(lex_lt(s[p].name, m));
                            lemma_lex_transitive(s[p].name, m, name);
                        }
                        assert forall|k: int| 0 <= k < q implies lex_lt(#[trigger] t[k].name, m) by {
                            assert(t[k] == s[k]);
                        }
                        if q < p {
                            assert(t[q] == s[q]);
                        } else {
                            assert(t[q] == e);
                            lemma_lex_asymmetric(m, name);
                            if q < s.len() && s[q].name == m {
                                assert(lex_lt(name, s[q].name));
                            }
                        }
                        lemma_lower_bound_is(t, m, q);
                    } else {
                        // name sorts before m: the bound moves up by one
                        if q < p {
                            assert(lex_lt(s[q].name, name));
                            lemma_lex_transitive(s[q].name, name, m);
                        }
                        assert forall|k: int| 0 <= k < q + 1 implies lex_lt(#[trigger] t[k].name, m) by {
                            if k < p {
                                assert(t[k] == s[k]);
                            } else if k > p {
                                assert(t[k] == s[k - 1]);
                            }
                        }
                        if q < s.len() {
                            assert(t[q + 1] == s[q]);
                        }
                        lemma_lower_bound_is(t, m, q + 1);
                    }
                }
                assert forall|k: int| 0 <= k < t.len() implies {
                    let e2 = #[trigger] t[k];
                    e2.name == name || exists|j: int| 0 <= j < s.len() && s[j] == e2
                } by {
                    if k < p {
                        assert(s[k] == t[k]);
                    } else if k > p {
                        assert(s[k - 1] == t[k]);
                    }
                }
            }
        },
        None => {
            if present {
                assert(t == s.remove(p));
                assert forall|i: int, j: int| 0 <= i < j < t.len() implies lex_lt(#[trigger] t[i].name, #[trigger] t[j].name) by {
                    if j < p {
                        assert(t[i] == s[i] && t[j] == s[j]);
                    } else if i < p {
                        assert(t[i] == s[i] && t[j] == s[j + 1]);
                    } else {
                        assert(t[i] == s[i + 1] && t[j] == s[j + 1]);
                    }
                }
                assert forall|k: int| 0 <= k < p implies lex_lt(#[trigger] t[k].name, name) by {
                    assert(t[k] == s[k]);
                }
                if p < t.len() {
                    assert(t[p] == s[p + 1]);
                    assert(lex_lt(name, s[p + 1].name));
                    lemma_lex_asymmetric(name, t[p].name);
                }
                lemma_lower_bound_is(t, name, p);
                assert forall|m: Seq<u8>| m != name implies lookup(t, m) == lookup(s, m) by {
                    lemma_lower_bound(s, m);
                    let q = lower_bound(s, m);
                    lemma_lex_total(m, name);
                    if q <= p {
                        assert forall|k: int| 0 <= k < q implies lex_lt(#[trigger] t[k].name, m) by {
                            assert(t[k] == s[k]);
                        }
                        if q < p {
                            assert(t[q] == s[q]);
                        } else {
                            // q == p: the entry called `name` does not sort before m
                            lemma_lex_asymmetric(m, name);
                            if q < t.len() {
                                assert(t[q] == s[q + 1]);
                                assert(lex_lt(s[q].name, s[q + 1].name));
                                if lex_lt(t[q].name, m) {
                                    lemma_lex_transitive(name, t[q].name, m);
                                }
                            }
                        }
                        lemma_lower_bound_is(t, m, q);
                    } else {
                        assert forall|k: int| 0 <= k < q - 1 implies lex_lt(#[trigger] t[k].name, m) by {
                            if k < p {
                                assert(t[k] == s[k]);
                            } else {
                                assert(t[k] == s[k + 1]);
                            }
                        }
                        if q < s.len() {
                            assert(t[q - 1] == s[q]);
                        }
                        lemma_lower_bound_is(t, m, q - 1);
                    }
                }
                assert forall|k: int| 0 <= k < t.len() implies {
                    let e2 = #[trigger] t[k];
                    e2.name == name || exists|j: int| 0 <= j < s.len() && s[j] == e2
                } by {
                    if k < p {
                        assert(s[k] == t[k]);
                    } else {
                        assert(s[k + 1] == t[k]);
                    }
                }
            } else {
                assert forall|k: int| 0 <= k < t.len() implies {
                    let e2 = #[trigger] t[k];
                    e2.name == name || exists|j: int| 0 <= j < s.len() && s[j] == e2
                } by {
                    assert(s[k] == t[k]);
                }
            }
        },
    }
}

/// A copy of an entry.
pub fn copy_entry(e: &TreeEntry) -> (r: TreeEntry)
    ensures
        r@ == e@,
{
    TreeEntry { name: copy_bytes(&e.name), kind: e.kind, id: e.id }
}

/// A copy of a list of entries.
pub fn copy_entries(entries: &Vec<TreeEntry>) -> (r: Vec<TreeEntry>)
    ensures
        entries_view(r@) == entries_view(entries@),
{
    let mut out: Vec<TreeEntry> = Vec::new();
    let mut i: usize = 0;
    while i < entries.len()
        invariant
            i <= entries.len(),
            out.len() == i,
            forall|k: int| 0 <= k < i ==> out@[k]@ == entries@[k]@,
        decreases entries.len() - i,
    {
        out.push(copy_entry(&entries[i]));
        i += 1;
    }
    proof {
        assert(entries_view(out@) =~= entries_view(entries@));
    }
    out
}

/// A copy of a list of ids.
pub fn copy_ids(ids: &Vec<ObjectId>) -> (r: Vec<ObjectId>)
    ensures
        r@ == ids@,
{
    let mut out: Vec<ObjectId> = Vec::new();
    let mut i: usize = 0;
    while i < ids.len()
        invariant
            i <= ids.len(),
            out@ == ids@.take(i as int),
        decreases ids.len() - i,
    {
        out.push(ids[i]);
        proof {
            assert(out@ =~= ids@.take(i as int + 1));
        }
        i += 1;
    }
    proof {
        assert(ids@.take(ids@.len() as int) =~= ids@);
    }
    out
}

/// A copy of a commit.
pub fn copy_commit(c: &Commit) -> (r: Commit)
    ensures
        r@ == c@,
{
    Commit {
        tree: c.tree,
        parents: copy_ids(&c.parents),
        author: copy_bytes(&c.author),
        committer: copy_bytes(&c.committer),
        message: copy_bytes(&c.message),
    }
}

/// The position of the first entry whose name does not sort before `name`,
/// and whether that entry is called `name`.
pub fn locate_entry(entries: &Vec<TreeEntry>, name: &Vec<u8>) -> (r: (usize, bool))
    ensures
        r.0 == lower_bound(entries_view(entries@), name@),
        r.0 <= entries.len(),
        r.1 == (r.0 < entries.len() && entries@[r.0 as int].name@ == name@),
        r.1 == lookup(entries_view(entries@), name@) is Some,
{
    let ghost s = entries_view(entries@);
    let mut i: usize = 0;
    while i < entries.len()
        invariant
            i <= entries.len(),
            s == entries_view(entries@),
            lower_bound(s, name@) == lower_bound_from(s, name@, i as int),
        decreases entries.len() - i,
    {
        let o = order_bytes(&entries[i].name, name);
        proof {
            assert(s[i as int].name == entries@[i as int].name@);
        }
        match o {
            ByteOrder::Less => {
                i += 1;
            },
            ByteOrder::Equal => {
                proof {
                    if lex_lt(name@, name@) {
                        lemma_lex_asymmetric(name@, name@);
                    }
                }
                return (i, true);
            },
            ByteOrder::Greater => {
                proof {
                    lemma_lex_asymmetric(name@, s[i as int].name);
                }
                return (i, false);
            },
        }
    }
    (i, false)
}

/// Sets `name` in a list of entries: replaces or adds the entry for `Some`,
/// removes it for `None`.
pub fn set_entry(entries: &mut Vec<TreeEntry>, name: &Vec<u8>, value: Option<(EntryKind, ObjectId)>)
    ensures
        entries_view(final(entries)@) == with_slot(entries_view(old(entries)@), name@, value),
{
    let ghost s = entries_view(entries@);
    let (p, present) = locate_entry(entries, name);
    match value {
        Some(v) => {
            let e = TreeEntry { name: copy_bytes(name), kind: v.0, id: v.1 };
            if present {
                entries.set(p, e);
                proof {
                    assert(entries_view(entries@) =~= s.update(p as int, e@));
                }
            } else {
                entries.insert(p, e);
                proof {
                    assert(entries_view(entries@) =~= s.insert(p as int, e@));
                }
            }
        },
        None => {
            if present {
                entries.remove(p);
                proof {
                    assert(entries_view(entries@) =~= s.remove(p as int));
                }
            }
        },
    }
}


/// The kind of an object.
pub fn object_kind(o: &Object) -> (r: ObjectKind)
    ensures
        r == kind_of(o@),
{
    match o {
        Object::Blob(_) => ObjectKind::Blob,
        Object::Tree(_) => ObjectKind::Tree,
        Object::Commit(_) => ObjectKind::Commit,
    }
}

/// The kind of object that an entry of the given mode names.
pub fn entry_target(kind: EntryKind) -> (r: ObjectKind)
    ensures
        r == target_kind(kind),
{
    match kind {
        EntryKind::Tree => ObjectKind::Tree,
        _ => ObjectKind::Blob,
    }
}

/// Whether two entries are the same.
pub fn same_entry(a: &TreeEntry, b: &TreeEntry) -> (r: bool)
    ensures
        r == (a@ == b@),
{
    a.kind == b.kind && a.id == b.id && crate::bytes::same_bytes(&a.name, &b.name)
}

/// Whether two lists of entries are the same.
pub fn same_entries(a: &Vec<TreeEntry>, b: &Vec<TreeEntry>) -> (r: bool)
    ensures
        r == (entries_view(a@) == entries_view(b@)),
{
    if a.len() != b.len() {
        proof {
            assert(entries_view(a@).len() != entries_view(b@).len());
        }
        return false;
    }
    let mut i: usize = 0;
    while i < a.len()
        invariant
            i <= a.len(),
            a.len() == b.len(),
            forall|k: int| 0 <= k < i ==> a@[k]@ == b@[k]@,
        decreases a.len() - i,
    {
        if !same_entry(&a[i], &b[i]) {
            proof {
                assert(entries_view(a@)[i as int] != entries_view(b@)[i as int]);
            }
            return false;
        }
        i += 1;
    }
    proof {
        assert(entries_view(a@) =~= entries_view(b@));
    }
    true
}

/// Whether two lists of ids are the same.
pub fn same_ids(a: &Vec<ObjectId>, b: &Vec<ObjectId>) -> (r: bool)
    ensures
        r == (a@ == b@),
{
    if a.len() != b.len() {
        return false;
    }
    let mut i: usize = 0;
    while i < a.len()
        invariant
            i <= a.len(),
            a.len() == b.len(),
            forall|k: int| 0 <= k < i ==> a@[k] == b@[k],
        decreases a.len() - i,
    {
        if a[i] != b[i] {
            return false;
        }
        i += 1;
    }
    proof {
        assert(a@ =~= b@);
    }
    true
}

/// Whether two commits are the same.
pub fn same_commit(a: &Commit, b: &Commit) -> (r: bool)
    ensures
        r == (a@ == b@),
{
    a.tree == b.tree && same_ids(&a.parents, &b.parents) && crate::bytes::same_bytes(
        &a.author,
        &b.author,
    ) && crate::bytes::same_bytes(&a.committer, &b.committer) && crate::bytes::same_bytes(
        &a.message,
        &b.message,
    )
}

/// Whether two objects are the same.
pub fn same_object(a: &Object, b: &Object) -> (r: bool)
    ensures
        r == (a@ == b@),
{
    match (a, b) {
        (Object::Blob(x), Object::Blob(y)) => crate::bytes::same_bytes(x, y),
        (Object::Tree(x), Object::Tree(y)) => same_entries(x, y),
        (Object::Commit(x), Object::Commit(y)) => same_commit(x, y),
        _ => false,
    }
}

pub fn name_is_valid(name: &Vec<u8>) -> (r: bool)
    ensures
        r == valid_name(name@),
{
    if name.len() == 0 {
        return false;
    }
    let mut i: usize = 0;
    while i < name.len()
        invariant
            i <= name.len(),
            forall|k: int| 0 <= k < i ==> name@[k] != 47 && name@[k] != 0,
        decreases name.len() - i,
    {
        if name[i] == 47 || name[i] == 0 {
            return false;
        }
        i += 1;
    }
    true
}

/// Whether a list of entries is a valid tree.
pub fn entries_are_valid(entries: &Vec<TreeEntry>) -> (r: bool)
    ensures
        r == valid_tree(entries_view(entries@)),
{
    let ghost s = entries_view(entries@);
    let mut i: usize = 0;
    while i < entries.len()
        invariant
            i <= entries.len(),
            s == entries_view(entries@),
            forall|k: int| 0 <= k < i ==> valid_name(#[trigger] s[k].name),
            forall|a: int, b: int| 0 <= a < b < i ==> lex_lt(#[trigger] s[a].name, #[trigger] s[b].name),
        decreases entries.len() - i,
    {
        proof {
            assert(s[i as int].name == entries@[i as int].name@);
        }
        if !name_is_valid(&entries[i].name) {
            return false;
        }
        if i > 0 {
            proof {
                assert(s[i as int - 1].name == entries@[i as int - 1].name@);
            }
            match order_bytes(&entries[i - 1].name, &entries[i].name) {
                ByteOrder::Less => {
                    proof {
                        assert forall|a: int| 0 <= a < i implies lex_lt(#[trigger] s[a].name, s[i as int].name) by {
                            if a < i - 1 {
                                lemma_lex_transitive(s[a].name, s[i as int - 1].name, s[i as int].name);
                            }
                        }
                    }
                },
                _ => {
                    return false;
                },
            }
        }
        i += 1;
    }
    true
}

/// Whether an object is well formed in itself.
pub open spec fn valid_object(o: ObjectView) -> bool {
    match o {
        ObjectView::Tree(entries) => valid_tree(entries),
        _ => true,
    }
}

/// Whether an object is well formed in itself.
pub fn object_is_valid(o: &Object) -> (r: bool)
    ensures
        r == valid_object(o@),
{
    match o {
        Object::Tree(entries) => entries_are_valid(entries),
        _ => true,
    }
}

/// What `name` holds in a list of entries.
pub fn lookup_slot(entries: &Vec<TreeEntry>, name: &Vec<u8>) -> (r: Option<(EntryKind, ObjectId)>)
    ensures
        r == slot_of(lookup(entries_view(entries@), name@)),
{
    let (p, found) = locate_entry(entries, name);
    if found {
        proof {
            assert(entries_view(entries@)[p as int] == entries@[p as int]@);
        }
        Some((entries[p].kind, entries[p].id))
    } else {
        None
    }
}

/// Whether two slots hold the same.
pub fn same_slot(a: &Option<(EntryKind, ObjectId)>, b: &Option<(EntryKind, ObjectId)>) -> (r: bool)
    ensures
        r == (*a == *b),
{
    match (a, b) {
        (Some(x), Some(y)) => x.0 == y.0 && x.1 == y.1,
        (None, None) => true,
        _ => false,
    }
}

} // verus!

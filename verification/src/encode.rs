//! The canonical byte encoding of objects, which is what gets hashed.

use vstd::prelude::*;
use crate::bytes::append_bytes;
use crate::object::{Commit, CommitView, EntryKind, EntryView, Object, ObjectView, TreeEntry, entries_view};
use crate::object_id::{ObjectId, hex_of};

verus! {

/// The mode of an entry in octal digits.
pub open spec fn mode_bytes(kind: EntryKind) -> Seq<u8> {
    match kind {
        EntryKind::Tree => seq![52u8, 48, 48, 48, 48],
        EntryKind::Blob => seq![49u8, 48, 48, 54, 52, 52],
        EntryKind::BlobExecutable => seq![49u8, 48, 48, 55, 53, 53],
        EntryKind::Link => seq![49u8, 50, 48, 48, 48, 48],
    }
}

/// One entry: mode, a space, the name, a zero byte, and the raw id.
pub open spec fn encode_entry(e: EntryView) -> Seq<u8> {
    mode_bytes(e.kind) + seq![32u8] + e.name + seq![0u8] + e.id.bytes@
}

/// A tree: its entries one after another.
pub open spec fn encode_tree(s: Seq<EntryView>) -> Seq<u8>
    decreases s.len(),
{
    if s.len() == 0 {
        Seq::empty()
    } else {
        encode_tree(s.drop_last()) + encode_entry(s.last())
    }
}

/// One `parent` line for each parent, in order.
pub open spec fn encode_parents(p: Seq<ObjectId>) -> Seq<u8>
    decreases p.len(),
{
    if p.len() == 0 {
        Seq::empty()
    } else {
        encode_parents(p.drop_last()) + seq![112u8, 97, 114, 101, 110, 116, 32] + hex_of(
            p.last().bytes@,
        ) + seq![10u8]
    }
}

/// A commit: the `tree` line, the `parent` lines, the `author` and
/// `committer` lines, an empty line, and the message.
pub open spec fn encode_commit(c: CommitView) -> Seq<u8> {
    seq![116u8, 114, 101, 101, 32] + hex_of(c.tree.bytes@) + seq![10u8] + encode_parents(c.parents)
        + seq![97u8, 117, 116, 104, 111, 114, 32] + c.author + seq![10u8] + seq![
        99u8,
        111,
        109,
        109,
        105,
        116,
        116,
        101,
        114,
        32,
    ] + c.committer + seq![10u8, 10u8] + c.message
}

/// The bytes that stand for an object's content.
pub open spec fn encode(o: ObjectView) -> Seq<u8> {
    match o {
        ObjectView::Blob(data) => data,
        ObjectView::Tree(entries) => encode_tree(entries),
        ObjectView::Commit(c) => encode_commit(c),
    }
}

fn push_id(out: &mut Vec<u8>, id: &ObjectId)
    ensures
        final(out)@ == old(out)@ + id.bytes@,
{
    let mut i: usize = 0;
    while i < 20
        invariant
            i <= 20,
            out@ == old(out)@ + id.bytes@.take(i as int),
        decreases 20 - i,
    {
        out.push(id.bytes[i]);
        proof {
            assert(out@ =~= old(out)@ + id.bytes@.take(i as int + 1));
        }
        i += 1;
    }
    proof {
        assert(id.bytes@.take(20) =~= id.bytes@);
    }
}

fn push_mode(out: &mut Vec<u8>, kind: EntryKind)
    ensures
        final(out)@ == old(out)@ + mode_bytes(kind),
{
    let word: Vec<u8> = match kind {
        EntryKind::Tree => vec![52u8, 48, 48, 48, 48],
        EntryKind::Blob => vec![49u8, 48, 48, 54, 52, 52],
        EntryKind::BlobExecutable => vec![49u8, 48, 48, 55, 53, 53],
        EntryKind::Link => vec![49u8, 50, 48, 48, 48, 48],
    };
    proof {
        assert(word@ =~= mode_bytes(kind));
    }
    append_bytes(out, &word);
}

fn push_entry(out: &mut Vec<u8>, e: &TreeEntry)
    ensures
        final(out)@ == old(out)@ + encode_entry(e@),
{
    push_mode(out, e.kind);
    out.push(32u8);
    append_bytes(out, &e.name);
    out.push(0u8);
    push_id(out, &e.id);
    proof {
        assert(out@ =~= old(out)@ + encode_entry(e@));
    }
}

/// Encodes a tree.
pub fn encode_tree_bytes(entries: &Vec<TreeEntry>) -> (r: Vec<u8>)
    ensures
        r@ == encode_tree(entries_view(entries@)),
{
    let ghost s = entries_view(entries@);
    let mut out: Vec<u8> = Vec::new();
    let mut i: usize = 0;
    while i < entries.len()
        invariant
            i <= entries.len(),
            s == entries_view(entries@),
            out@ == encode_tree(s.take(i as int)),
        decreases entries.len() - i,
    {
        push_entry(&mut out, &entries[i]);
        proof {
            let t = s.take(i as int + 1);
            assert(t.drop_last() =~= s.take(i as int));
            assert(t.last() == entries@[i as int]@);
        }
        i += 1;
    }
    proof {
        assert(s.take(s.len() as int) =~= s);
    }
    out
}

fn push_parents(out: &mut Vec<u8>, parents: &Vec<ObjectId>)
    ensures
        final(out)@ == old(out)@ + encode_parents(parents@),
{
    let mut i: usize = 0;
    proof {
        assert(out@ =~= old(out)@ + encode_parents(parents@.take(0)));
    }
    while i < parents.len()
        invariant
            i <= parents.len(),
            out@ == old(out)@ + encode_parents(parents@.take(i as int)),
        decreases parents.len() - i,
    {
        let ghost before = out@;
        let word: Vec<u8> = vec![112u8, 97, 114, 101, 110, 116, 32];
        append_bytes(out, &word);
        let hex = parents[i].to_hex();
        append_bytes(out, &hex);
        out.push(10u8);
        proof {
            let t = parents@.take(i as int + 1);
            assert(t.drop_last() =~= parents@.take(i as int));
            assert(t.last() == parents@[i as int]);
            assert(word@ =~= seq![112u8, 97, 114, 101, 110, 116, 32]);
            assert(out@ =~= old(out)@ + encode_parents(t));
        }
        i += 1;
    }
    proof {
        assert(parents@.take(parents@.len() as int) =~= parents@);
    }
}

/// Encodes a commit.
pub fn encode_commit_bytes(c: &Commit) -> (r: Vec<u8>)
    ensures
        r@ == encode_commit(c@),
{
    let mut out: Vec<u8> = Vec::new();
    let tree_word: Vec<u8> = vec![116u8, 114, 101, 101, 32];
    append_bytes(&mut out, &tree_word);
    let hex = c.tree.to_hex();
    append_bytes(&mut out, &hex);
    out.push(10u8);
    push_parents(&mut out, &c.parents);
    let author_word: Vec<u8> = vec![97u8, 117, 116, 104, 111, 114, 32];
    append_bytes(&mut out, &author_word);
    append_bytes(&mut out, &c.author);
    out.push(10u8);
    let committer_word: Vec<u8> = vec![99u8, 111, 109, 109, 105, 116, 116, 101, 114, 32];
    append_bytes(&mut out, &committer_word);
    append_bytes(&mut out, &c.committer);
    out.push(10u8);
    out.push(10u8);
    append_bytes(&mut out, &c.message);
    proof {
        assert(tree_word@ =~= seq![116u8, 114, 101, 101, 32]);
        assert(author_word@ =~= seq![97u8, 117, 116, 104, 111, 114, 32]);
        assert(committer_word@ =~= seq![99u8, 111, 109, 109, 105, 116, 116, 101, 114, 32]);
        assert(out@ =~= encode_commit(c@));
    }
    out
}

/// Encodes an object.
pub fn encode_object(o: &Object) -> (r: Vec<u8>)
    ensures
        r@ == encode(o@),
{
    match o {
        Object::Blob(data) => crate::bytes::copy_bytes(data),
        Object::Tree(entries) => encode_tree_bytes(entries),
        Object::Commit(c) => encode_commit_bytes(c),
    }
}

} // verus!

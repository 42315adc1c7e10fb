use stack_rewrite::error::Error;
use stack_rewrite::object::{Commit, EntryKind, Object};
use stack_rewrite::object_id::ObjectId;
use stack_rewrite::patch::{join, revert_content, revert_lines, split_lines, HunkHeader};
use stack_rewrite::store::ObjectStore;
use stack_rewrite::subtract::{
    copy_spec, create_tree_without_diff, source_trees, subtract_from_tree, ChangesSource, DiffSpec,
};
use stack_rewrite::tree_path::{entry_at_path, path_is_valid, split_segments, write_path};

fn blob(store: &mut ObjectStore, content: &str) -> ObjectId {
    store.put(Object::Blob(content.as_bytes().to_vec())).unwrap()
}

fn path(text: &str) -> Vec<Vec<u8>> {
    split_segments(&text.as_bytes().to_vec())
}

/// Builds a tree from slash-separated paths, one edit after another.
fn build(store: &mut ObjectStore, files: &[(&str, &str)]) -> ObjectId {
    let mut root = None;
    for (name, content) in files {
        let id = blob(store, content);
        root = write_path(store, root, &path(name), 0, Some((EntryKind::Blob, id))).unwrap();
    }
    match root {
        Some(id) => id,
        None => store.put(Object::Tree(vec![])).unwrap(),
    }
}

fn commit(store: &mut ObjectStore, tree: ObjectId, parents: Vec<ObjectId>) -> ObjectId {
    let who = b"A <a@example.com> 0 +0000".to_vec();
    store
        .put(Object::Commit(Commit { tree, parents, author: who.clone(), committer: who, message: b"m".to_vec() }))
        .unwrap()
}

fn whole(p: &str) -> DiffSpec {
    DiffSpec { path: p.as_bytes().to_vec(), hunk_headers: vec![] }
}

fn hunk(old_start: u32, old_lines: u32, new_start: u32, new_lines: u32) -> HunkHeader {
    HunkHeader { old_start, old_lines, new_start, new_lines }
}

fn lines(text: &str) -> Vec<Vec<u8>> {
    split_lines(&text.as_bytes().to_vec())
}

fn content_at(store: &ObjectStore, root: ObjectId, p: &str) -> Option<String> {
    entry_at_path(store, Some(root), &path(p), 0)
        .map(|(_, id)| String::from_utf8(store.blob(&id).unwrap().clone()).unwrap())
}

#[test]
fn paths_split_at_slashes() {
    assert_eq!(path("a/b/c.txt"), vec![b"a".to_vec(), b"b".to_vec(), b"c.txt".to_vec()]);
    assert_eq!(path("a.txt"), vec![b"a.txt".to_vec()]);
    assert_eq!(path(""), vec![b"".to_vec()]);
    assert_eq!(path("a//b"), vec![b"a".to_vec(), b"".to_vec(), b"b".to_vec()]);
    assert_eq!(path("/a"), vec![b"".to_vec(), b"a".to_vec()]);
    assert_eq!(path("a/"), vec![b"a".to_vec(), b"".to_vec()]);
    assert!(path_is_valid(&path("a/b/c.txt")));
    assert!(!path_is_valid(&path("")));
    assert!(!path_is_valid(&path("a//b")));
    assert!(!path_is_valid(&path("a/")));
    assert!(!path_is_valid(&vec![]));
    assert!(!path_is_valid(&vec![b"a\0b".to_vec()]));
}

#[test]
fn nested_writes_can_be_read_back() {
    let mut store = ObjectStore::new();
    let root = build(&mut store, &[("src/lib/a.rs", "a"), ("src/main.rs", "m"), ("README", "r")]);
    assert_eq!(content_at(&store, root, "src/lib/a.rs"), Some("a".to_string()));
    assert_eq!(content_at(&store, root, "src/main.rs"), Some("m".to_string()));
    assert_eq!(content_at(&store, root, "README"), Some("r".to_string()));
    assert_eq!(content_at(&store, root, "src/lib/b.rs"), None);
    assert_eq!(content_at(&store, root, "README/x"), None);
    let dir = entry_at_path(&store, Some(root), &path("src/lib"), 0).unwrap();
    assert_eq!(dir.0, EntryKind::Tree);
    assert_eq!(entry_at_path(&store, None, &path("README"), 0), None);
    assert_eq!(entry_at_path(&store, Some(root), &path("src/main.rs"), 1), None);
    assert_eq!(entry_at_path(&store, Some(root), &path("x/README"), 1).map(|e| e.0), Some(EntryKind::Blob));
}

#[test]
fn an_edit_renews_the_directories_above_it_and_shares_the_rest() {
    let mut store = ObjectStore::new();
    let root = build(&mut store, &[("src/lib/a.rs", "a"), ("src/main.rs", "m"), ("docs/x.md", "x")]);
    let new = blob(&mut store, "changed");
    let edited = write_path(&mut store, Some(root), &path("src/lib/a.rs"), 0, Some((EntryKind::Blob, new)))
        .unwrap()
        .unwrap();
    assert_ne!(edited, root);
    let at = |store: &ObjectStore, r: ObjectId, p: &str| entry_at_path(store, Some(r), &path(p), 0).unwrap().1;
    assert_ne!(at(&store, edited, "src"), at(&store, root, "src"));
    assert_ne!(at(&store, edited, "src/lib"), at(&store, root, "src/lib"));
    assert_eq!(at(&store, edited, "docs"), at(&store, root, "docs"));
    assert_eq!(at(&store, edited, "src/main.rs"), at(&store, root, "src/main.rs"));
    assert_eq!(content_at(&store, edited, "src/lib/a.rs"), Some("changed".to_string()));
    let mut expected = ObjectStore::new();
    assert_eq!(
        edited,
        build(&mut expected, &[("docs/x.md", "x"), ("src/main.rs", "m"), ("src/lib/a.rs", "changed")])
    );
}

#[test]
fn removing_the_last_file_removes_its_directories() {
    let mut store = ObjectStore::new();
    let root = build(&mut store, &[("a/b/c", "c"), ("top", "t")]);
    let without = write_path(&mut store, Some(root), &path("a/b/c"), 0, None).unwrap().unwrap();
    assert_eq!(entry_at_path(&store, Some(without), &path("a"), 0), None);
    let mut expected = ObjectStore::new();
    assert_eq!(without, build(&mut expected, &[("top", "t")]));
    let nothing = write_path(&mut store, Some(without), &path("top"), 0, None).unwrap();
    assert_eq!(nothing, None);
}

#[test]
fn removing_what_is_not_there_changes_nothing() {
    let mut store = ObjectStore::new();
    let root = build(&mut store, &[("a/b", "b"), ("top", "t")]);
    let len = store.len();
    assert_eq!(write_path(&mut store, Some(root), &path("a/x"), 0, None), Ok(Some(root)));
    assert_eq!(write_path(&mut store, Some(root), &path("top/x"), 0, None), Ok(Some(root)));
    assert_eq!(write_path(&mut store, Some(root), &path("no/such/dir"), 0, None), Ok(Some(root)));
    assert_eq!(write_path(&mut store, Some(root), &path("nope"), 0, None), Ok(Some(root)));
    assert_eq!(write_path(&mut store, None, &path("nope"), 0, None), Ok(None));
    assert_eq!(store.len(), len);
}

#[test]
fn a_file_in_the_way_gives_way_to_a_directory() {
    let mut store = ObjectStore::new();
    let root = build(&mut store, &[("a", "file")]);
    let id = blob(&mut store, "deep");
    let edited =
        write_path(&mut store, Some(root), &path("a/b"), 0, Some((EntryKind::Blob, id))).unwrap().unwrap();
    assert_eq!(content_at(&store, edited, "a/b"), Some("deep".to_string()));
    assert_eq!(entry_at_path(&store, Some(edited), &path("a"), 0).unwrap().0, EntryKind::Tree);
}

#[test]
fn writing_a_missing_blob_fails() {
    let mut store = ObjectStore::new();
    let root = build(&mut store, &[("a", "file")]);
    let r = write_path(&mut store, Some(root), &path("b"), 0, Some((EntryKind::Blob, ObjectId::null())));
    assert_eq!(r, Err(Error::NotFound));
    let r = write_path(&mut store, Some(root), &path(""), 0, Some((EntryKind::Blob, root)));
    assert_eq!(r, Err(Error::StorageFault));
}

#[test]
fn lines_split_and_join() {
    assert_eq!(lines("a\nb\n"), vec![b"a\n".to_vec(), b"b\n".to_vec()]);
    assert_eq!(lines("a\nb"), vec![b"a\n".to_vec(), b"b".to_vec()]);
    assert_eq!(lines(""), Vec::<Vec<u8>>::new());
    assert_eq!(lines("\n\n"), vec![b"\n".to_vec(), b"\n".to_vec()]);
    assert_eq!(lines("x"), vec![b"x".to_vec()]);
    for text in ["", "a", "a\n", "a\nb", "\n\nx\n\n", "one\ntwo\nthree\n"] {
        assert_eq!(join(&lines(text)), text.as_bytes().to_vec());
    }
}

#[test]
fn a_hunk_is_taken_out_where_it_stands() {
    let old = lines("a\nb\nc\nd\n");
    let new = lines("a\nB1\nB2\nc\nd\n");
    let r = revert_lines(&old, &new, new.clone(), &vec![hunk(2, 1, 2, 2)], 0);
    assert_eq!(r, Some(old.clone()));
    // an addition: the old side covers no line and stands after line one
    let added = lines("a\nx\nb\nc\nd\n");
    assert_eq!(revert_lines(&old, &added, added.clone(), &vec![hunk(1, 0, 2, 1)], 0), Some(old.clone()));
    // a deletion: the new side covers no line
    let deleted = lines("a\nc\nd\n");
    assert_eq!(revert_lines(&old, &deleted, deleted.clone(), &vec![hunk(2, 1, 1, 0)], 0), Some(old.clone()));
    // no hunks: nothing to do
    assert_eq!(revert_lines(&old, &new, new.clone(), &vec![], 0), Some(new.clone()));
}

#[test]
fn several_hunks_are_taken_out_in_order() {
    let old = lines("1\n2\n3\n4\n5\n6\n");
    let new = lines("1\ntwo\ntwo and a half\n3\n4\n5\nsix\n");
    let both = vec![hunk(2, 1, 2, 2), hunk(6, 1, 7, 1)];
    assert_eq!(revert_lines(&old, &new, new.clone(), &both, 0), Some(old.clone()));
    let first = revert_lines(&old, &new, new.clone(), &vec![hunk(2, 1, 2, 2)], 0).unwrap();
    assert_eq!(join(&first), b"1\n2\n3\n4\n5\nsix\n".to_vec());
    let second = revert_lines(&old, &new, new.clone(), &vec![hunk(6, 1, 7, 1)], 0).unwrap();
    assert_eq!(join(&second), b"1\ntwo\ntwo and a half\n3\n4\n5\n6\n".to_vec());
}

#[test]
fn the_tolerance_bounds_how_far_a_hunk_may_have_drifted() {
    let old = lines("a\nb\nc\n");
    let new = lines("a\nB\nc\n");
    // in the current content two lines were added on top: the hunk's lines stand at line four
    let current = lines("x\ny\na\nB\nc\n");
    let h = vec![hunk(2, 1, 2, 1)];
    assert_eq!(revert_lines(&old, &new, current.clone(), &h, 0), None);
    assert_eq!(revert_lines(&old, &new, current.clone(), &h, 1), None);
    let found = revert_lines(&old, &new, current.clone(), &h, 2).unwrap();
    assert_eq!(join(&found), b"x\ny\na\nb\nc\n".to_vec());
    // drift towards the start is found as well
    let shorter = lines("B\nc\n");
    let found = revert_lines(&old, &new, shorter, &h, 1).unwrap();
    assert_eq!(join(&found), b"b\nc\n".to_vec());
}

#[test]
fn the_nearest_match_wins_and_the_earlier_of_two() {
    let old = lines("o\n");
    let new = lines("n\n");
    let current = lines("n\nx\nn\nx\nn\n");
    // expected at line three
    let h = vec![hunk(1, 1, 3, 1)];
    let exact = revert_lines(&old, &lines("x\nx\nn\n"), current.clone(), &h, 5).unwrap();
    assert_eq!(join(&exact), b"n\nx\no\nx\nn\n".to_vec());
    // expected at line two, where there is none: lines one and three are equally near
    let h = vec![hunk(1, 1, 2, 1)];
    let tie = revert_lines(&old, &lines("x\nn\n"), current.clone(), &h, 5).unwrap();
    assert_eq!(join(&tie), b"o\nx\nn\nx\nn\n".to_vec());
}

#[test]
fn hunks_that_do_not_fit_are_refused() {
    let old = lines("a\nb\n");
    let new = lines("a\nB\n");
    assert_eq!(revert_lines(&old, &new, new.clone(), &vec![hunk(2, 2, 2, 1)], 3), None);
    assert_eq!(revert_lines(&old, &new, new.clone(), &vec![hunk(2, 1, 2, 2)], 3), None);
    assert_eq!(revert_lines(&old, &new, new.clone(), &vec![hunk(0, 1, 2, 1)], 3), None);
    assert_eq!(revert_lines(&old, &new, new.clone(), &vec![hunk(2, 1, 0, 1)], 3), None);
    assert_eq!(revert_lines(&old, &new, new.clone(), &vec![hunk(3, 0, 2, 1)], 3), None);
    assert_eq!(revert_lines(&old, &new, new.clone(), &vec![hunk(u32::MAX, u32::MAX, u32::MAX, u32::MAX)], 3), None);
    assert_eq!(
        revert_content(&b"a\nb\n".to_vec(), &b"a\nB\n".to_vec(), &b"a\nB\n".to_vec(), &vec![hunk(2, 1, 2, 1)], u32::MAX),
        Some(b"a\nb\n".to_vec())
    );
}

#[test]
fn whole_changes_go_back_to_what_was_before() {
    let mut store = ObjectStore::new();
    let before = build(&mut store, &[("keep", "k"), ("gone", "g"), ("dir/edited", "old"), ("dir/same", "s")]);
    let after = build(&mut store, &[("keep", "k"), ("new", "n"), ("dir/edited", "new"), ("dir/same", "s")]);
    let source = ChangesSource::Tree { after_id: after, before_id: before };
    let changes = vec![whole("gone"), whole("new"), whole("dir/edited")];
    let (tree, rejected) = create_tree_without_diff(&mut store, source, &changes, 0).unwrap();
    assert_eq!(rejected, vec![]);
    assert_eq!(tree, before);
    // one change only
    let (tree, rejected) = create_tree_without_diff(&mut store, source, &vec![whole("dir/edited")], 0).unwrap();
    assert_eq!(rejected, vec![]);
    assert_eq!(content_at(&store, tree, "dir/edited"), Some("old".to_string()));
    assert_eq!(content_at(&store, tree, "new"), Some("n".to_string()));
    assert_eq!(content_at(&store, tree, "gone"), None);
    assert_eq!(
        entry_at_path(&store, Some(tree), &path("dir/same"), 0),
        entry_at_path(&store, Some(after), &path("dir/same"), 0)
    );
}

#[test]
fn requests_that_cannot_be_met_are_reported_in_order() {
    let mut store = ObjectStore::new();
    let before = build(&mut store, &[("keep", "k"), ("f", "a\nb\n")]);
    let after = build(&mut store, &[("keep", "k"), ("f", "a\nB\n"), ("new", "n")]);
    let source = ChangesSource::Tree { after_id: after, before_id: before };
    let bad_hunk = DiffSpec { path: b"f".to_vec(), hunk_headers: vec![hunk(9, 1, 9, 1)] };
    let hunk_of_addition = DiffSpec { path: b"new".to_vec(), hunk_headers: vec![hunk(1, 0, 1, 1)] };
    let changes = vec![
        whole("keep"),
        whole("missing"),
        whole("new"),
        whole("new"),
        bad_hunk.clone(),
        whole("a//b"),
        hunk_of_addition.clone(),
    ];
    let (tree, rejected) = create_tree_without_diff(&mut store, source, &changes, 0).unwrap();
    assert_eq!(
        rejected,
        vec![whole("keep"), whole("missing"), whole("new"), bad_hunk, whole("a//b"), hunk_of_addition]
    );
    assert_eq!(content_at(&store, tree, "new"), None);
    assert_eq!(content_at(&store, tree, "f"), Some("a\nB\n".to_string()));
    assert_eq!(copy_spec(&whole("x")), whole("x"));
}

#[test]
fn hunks_are_taken_out_of_a_file_in_a_tree() {
    let mut store = ObjectStore::new();
    let before = build(&mut store, &[("dir/f", "1\n2\n3\n4\n5\n6\n")]);
    let after = build(&mut store, &[("dir/f", "1\ntwo\n3\n4\n5\nsix\n")]);
    let source = ChangesSource::Tree { after_id: after, before_id: before };
    let first = DiffSpec { path: b"dir/f".to_vec(), hunk_headers: vec![hunk(2, 1, 2, 1)] };
    let (tree, rejected) = create_tree_without_diff(&mut store, source, &vec![first], 0).unwrap();
    assert_eq!(rejected, vec![]);
    assert_eq!(content_at(&store, tree, "dir/f"), Some("1\n2\n3\n4\n5\nsix\n".to_string()));
    let both = DiffSpec { path: b"dir/f".to_vec(), hunk_headers: vec![hunk(2, 1, 2, 1), hunk(6, 1, 6, 1)] };
    let (tree, rejected) = create_tree_without_diff(&mut store, source, &vec![both], 0).unwrap();
    assert_eq!(rejected, vec![]);
    assert_eq!(tree, before);
}

#[test]
fn the_changes_of_a_commit_are_those_against_its_first_parent() {
    let mut store = ObjectStore::new();
    let t0 = build(&mut store, &[("a", "1")]);
    let t1 = build(&mut store, &[("a", "1"), ("b", "2")]);
    let root = commit(&mut store, t0, vec![]);
    let child = commit(&mut store, t1, vec![root]);
    assert_eq!(source_trees(&store, ChangesSource::Commit { id: child }), Ok((Some(t0), t1)));
    assert_eq!(source_trees(&store, ChangesSource::Commit { id: root }), Ok((None, t0)));
    assert_eq!(source_trees(&store, ChangesSource::Commit { id: t0 }), Err(Error::NotFound));
    assert_eq!(
        source_trees(&store, ChangesSource::Tree { after_id: t1, before_id: root }),
        Err(Error::NotFound)
    );
    let (tree, rejected) =
        create_tree_without_diff(&mut store, ChangesSource::Commit { id: child }, &vec![whole("b"), whole("a")], 0)
            .unwrap();
    assert_eq!(tree, t0);
    assert_eq!(rejected, vec![whole("a")]);
    // a commit without parents added everything it has
    let (tree, rejected) =
        create_tree_without_diff(&mut store, ChangesSource::Commit { id: root }, &vec![whole("a")], 0).unwrap();
    assert_eq!(rejected, vec![]);
    assert_eq!(store.tree(&tree).unwrap().len(), 0);
    let len = store.len();
    let r = create_tree_without_diff(&mut store, ChangesSource::Commit { id: ObjectId::null() }, &vec![], 0);
    assert_eq!(r, Err(Error::NotFound));
    assert_eq!(store.len(), len);
}

#[test]
fn separate_requests_for_one_file_are_met_one_after_another() {
    let mut store = ObjectStore::new();
    let before = build(&mut store, &[("f", "1\n2\n3\n4\n5\n6\n")]);
    let after = build(&mut store, &[("f", "1\ntwo\n3\n4\n5\nsix\n")]);
    let source = ChangesSource::Tree { after_id: after, before_id: before };
    let first = DiffSpec { path: b"f".to_vec(), hunk_headers: vec![hunk(2, 1, 2, 1)] };
    let second = DiffSpec { path: b"f".to_vec(), hunk_headers: vec![hunk(6, 1, 6, 1)] };
    let (tree, rejected) = create_tree_without_diff(&mut store, source, &vec![first.clone(), second], 0).unwrap();
    assert_eq!(rejected, vec![]);
    assert_eq!(tree, before);
    // the same hunk cannot be taken out twice
    let (tree, rejected) =
        create_tree_without_diff(&mut store, source, &vec![first.clone(), first.clone()], 0).unwrap();
    assert_eq!(rejected, vec![first]);
    assert_eq!(content_at(&store, tree, "f"), Some("1\n2\n3\n4\n5\nsix\n".to_string()));
}

#[test]
fn changes_are_taken_out_of_another_tree_within_the_tolerance() {
    let mut store = ObjectStore::new();
    let before = build(&mut store, &[("f", "a\nb\nc\n"), ("g", "old")]);
    let after = build(&mut store, &[("f", "a\nB\nc\n"), ("g", "new")]);
    let drifted = build(&mut store, &[("f", "x\ny\na\nB\nc\n"), ("g", "other")]);
    let source = ChangesSource::Tree { after_id: after, before_id: before };
    let change = DiffSpec { path: b"f".to_vec(), hunk_headers: vec![hunk(2, 1, 2, 1)] };

    let (tree, rejected) = subtract_from_tree(&mut store, drifted, source, &vec![change.clone()], 1).unwrap();
    assert_eq!(rejected, vec![change.clone()]);
    assert_eq!(tree, drifted);

    let (tree, rejected) = subtract_from_tree(&mut store, drifted, source, &vec![change.clone()], 2).unwrap();
    assert_eq!(rejected, vec![]);
    assert_eq!(content_at(&store, tree, "f"), Some("x\ny\na\nb\nc\n".to_string()));
    assert_eq!(content_at(&store, tree, "g"), Some("other".to_string()));

    // a whole change is only taken out of a tree that has what the change put
    let (tree, rejected) = subtract_from_tree(&mut store, drifted, source, &vec![whole("g")], 9).unwrap();
    assert_eq!(rejected, vec![whole("g")]);
    assert_eq!(tree, drifted);
    let (tree, rejected) = subtract_from_tree(&mut store, after, source, &vec![whole("g")], 0).unwrap();
    assert_eq!(rejected, vec![]);
    assert_eq!(content_at(&store, tree, "g"), Some("old".to_string()));

    let len = store.len();
    let r = subtract_from_tree(&mut store, ObjectId::null(), source, &vec![change], 2);
    assert_eq!(r, Err(Error::NotFound));
    assert_eq!(store.len(), len);
}

use stack_rewrite::error::Error;
use stack_rewrite::mapping::{mapped, rebase_mapping_with_overrides};
use stack_rewrite::merge::{apply, changes_between, merge, resolve_slot, Change};
use stack_rewrite::tree_path::{split_segments, write_path};
use stack_rewrite::object::{Commit, EntryKind, Object, TreeEntry};
use stack_rewrite::object_id::ObjectId;
use stack_rewrite::rebase::{
    replace_pick_with_commit, replay_commit, Rebase, RebaseOutput, RebaseStep, ReferenceOutcome,
};
use stack_rewrite::stack::{Branch, Stack, StackId};
use stack_rewrite::store::ObjectStore;

fn signature() -> Vec<u8> {
    b"A <a@example.com> 0 +0000".to_vec()
}

fn blob(store: &mut ObjectStore, content: &str) -> ObjectId {
    store.put(Object::Blob(content.as_bytes().to_vec())).unwrap()
}

fn tree(store: &mut ObjectStore, files: &[(&str, &str)]) -> ObjectId {
    let mut entries = Vec::new();
    for (name, content) in files {
        let id = blob(store, content);
        entries.push(TreeEntry { name: name.as_bytes().to_vec(), kind: EntryKind::Blob, id });
    }
    store.put(Object::Tree(entries)).unwrap()
}

fn commit(store: &mut ObjectStore, tree: ObjectId, parents: Vec<ObjectId>, message: &str) -> ObjectId {
    store
        .put(Object::Commit(Commit {
            tree,
            parents,
            author: signature(),
            committer: signature(),
            message: message.as_bytes().to_vec(),
        }))
        .unwrap()
}

fn pick(id: ObjectId) -> RebaseStep {
    RebaseStep::Pick { commit_id: id }
}

fn reference(name: &str) -> RebaseStep {
    RebaseStep::Reference { name: name.to_string() }
}

fn slot(n: u8) -> Option<(EntryKind, ObjectId)> {
    let mut id = ObjectId::null();
    id.bytes[0] = n;
    Some((EntryKind::Blob, id))
}

/// base <- c1 <- c2 <- c3, each adding one file.
fn history(store: &mut ObjectStore) -> (ObjectId, ObjectId, ObjectId, ObjectId) {
    let t0 = tree(store, &[]);
    let t1 = tree(store, &[("a", "1")]);
    let t2 = tree(store, &[("a", "1"), ("b", "2")]);
    let t3 = tree(store, &[("a", "1"), ("b", "2"), ("c", "3")]);
    let base = commit(store, t0, vec![], "base");
    let c1 = commit(store, t1, vec![base], "one");
    let c2 = commit(store, t2, vec![c1], "two");
    let c3 = commit(store, t3, vec![c2], "three");
    (base, c1, c2, c3)
}

#[test]
fn resolve_takes_the_side_that_changed() {
    assert_eq!(resolve_slot(slot(1), slot(1), slot(2)), Some(slot(2)));
    assert_eq!(resolve_slot(slot(1), slot(2), slot(1)), Some(slot(2)));
    assert_eq!(resolve_slot(slot(1), slot(2), slot(2)), Some(slot(2)));
    assert_eq!(resolve_slot(slot(1), slot(1), None), Some(None));
    assert_eq!(resolve_slot(None, None, slot(3)), Some(slot(3)));
    assert_eq!(resolve_slot(None, slot(3), None), Some(slot(3)));
    assert_eq!(resolve_slot(None, None, None), Some(None));
    assert_eq!(resolve_slot(slot(1), slot(2), slot(3)), None);
    assert_eq!(resolve_slot(slot(1), None, slot(3)), None);
    assert_eq!(resolve_slot(None, slot(2), slot(3)), None);
}

#[test]
fn merge_combines_changes_to_different_names() {
    let mut store = ObjectStore::new();
    let base = tree(&mut store, &[("a", "1"), ("b", "2")]);
    let ours = tree(&mut store, &[("a", "1"), ("b", "2"), ("o", "ours")]);
    let theirs = tree(&mut store, &[("a", "changed"), ("t", "theirs")]);
    let merged = merge(&mut store, Some(base), ours, theirs).unwrap();
    let mut expected = ObjectStore::new();
    assert_eq!(merged, tree(&mut expected, &[("a", "changed"), ("o", "ours"), ("t", "theirs")]));
}

#[test]
fn merge_without_a_base_treats_it_as_empty() {
    let mut store = ObjectStore::new();
    let ours = tree(&mut store, &[("a", "1")]);
    let theirs = tree(&mut store, &[("b", "2")]);
    let merged = merge(&mut store, None, ours, theirs).unwrap();
    let mut expected = ObjectStore::new();
    assert_eq!(merged, tree(&mut expected, &[("a", "1"), ("b", "2")]));
}

#[test]
fn merge_takes_a_side_whole_when_the_other_did_not_move() {
    let mut store = ObjectStore::new();
    let base = tree(&mut store, &[("a", "1")]);
    let other = tree(&mut store, &[("a", "2")]);
    let len = store.len();
    assert_eq!(merge(&mut store, Some(base), base, other), Ok(other));
    assert_eq!(merge(&mut store, Some(base), other, base), Ok(other));
    assert_eq!(merge(&mut store, None, other, other), Ok(other));
    assert_eq!(store.len(), len);
}

#[test]
fn merge_reports_conflicts_and_missing_trees() {
    let mut store = ObjectStore::new();
    let base = tree(&mut store, &[("a", "1")]);
    let ours = tree(&mut store, &[("a", "2")]);
    let theirs = tree(&mut store, &[("a", "3")]);
    let len = store.len();
    assert_eq!(merge(&mut store, Some(base), ours, theirs), Err(Error::ReplayConflict));
    assert_eq!(merge(&mut store, Some(ObjectId::null()), ours, theirs), Err(Error::NotFound));
    assert_eq!(merge(&mut store, Some(base), ObjectId::null(), theirs), Err(Error::NotFound));
    assert_eq!(merge(&mut store, Some(base), ours, ObjectId::null()), Err(Error::NotFound));
    assert_eq!(store.len(), len);
}

fn nested(store: &mut ObjectStore, files: &[(&str, &str)]) -> ObjectId {
    let mut root = None;
    for (name, content) in files {
        let id = blob(store, content);
        let path = split_segments(&name.as_bytes().to_vec());
        root = write_path(store, root, &path, 0, Some((EntryKind::Blob, id))).unwrap();
    }
    root.unwrap()
}

fn change(store: &mut ObjectStore, path: &str, was: Option<&str>, is: Option<&str>) -> Change {
    Change {
        path: split_segments(&path.as_bytes().to_vec()),
        was: was.map(|c| (EntryKind::Blob, blob(store, c))),
        is: is.map(|c| (EntryKind::Blob, blob(store, c))),
    }
}

#[test]
fn the_changes_between_trees_are_found_file_by_file() {
    let mut store = ObjectStore::new();
    let before = nested(
        &mut store,
        &[("a", "1"), ("dir/same", "s"), ("dir/edited", "old"), ("dir/sub/gone", "g"), ("turns", "file")],
    );
    let after = nested(
        &mut store,
        &[("a", "1"), ("dir/same", "s"), ("dir/edited", "new"), ("fresh/deep/file", "f"), ("turns/into", "dir"), ("z", "26")],
    );
    let turns_was = store.tree(&before).unwrap().iter().find(|e| e.name == b"turns".to_vec()).unwrap().clone();
    let turns_is = store.tree(&after).unwrap().iter().find(|e| e.name == b"turns".to_vec()).unwrap().clone();
    let found = changes_between(&store, Some(before), Some(after));
    let expected = vec![
        change(&mut store, "dir/edited", Some("old"), Some("new")),
        change(&mut store, "dir/sub/gone", Some("g"), None),
        Change {
            path: vec![b"turns".to_vec()],
            was: Some((turns_was.kind, turns_was.id)),
            is: Some((turns_is.kind, turns_is.id)),
        },
        change(&mut store, "fresh/deep/file", None, Some("f")),
        change(&mut store, "z", None, Some("26")),
    ];
    assert_eq!(found, expected);
    assert_eq!(changes_between(&store, Some(before), Some(before)), vec![]);
    assert_eq!(changes_between(&store, None, None), vec![]);
    let all = changes_between(&store, None, Some(before));
    let paths: Vec<Vec<Vec<u8>>> = all.iter().map(|c| c.path.clone()).collect();
    assert_eq!(
        paths,
        vec![
            vec![b"a".to_vec()],
            vec![b"dir".to_vec(), b"edited".to_vec()],
            vec![b"dir".to_vec(), b"same".to_vec()],
            vec![b"dir".to_vec(), b"sub".to_vec(), b"gone".to_vec()],
            vec![b"turns".to_vec()],
        ]
    );
    assert!(all.iter().all(|c| c.was.is_none() && c.is.is_some()));
    let none = changes_between(&store, Some(before), None);
    assert_eq!(none.len(), 5);
    assert!(none.iter().all(|c| c.was.is_some() && c.is.is_none()));
}

#[test]
fn merge_combines_changes_below_one_directory() {
    let mut store = ObjectStore::new();
    let base = nested(&mut store, &[("src/a", "1"), ("src/b", "2"), ("src/deep/c", "3")]);
    let ours = nested(&mut store, &[("src/a", "ours"), ("src/b", "2"), ("src/deep/c", "3")]);
    let theirs = nested(&mut store, &[("src/a", "1"), ("src/b", "2"), ("src/deep/c", "theirs"), ("src/deep/d", "4")]);
    let merged = merge(&mut store, Some(base), ours, theirs).unwrap();
    let mut expected = ObjectStore::new();
    assert_eq!(
        merged,
        nested(
            &mut expected,
            &[("src/a", "ours"), ("src/b", "2"), ("src/deep/c", "theirs"), ("src/deep/d", "4")]
        )
    );
}

#[test]
fn merge_removes_what_they_removed_and_keeps_what_we_added() {
    let mut store = ObjectStore::new();
    let base = nested(&mut store, &[("dir/x", "x"), ("dir/y", "y"), ("top", "t")]);
    let ours = nested(&mut store, &[("dir/x", "x"), ("dir/y", "y"), ("dir/z", "z"), ("top", "t")]);
    let theirs = nested(&mut store, &[("top", "t")]);
    let merged = merge(&mut store, Some(base), ours, theirs).unwrap();
    let mut expected = ObjectStore::new();
    assert_eq!(merged, nested(&mut expected, &[("dir/z", "z"), ("top", "t")]));
    // where nothing is left the empty tree is the result
    let only = nested(&mut store, &[("f", "1")]);
    let other = nested(&mut store, &[("g", "2")]);
    let both = nested(&mut store, &[("f", "1"), ("g", "2")]);
    // they removed f, we removed g
    let merged = merge(&mut store, Some(both), only, other).unwrap();
    assert_eq!(store.tree(&merged).unwrap().len(), 0);
}

#[test]
fn two_edits_of_one_file_conflict_wherever_it_is() {
    let mut store = ObjectStore::new();
    let base = nested(&mut store, &[("src/deep/c", "3"), ("src/a", "1")]);
    let ours = nested(&mut store, &[("src/deep/c", "ours"), ("src/a", "1")]);
    let theirs = nested(&mut store, &[("src/deep/c", "theirs"), ("src/a", "changed")]);
    let len = store.len();
    assert_eq!(merge(&mut store, Some(base), ours, theirs), Err(Error::ReplayConflict));
    assert_eq!(store.len(), len);
    // the same edit on both sides is no conflict
    let same = nested(&mut store, &[("src/deep/c", "theirs"), ("src/a", "1")]);
    let merged = merge(&mut store, Some(base), same, theirs).unwrap();
    assert_eq!(merged, theirs);
}

#[test]
fn changes_are_made_where_they_apply() {
    let mut store = ObjectStore::new();
    let tree = nested(&mut store, &[("a", "1"), ("d/b", "2")]);
    let edit = change(&mut store, "d/b", Some("2"), Some("two"));
    let add = change(&mut store, "d/c", None, Some("3"));
    let remove = change(&mut store, "a", Some("1"), None);
    let done = apply(&mut store, Some(tree), &vec![edit.clone(), add, remove]).unwrap().unwrap();
    let mut expected = ObjectStore::new();
    assert_eq!(done, nested(&mut expected, &[("d/b", "two"), ("d/c", "3")]));
    // a change that is there already is skipped
    assert_eq!(apply(&mut store, Some(done), &vec![edit]), Ok(Some(done)));
    let stale = change(&mut store, "d/b", Some("other"), Some("again"));
    assert_eq!(apply(&mut store, Some(done), &vec![stale]), Err(Error::ReplayConflict));
    assert_eq!(apply(&mut store, None, &vec![]), Ok(None));
}

#[test]
fn the_plan_of_a_stack_follows_its_branches() {
    let mut store = ObjectStore::new();
    let (base, c1, c2, c3) = history(&mut store);
    let stack = Stack {
        id: StackId { value: 7 },
        base,
        branches: vec![
            Branch { name: "lower".to_string(), head: c2 },
            Branch { name: "empty".to_string(), head: c2 },
            Branch { name: "upper".to_string(), head: c3 },
        ],
    };
    assert_eq!(
        stack.as_rebase_steps(&store),
        Ok(vec![pick(c1), pick(c2), reference("lower"), reference("empty"), pick(c3), reference("upper")])
    );
    assert_eq!(stack.merge_base(&store), Ok(base));
}

#[test]
fn a_branch_that_does_not_descend_from_the_one_below_has_no_plan() {
    let mut store = ObjectStore::new();
    let (base, c1, c2, _c3) = history(&mut store);
    let upside_down = Stack {
        id: StackId { value: 7 },
        base,
        branches: vec![Branch { name: "a".to_string(), head: c2 }, Branch { name: "b".to_string(), head: c1 }],
    };
    assert_eq!(upside_down.as_rebase_steps(&store), Err(Error::NotFound));
    let missing =
        Stack { id: StackId { value: 7 }, base, branches: vec![Branch { name: "a".to_string(), head: ObjectId::null() }] };
    assert_eq!(missing.as_rebase_steps(&store), Err(Error::NotFound));
    let no_base = Stack { id: StackId { value: 7 }, base: ObjectId::null(), branches: vec![] };
    assert_eq!(no_base.merge_base(&store), Err(Error::NotFound));
    assert_eq!(no_base.as_rebase_steps(&store), Ok(vec![]));
}

#[test]
fn replace_pick_rewrites_one_step_in_place() {
    let mut store = ObjectStore::new();
    let (_base, c1, c2, c3) = history(&mut store);
    let mut steps = vec![pick(c1), reference("x"), pick(c2), reference("y")];
    assert_eq!(replace_pick_with_commit(&mut steps, c2, c3), Ok(()));
    assert_eq!(steps, vec![pick(c1), reference("x"), pick(c3), reference("y")]);
    assert_eq!(replace_pick_with_commit(&mut steps, c2, c1), Err(Error::NotFound));
    assert_eq!(steps, vec![pick(c1), reference("x"), pick(c3), reference("y")]);
}

#[test]
fn replaying_an_up_to_date_plan_is_a_no_op() {
    let mut store = ObjectStore::new();
    let (base, c1, c2, c3) = history(&mut store);
    let stack = Stack {
        id: StackId { value: 7 },
        base,
        branches: vec![Branch { name: "lower".to_string(), head: c1 }, Branch { name: "upper".to_string(), head: c3 }],
    };
    let len = store.len();
    for keep in [true, false] {
        let mut rebase = Rebase::new(&store, base, None).unwrap();
        rebase.steps(stack.as_rebase_steps(&store).unwrap());
        rebase.rebase_noops(keep);
        let output = rebase.rebase(&mut store).unwrap();
        assert_eq!(store.len(), len);
        assert_eq!(output.top_commit, c3);
        assert_eq!(output.commits, vec![c1, c2, c3]);
        assert_eq!(output.commit_mapping, vec![(c1, c1), (c2, c2), (c3, c3)]);
        assert_eq!(
            output.references,
            vec![
                ReferenceOutcome { name: "lower".to_string(), commit_id: c1 },
                ReferenceOutcome { name: "upper".to_string(), commit_id: c3 },
            ]
        );
        let mut moved = stack.clone();
        moved.set_heads_from_rebase_output(&store, &output.references).unwrap();
        assert_eq!(moved, stack);
    }
}

#[test]
fn replay_onto_another_commit_rewrites_every_pick() {
    let mut store = ObjectStore::new();
    let (base, c1, c2, c3) = history(&mut store);
    let side_tree = tree(&mut store, &[("z", "26")]);
    let side = commit(&mut store, side_tree, vec![base], "side");
    let mut rebase = Rebase::new(&store, base, Some(side)).unwrap();
    rebase.steps(vec![pick(c1), pick(c2), reference("mid"), pick(c3), reference("top")]);
    let output = rebase.rebase(&mut store).unwrap();
    assert_eq!(output.commits.len(), 3);
    assert_eq!(output.commit_mapping.len(), 3);
    assert_eq!(output.commit_mapping[0].0, c1);
    assert_eq!(output.commit_mapping[2], (c3, output.top_commit));
    assert_eq!(output.references[0].commit_id, output.commits[1]);
    assert_eq!(output.references[1].commit_id, output.top_commit);
    let top = store.commit(&output.top_commit).unwrap().clone();
    assert_eq!(top.message, b"three".to_vec());
    assert_eq!(top.parents, vec![output.commits[1]]);
    let mut expected = ObjectStore::new();
    assert_eq!(top.tree, tree(&mut expected, &[("a", "1"), ("b", "2"), ("c", "3"), ("z", "26")]));
    assert_eq!(store.commit(&output.commits[0]).unwrap().parents, vec![side]);
}

#[test]
fn produced_commits_are_picks_minus_elided() {
    let mut store = ObjectStore::new();
    let (base, c1, c2, _c3) = history(&mut store);
    // an empty commit on top of c2
    let t2 = store.commit(&c2).unwrap().tree;
    let hollow = commit(&mut store, t2, vec![c2], "hollow");
    let plan = vec![pick(c1), pick(c2), pick(hollow), reference("top")];

    let mut keep = Rebase::new(&store, base, None).unwrap();
    keep.steps(plan.clone());
    let kept = keep.rebase(&mut store).unwrap();
    assert_eq!(kept.commits.len(), 3);
    assert_eq!(kept.top_commit, hollow);

    let mut elide = Rebase::new(&store, base, None).unwrap();
    elide.steps(plan);
    elide.rebase_noops(false);
    let elided = elide.rebase(&mut store).unwrap();
    assert_eq!(elided.commits, vec![c1, c2]);
    assert_eq!(elided.commit_mapping, vec![(c1, c1), (c2, c2), (hollow, c2)]);
    assert_eq!(elided.top_commit, c2);
    // the reference above an elided commit rests on the commit that absorbed it
    assert_eq!(elided.references, vec![ReferenceOutcome { name: "top".to_string(), commit_id: c2 }]);
}

#[test]
fn a_missing_pick_aborts_the_replay_and_leaves_the_store_alone() {
    let mut store = ObjectStore::new();
    let (base, c1, _c2, c3) = history(&mut store);
    let side_tree = tree(&mut store, &[("z", "26")]);
    let side = commit(&mut store, side_tree, vec![base], "side");
    let len = store.len();
    let mut rebase = Rebase::new(&store, base, Some(side)).unwrap();
    rebase.steps(vec![pick(c1), pick(ObjectId::null()), pick(c3)]);
    assert_eq!(rebase.rebase(&mut store), Err(Error::NotFound));
    assert_eq!(store.len(), len);
}

#[test]
fn rebase_needs_commits_to_start_from() {
    let mut store = ObjectStore::new();
    let (base, _c1, _c2, _c3) = history(&mut store);
    let not_a_commit = store.commit(&base).unwrap().tree;
    assert!(Rebase::new(&store, base, None).is_ok());
    assert!(Rebase::new(&store, ObjectId::null(), None).is_err());
    assert!(Rebase::new(&store, not_a_commit, None).is_err());
    assert!(Rebase::new(&store, base, Some(ObjectId::null())).is_err());
    let mut empty = Rebase::new(&store, base, None).unwrap();
    let output = empty.rebase(&mut store).unwrap();
    assert_eq!(
        output,
        RebaseOutput { top_commit: base, references: vec![], commit_mapping: vec![], commits: vec![] }
    );
    empty.steps(vec![reference("only")]);
    let output = empty.rebase(&mut store).unwrap();
    assert_eq!(output.references, vec![ReferenceOutcome { name: "only".to_string(), commit_id: base }]);
}

#[test]
fn replay_commit_reports_whether_it_produced() {
    let mut store = ObjectStore::new();
    let (base, c1, c2, _c3) = history(&mut store);
    assert_eq!(replay_commit(&mut store, base, c1, false), Ok((c1, true)));
    let t2 = store.commit(&c2).unwrap().tree;
    let hollow = commit(&mut store, t2, vec![c2], "hollow");
    assert_eq!(replay_commit(&mut store, c2, hollow, false), Ok((c2, false)));
    assert_eq!(replay_commit(&mut store, c2, hollow, true), Ok((hollow, true)));
    assert_eq!(replay_commit(&mut store, ObjectId::null(), c1, true), Err(Error::NotFound));
}

#[test]
fn overrides_take_precedence_in_the_mapping() {
    let mut ids = Vec::new();
    for n in 1..=5u8 {
        let mut id = ObjectId::null();
        id.bytes[0] = n;
        ids.push(id);
    }
    let output = RebaseOutput {
        top_commit: ids[4],
        references: vec![],
        commit_mapping: vec![(ids[0], ids[1]), (ids[2], ids[2]), (ids[3], ids[4])],
        commits: vec![],
    };
    let mapping = rebase_mapping_with_overrides(&output, &vec![(ids[0], ids[3]), (ids[1], ids[2])]);
    assert_eq!(mapping.len(), 3);
    assert_eq!(mapped(&mapping, &ids[0]), Some(ids[3]));
    assert_eq!(mapped(&mapping, &ids[1]), Some(ids[2]));
    assert_eq!(mapped(&mapping, &ids[3]), Some(ids[4]));
    // a commit that the replay left as it was is not in the mapping
    assert_eq!(mapped(&mapping, &ids[2]), None);
    let plain = rebase_mapping_with_overrides(&output, &vec![]);
    assert_eq!(plain, vec![(ids[0], ids[1]), (ids[3], ids[4])]);
}

#[test]
fn heads_move_together_or_not_at_all() {
    let mut store = ObjectStore::new();
    let (base, c1, c2, c3) = history(&mut store);
    let mut stack = Stack {
        id: StackId { value: 7 },
        base,
        branches: vec![Branch { name: "lower".to_string(), head: c1 }, Branch { name: "upper".to_string(), head: c2 }],
    };
    let before = stack.clone();
    let outcome = |name: &str, id: ObjectId| ReferenceOutcome { name: name.to_string(), commit_id: id };

    let unknown_branch = vec![outcome("lower", c2), outcome("nope", c3)];
    assert_eq!(stack.set_heads_from_rebase_output(&store, &unknown_branch), Err(Error::NotFound));
    assert_eq!(stack, before);
    let unknown_commit = vec![outcome("lower", c2), outcome("upper", ObjectId::null())];
    assert_eq!(stack.set_heads_from_rebase_output(&store, &unknown_commit), Err(Error::NotFound));
    assert_eq!(stack, before);

    let good = vec![outcome("lower", c2), outcome("upper", c3)];
    assert_eq!(stack.set_heads_from_rebase_output(&store, &good), Ok(()));
    assert_eq!(stack.branches[0].head, c2);
    assert_eq!(stack.branches[1].head, c3);
    assert_eq!(stack.id, before.id);
    assert_eq!(stack.base, base);
    // a later outcome for the same branch wins
    let twice = vec![outcome("upper", c1), outcome("upper", c2)];
    assert_eq!(stack.set_heads_from_rebase_output(&store, &twice), Ok(()));
    assert_eq!(stack.branches[1].head, c2);
    assert_eq!(stack.set_heads_from_rebase_output(&store, &vec![]), Ok(()));
}

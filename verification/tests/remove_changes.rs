use stack_rewrite::error::Error;
use stack_rewrite::mapping::mapped;
use stack_rewrite::object::{Commit, EntryKind, Object, TreeEntry};
use stack_rewrite::object_id::ObjectId;
use stack_rewrite::patch::HunkHeader;
use stack_rewrite::rebase::{replace_pick_with_commit, Rebase, RebaseStep};
use stack_rewrite::rewrite::replace_commit_tree;
use stack_rewrite::stack::{Branch, Stack, StackId};
use stack_rewrite::store::ObjectStore;
use stack_rewrite::subtract::{create_tree_without_diff, ChangesSource, DiffSpec};
use stack_rewrite::workspace::{remove_changes_from_commit_in_stack, Workspace};

fn signature() -> Vec<u8> {
    b"A <a@example.com> 0 +0000".to_vec()
}

fn blob(store: &mut ObjectStore, content: &str) -> ObjectId {
    store.put(Object::Blob(content.as_bytes().to_vec())).unwrap()
}

fn tree(store: &mut ObjectStore, files: &[(&str, &str)]) -> ObjectId {
    let mut entries = Vec::new();
    for (name, content) in files {
        let id = blob(store, content);
        entries.push(TreeEntry { name: name.as_bytes().to_vec(), kind: EntryKind::Blob, id });
    }
    store.put(Object::Tree(entries)).unwrap()
}

fn commit(store: &mut ObjectStore, tree: ObjectId, parents: Vec<ObjectId>, message: &str) -> ObjectId {
    store
        .put(Object::Commit(Commit {
            tree,
            parents,
            author: signature(),
            committer: signature(),
            message: message.as_bytes().to_vec(),
        }))
        .unwrap()
}

fn whole(path: &str) -> DiffSpec {
    DiffSpec { path: path.as_bytes().to_vec(), hunk_headers: vec![] }
}

fn stack(base: ObjectId, branches: &[(&str, ObjectId)]) -> Stack {
    Stack {
        id: StackId { value: 1 },
        base,
        branches: branches.iter().map(|(name, head)| Branch { name: name.to_string(), head: *head }).collect(),
    }
}

/// A workspace with one stack on a base with an empty tree.
fn workspace(files_per_commit: &[&[(&str, &str)]]) -> (Workspace, ObjectId, Vec<ObjectId>) {
    let mut ws = Workspace::new();
    let empty = tree(&mut ws.store, &[]);
    let base = commit(&mut ws.store, empty, vec![], "base");
    let mut commits = Vec::new();
    let mut parent = base;
    for (i, files) in files_per_commit.iter().enumerate() {
        let t = tree(&mut ws.store, files);
        parent = commit(&mut ws.store, t, vec![parent], &format!("commit {i}"));
        commits.push(parent);
    }
    ws.stacks.push(stack(base, &[("main", parent)]));
    (ws, base, commits)
}

#[test]
fn a_single_commit_loses_its_only_file() {
    let (mut ws, base, commits) = workspace(&[&[("a.txt", "1")]]);
    let c = commits[0];
    let result =
        remove_changes_from_commit_in_stack(&mut ws, StackId { value: 1 }, c, &vec![whole("a.txt")], 0, true)
            .unwrap();
    let head = ws.stacks[0].branches[0].head;
    assert_ne!(head, c);
    let rewritten = ws.store.commit(&head).unwrap().clone();
    let empty = ObjectId::from_hex(&b"4b825dc642cb6eb9a060e54bf8d69288fbee4904".to_vec()).unwrap();
    assert_eq!(rewritten.tree, empty);
    assert_eq!(ws.store.tree(&rewritten.tree).unwrap().len(), 0);
    assert_eq!(rewritten.parents, vec![base]);
    assert_eq!(rewritten.message, b"commit 0".to_vec());
    assert_eq!(result.replaced_commits, vec![(c, head)]);
}

#[test]
fn an_emptied_commit_is_dropped_under_elision() {
    let (mut ws, base, commits) = workspace(&[&[("a.txt", "1")]]);
    let c = commits[0];
    let result =
        remove_changes_from_commit_in_stack(&mut ws, StackId { value: 1 }, c, &vec![whole("a.txt")], 0, false)
            .unwrap();
    // the rewritten commit changes nothing on the base any more, so the head rests on the base
    assert_eq!(ws.stacks[0].branches[0].head, base);
    let rewritten = mapped(&result.replaced_commits, &c).unwrap();
    assert_eq!(ws.store.commit(&rewritten).unwrap().parents, vec![base]);
    assert_eq!(mapped(&result.replaced_commits, &rewritten), Some(base));
    assert_eq!(result.replaced_commits.len(), 2);
}

#[test]
fn an_unknown_path_is_rejected_and_nothing_changes() {
    let (mut ws, _base, commits) = workspace(&[&[("a.txt", "1")]]);
    let c = commits[0];
    let objects = ws.store.len();
    let stacks = ws.stacks.clone();

    let mut probe = ws.store.clone();
    let (tree, rejected) =
        create_tree_without_diff(&mut probe, ChangesSource::Commit { id: c }, &vec![whole("b.txt")], 0).unwrap();
    assert_eq!(rejected, vec![whole("b.txt")]);
    assert_eq!(tree, ws.store.commit(&c).unwrap().tree);

    let result =
        remove_changes_from_commit_in_stack(&mut ws, StackId { value: 1 }, c, &vec![whole("b.txt")], 0, true);
    assert_eq!(result, Err(Error::IncompleteApplication));
    assert_eq!(ws.stacks, stacks);
    assert_eq!(ws.store.len(), objects);
}

#[test]
fn one_rejected_change_among_good_ones_changes_nothing() {
    let (mut ws, _base, commits) = workspace(&[&[("a.txt", "1"), ("c.txt", "3")]]);
    let c = commits[0];
    let objects = ws.store.len();
    let stacks = ws.stacks.clone();
    let changes = vec![whole("a.txt"), whole("b.txt"), whole("c.txt")];
    let result = remove_changes_from_commit_in_stack(&mut ws, StackId { value: 1 }, c, &changes, 3, true);
    assert_eq!(result, Err(Error::IncompleteApplication));
    assert_eq!(ws.stacks, stacks);
    assert_eq!(ws.store.len(), objects);
}

#[test]
fn the_commit_above_is_replayed() {
    let (mut ws, base, commits) =
        workspace(&[&[("a.txt", "1"), ("b.txt", "2")], &[("a.txt", "1"), ("b.txt", "2"), ("c.txt", "3")]]);
    let (c1, c2) = (commits[0], commits[1]);
    let result =
        remove_changes_from_commit_in_stack(&mut ws, StackId { value: 1 }, c1, &vec![whole("b.txt")], 0, true)
            .unwrap();
    let head = ws.stacks[0].branches[0].head;
    let c2_new = ws.store.commit(&head).unwrap().clone();
    assert_eq!(c2_new.message, b"commit 1".to_vec());
    assert_eq!(c2_new.parents.len(), 1);
    let c1_new_id = c2_new.parents[0];
    let c1_new = ws.store.commit(&c1_new_id).unwrap().clone();
    assert_eq!(c1_new.message, b"commit 0".to_vec());
    assert_eq!(c1_new.parents, vec![base]);

    let mut expected = ObjectStore::new();
    assert_eq!(c1_new.tree, tree(&mut expected, &[("a.txt", "1")]));
    assert_eq!(c2_new.tree, tree(&mut expected, &[("a.txt", "1"), ("c.txt", "3")]));

    assert_eq!(result.replaced_commits.len(), 2);
    assert_eq!(mapped(&result.replaced_commits, &c1), Some(c1_new_id));
    assert_eq!(mapped(&result.replaced_commits, &c2), Some(head));
    assert_ne!(head, c2);
}

#[test]
fn an_absorbed_commit_is_elided() {
    let (mut ws, _base, commits) = workspace(&[&[("a.txt", "1"), ("b.txt", "2")], &[("a.txt", "1")]]);
    let (c1, c2) = (commits[0], commits[1]);
    let result =
        remove_changes_from_commit_in_stack(&mut ws, StackId { value: 1 }, c1, &vec![whole("b.txt")], 0, false)
            .unwrap();
    let head = ws.stacks[0].branches[0].head;
    let c1_new = mapped(&result.replaced_commits, &c1).unwrap();
    assert_eq!(head, c1_new);
    assert_eq!(mapped(&result.replaced_commits, &c2), Some(c1_new));
    assert_eq!(result.replaced_commits.len(), 2);
    assert_eq!(ws.store.commit(&head).unwrap().message, b"commit 0".to_vec());
}

#[test]
fn an_absorbed_commit_produces_nothing() {
    let (mut ws, base, commits) = workspace(&[&[("a.txt", "1"), ("b.txt", "2")], &[("a.txt", "1")]]);
    let (c1, c2) = (commits[0], commits[1]);
    let only_a = tree(&mut ws.store, &[("a.txt", "1")]);
    let c1_new = replace_commit_tree(&mut ws.store, c1, only_a).unwrap();
    let mut steps = ws.stacks[0].as_rebase_steps(&ws.store).unwrap();
    replace_pick_with_commit(&mut steps, c1, c1_new).unwrap();
    let mut rebase = Rebase::new(&ws.store, base, None).unwrap();
    rebase.steps(steps);
    rebase.rebase_noops(false);
    let output = rebase.rebase(&mut ws.store).unwrap();
    assert_eq!(output.commits, vec![c1_new]);
    assert_eq!(output.top_commit, c1_new);
    assert_eq!(output.commit_mapping, vec![(c1_new, c1_new), (c2, c1_new)]);
    assert_eq!(output.references.len(), 1);
    assert_eq!(output.references[0].commit_id, c1_new);
}

#[test]
fn an_absorbed_commit_is_kept_empty_without_elision() {
    let (mut ws, _base, commits) = workspace(&[&[("a.txt", "1"), ("b.txt", "2")], &[("a.txt", "1")]]);
    let (c1, c2) = (commits[0], commits[1]);
    let result =
        remove_changes_from_commit_in_stack(&mut ws, StackId { value: 1 }, c1, &vec![whole("b.txt")], 0, true)
            .unwrap();
    let head = ws.stacks[0].branches[0].head;
    let c1_new = mapped(&result.replaced_commits, &c1).unwrap();
    assert_ne!(head, c1_new);
    assert_eq!(mapped(&result.replaced_commits, &c2), Some(head));
    let top = ws.store.commit(&head).unwrap();
    assert_eq!(top.parents, vec![c1_new]);
    assert_eq!(top.tree, ws.store.commit(&c1_new).unwrap().tree);
}

#[test]
fn unknown_stack_and_unknown_commit_are_not_found() {
    let (mut ws, base, commits) = workspace(&[&[("a.txt", "1")]]);
    let before = ws.store.len();
    let r = remove_changes_from_commit_in_stack(
        &mut ws,
        StackId { value: 9 },
        commits[0],
        &vec![whole("a.txt")],
        0,
        true,
    );
    assert_eq!(r, Err(Error::NotFound));
    let r =
        remove_changes_from_commit_in_stack(&mut ws, StackId { value: 1 }, ObjectId::null(), &vec![], 0, true);
    assert_eq!(r, Err(Error::NotFound));
    // the base is a commit, but no step of the stack's plan replays it
    let r = remove_changes_from_commit_in_stack(&mut ws, StackId { value: 1 }, base, &vec![], 0, true);
    assert_eq!(r, Err(Error::NotFound));
    assert_eq!(ws.store.len(), before);
    assert_eq!(ws.stacks[0].branches[0].head, commits[0]);
}

#[test]
fn removing_nothing_changes_nothing() {
    let (mut ws, _base, commits) = workspace(&[&[("a.txt", "1")], &[("a.txt", "2")]]);
    let objects = ws.store.len();
    let stacks = ws.stacks.clone();
    let r = remove_changes_from_commit_in_stack(&mut ws, StackId { value: 1 }, commits[0], &vec![], 0, true)
        .unwrap();
    // the override of a commit by itself is all that the mapping holds
    assert_eq!(r.replaced_commits, vec![(commits[0], commits[0])]);
    assert_eq!(ws.stacks, stacks);
    assert_eq!(ws.store.len(), objects);
}

#[test]
fn only_the_given_stack_moves() {
    let (mut ws, base, commits) = workspace(&[&[("a.txt", "1")]]);
    let other_tree = tree(&mut ws.store, &[("z.txt", "9")]);
    let other = commit(&mut ws.store, other_tree, vec![base], "other");
    let mut second = stack(base, &[("side", other)]);
    second.id = StackId { value: 2 };
    ws.stacks.push(second.clone());
    remove_changes_from_commit_in_stack(&mut ws, StackId { value: 1 }, commits[0], &vec![whole("a.txt")], 0, true)
        .unwrap();
    assert_eq!(ws.stacks[1], second);
    assert_ne!(ws.stacks[0].branches[0].head, commits[0]);
}

#[test]
fn a_change_to_lines_is_taken_out_of_the_middle_commit() {
    let (mut ws, _base, commits) = workspace(&[
        &[("f.txt", "a\nb\nc\n")],
        &[("f.txt", "a\nB\nc\n")],
        &[("f.txt", "a\nB\nc\n"), ("g.txt", "g\n")],
    ]);
    let change = DiffSpec {
        path: b"f.txt".to_vec(),
        hunk_headers: vec![HunkHeader { old_start: 2, old_lines: 1, new_start: 2, new_lines: 1 }],
    };
    let result =
        remove_changes_from_commit_in_stack(&mut ws, StackId { value: 1 }, commits[1], &vec![change], 0, false)
            .unwrap();
    let head = ws.stacks[0].branches[0].head;
    let top = ws.store.commit(&head).unwrap().clone();
    assert_eq!(top.message, b"commit 2".to_vec());
    let mut expected = ObjectStore::new();
    assert_eq!(top.tree, tree(&mut expected, &[("f.txt", "a\nb\nc\n"), ("g.txt", "g\n")]));
    // the middle commit has nothing left and is elided: the top sits on the first
    assert_eq!(top.parents, vec![commits[0]]);
    assert_eq!(mapped(&result.replaced_commits, &commits[2]), Some(head));
    assert_eq!(mapped(&result.replaced_commits, &commits[0]), None);
}

#[test]
fn a_replay_that_conflicts_fails_and_changes_nothing() {
    let (mut ws, _base, commits) = workspace(&[&[("a.txt", "1")], &[("a.txt", "2")]]);
    let objects = ws.store.len();
    let stacks = ws.stacks.clone();
    // without a.txt below it, the second commit's edit of a.txt has nothing to apply to
    let r =
        remove_changes_from_commit_in_stack(&mut ws, StackId { value: 1 }, commits[0], &vec![whole("a.txt")], 0, true);
    assert_eq!(r, Err(Error::ReplayConflict));
    assert_eq!(ws.stacks, stacks);
    assert_eq!(ws.store.len(), objects);
}

#[test]
fn plan_steps_can_be_looked_at() {
    let (ws, _base, commits) = workspace(&[&[("a.txt", "1")], &[("a.txt", "2")]]);
    let steps = ws.stacks[0].as_rebase_steps(&ws.store).unwrap();
    assert_eq!(
        steps,
        vec![
            RebaseStep::Pick { commit_id: commits[0] },
            RebaseStep::Pick { commit_id: commits[1] },
            RebaseStep::Reference { name: "main".to_string() },
        ]
    );
}

#[test]
fn commits_that_touch_the_same_directory_are_replayed() {
    let mut ws = Workspace::new();
    let mut build = |ws: &mut Workspace, files: &[(&str, &str)]| {
        let mut root = None;
        for (name, content) in files {
            let id = blob(&mut ws.store, content);
            let path = stack_rewrite::tree_path::split_segments(&name.as_bytes().to_vec());
            root = stack_rewrite::tree_path::write_path(&mut ws.store, root, &path, 0, Some((EntryKind::Blob, id)))
                .unwrap();
        }
        root.unwrap()
    };
    let t0 = build(&mut ws, &[("src/lib.rs", "lib")]);
    let t1 = build(&mut ws, &[("src/lib.rs", "lib"), ("src/a.rs", "a"), ("src/extra.rs", "x")]);
    let t2 = build(&mut ws, &[("src/lib.rs", "lib"), ("src/a.rs", "a"), ("src/extra.rs", "x"), ("src/b.rs", "b")]);
    let base = commit(&mut ws.store, t0, vec![], "base");
    let c1 = commit(&mut ws.store, t1, vec![base], "one");
    let c2 = commit(&mut ws.store, t2, vec![c1], "two");
    ws.stacks.push(stack(base, &[("main", c2)]));
    let result =
        remove_changes_from_commit_in_stack(&mut ws, StackId { value: 1 }, c1, &vec![whole("src/extra.rs")], 0, true)
            .unwrap();
    let head = ws.stacks[0].branches[0].head;
    let expected = build(&mut ws, &[("src/lib.rs", "lib"), ("src/a.rs", "a"), ("src/b.rs", "b")]);
    assert_eq!(ws.store.commit(&head).unwrap().tree, expected);
    assert_eq!(mapped(&result.replaced_commits, &c2), Some(head));
    let below = ws.store.commit(&head).unwrap().parents[0];
    assert_eq!(mapped(&result.replaced_commits, &c1), Some(below));
    let expected = build(&mut ws, &[("src/lib.rs", "lib"), ("src/a.rs", "a")]);
    assert_eq!(ws.store.commit(&below).unwrap().tree, expected);
}

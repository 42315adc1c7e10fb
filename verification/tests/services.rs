use stack_rewrite::auto_commit::{commit_prompt, system_message};
use stack_rewrite::mcp::{GitButlerUpdateBranchesRequest, RequestError};
use stack_rewrite::object_id::ObjectId;
use stack_rewrite::poll::{same_items, ItemKind, Phase, PollAction, PollEvent, Poller, Query};
use stack_rewrite::undo::{
    parse_sha, ListSnapshotsParams, ParamError, RestoreSnapshotParams, SnapshotDiffParams, SnapshotQuery,
};

fn request(prompt: &str, summary: &str, dir: &str) -> GitButlerUpdateBranchesRequest {
    GitButlerUpdateBranchesRequest {
        full_prompt: prompt.to_string(),
        changes_summary: summary.to_string(),
        current_working_directory: dir.to_string(),
    }
}

fn items(rows: &[&str]) -> Vec<Vec<u8>> {
    rows.iter().map(|r| r.as_bytes().to_vec()).collect()
}

#[test]
fn a_complete_request_is_valid() {
    assert_eq!(request("p", "s", "/repo").validate(), Ok(()));
}

#[test]
fn the_first_empty_field_is_reported() {
    assert_eq!(request("", "", "").validate(), Err(RequestError::EmptyChangesSummary));
    assert_eq!(request("p", "", "/repo").validate(), Err(RequestError::EmptyChangesSummary));
    assert_eq!(request("", "s", "").validate(), Err(RequestError::EmptyFullPrompt));
    assert_eq!(request("p", "s", "").validate(), Err(RequestError::EmptyCurrentWorkingDirectory));
}

#[test]
fn request_errors_have_their_messages() {
    assert_eq!(RequestError::EmptyChangesSummary.message(), "ChangesSummary cannot be empty");
    assert_eq!(RequestError::EmptyFullPrompt.message(), "FullPrompt cannot be empty");
    assert_eq!(RequestError::EmptyCurrentWorkingDirectory.message(), "CurrentWorkingDirectory cannot be empty");
}

#[test]
fn item_kinds_are_flags() {
    assert_eq!(ItemKind::actions().bits(), 1);
    assert_eq!(ItemKind::workflows().bits(), 2);
    assert_eq!(ItemKind::assignments().bits(), 4);
    assert_eq!(ItemKind::all().bits(), 7);
    assert_eq!(ItemKind::empty().bits(), 0);
    assert_eq!(ItemKind::default(), ItemKind::empty());
    assert_eq!(ItemKind::from_bits_truncate(0xff), ItemKind::all());
    assert_eq!(ItemKind::actions().union(ItemKind::assignments()).bits(), 5);
    assert_eq!(ItemKind::all().intersection(ItemKind::workflows()), ItemKind::workflows());
    assert!(ItemKind::all().contains(ItemKind::workflows()));
    assert!(!ItemKind::actions().contains(ItemKind::workflows()));
    assert!(ItemKind::actions().intersection(ItemKind::workflows()).is_empty());
}

#[test]
fn a_round_lists_every_kind_and_reports_what_changed() {
    let mut p = Poller::new(ItemKind::all());
    assert_eq!(p.phase, Phase::Sleeping);
    assert_eq!(p.step(PollEvent::Slept), PollAction::List(Query::Actions));
    // nothing was seen before, so an empty list is no change
    assert_eq!(p.step(PollEvent::Listed(vec![])), PollAction::List(Query::Workflows));
    assert_eq!(p.step(PollEvent::Listed(items(&["w1"]))), PollAction::SendChanged(ItemKind::workflows()));
    assert_eq!(p.phase, Phase::Sending(Query::Workflows));
    assert_eq!(p.step(PollEvent::Sent(true)), PollAction::List(Query::Assignments));
    assert_eq!(p.step(PollEvent::Listed(items(&["h1", "h2"]))), PollAction::SendChanged(ItemKind::assignments()));
    assert_eq!(p.step(PollEvent::Sent(true)), PollAction::Sleep);
    assert_eq!(p.phase, Phase::Sleeping);
    // the second round sees the same lists: nothing is sent
    assert_eq!(p.step(PollEvent::Slept), PollAction::List(Query::Actions));
    assert_eq!(p.step(PollEvent::Listed(vec![])), PollAction::List(Query::Workflows));
    assert_eq!(p.step(PollEvent::Listed(items(&["w1"]))), PollAction::List(Query::Assignments));
    assert_eq!(p.step(PollEvent::Listed(items(&["h1", "h2"]))), PollAction::Sleep);
    // the third round sees one list changed
    assert_eq!(p.step(PollEvent::Slept), PollAction::List(Query::Actions));
    assert_eq!(p.step(PollEvent::Listed(items(&["a1"]))), PollAction::SendChanged(ItemKind::actions()));
    assert_eq!(p.prev_actions, items(&["a1"]));
    assert_eq!(p.prev_workflows, items(&["w1"]));
}

#[test]
fn a_failed_listing_is_reported_and_the_round_goes_on() {
    let mut p = Poller::new(ItemKind::all());
    assert_eq!(p.step(PollEvent::Slept), PollAction::List(Query::Actions));
    assert_eq!(p.step(PollEvent::ListFailed), PollAction::SendFailure);
    assert_eq!(p.step(PollEvent::Sent(true)), PollAction::List(Query::Workflows));
    assert_eq!(p.prev_actions, Vec::<Vec<u8>>::new());
}

#[test]
fn a_listener_that_is_gone_ends_the_polling() {
    let mut p = Poller::new(ItemKind::all());
    p.step(PollEvent::Slept);
    assert_eq!(p.step(PollEvent::Listed(items(&["a"]))), PollAction::SendChanged(ItemKind::actions()));
    assert_eq!(p.step(PollEvent::Sent(false)), PollAction::Stop);
    assert_eq!(p.phase, Phase::Stopped);
    assert_eq!(p.step(PollEvent::Slept), PollAction::Stop);
    assert_eq!(p.step(PollEvent::Sent(true)), PollAction::Stop);
}

#[test]
fn a_kind_that_is_not_watched_ends_the_polling() {
    let mut only_actions = Poller::new(ItemKind::actions());
    assert_eq!(only_actions.step(PollEvent::Slept), PollAction::List(Query::Actions));
    assert_eq!(only_actions.step(PollEvent::Listed(vec![])), PollAction::Stop);
    let mut only_workflows = Poller::new(ItemKind::workflows());
    assert_eq!(only_workflows.step(PollEvent::Slept), PollAction::Stop);
    let mut none = Poller::new(ItemKind::empty());
    assert_eq!(none.step(PollEvent::Slept), PollAction::Stop);
}

#[test]
fn what_the_poller_did_not_ask_for_ends_the_polling() {
    let mut p = Poller::new(ItemKind::all());
    assert_eq!(p.step(PollEvent::Listed(vec![])), PollAction::Stop);
    let mut p = Poller::new(ItemKind::all());
    p.step(PollEvent::Slept);
    assert_eq!(p.step(PollEvent::Slept), PollAction::Stop);
    let mut p = Poller::new(ItemKind::all());
    p.step(PollEvent::Slept);
    assert_eq!(p.step(PollEvent::Sent(true)), PollAction::Stop);
}

#[test]
fn item_lists_compare_by_content() {
    assert!(same_items(&items(&["a", "b"]), &items(&["a", "b"])));
    assert!(!same_items(&items(&["a", "b"]), &items(&["b", "a"])));
    assert!(!same_items(&items(&["a"]), &items(&["a", "b"])));
    assert!(same_items(&vec![], &vec![]));
}

#[test]
fn a_sha_is_forty_hexadecimal_digits() {
    let id = parse_sha(&"4b825dc642cb6eb9a060e54bf8d69288fbee4904".to_string()).unwrap();
    assert_eq!(id.bytes[0], 0x4b);
    assert_eq!(id.bytes[19], 0x04);
    assert_eq!(parse_sha(&"4b825dc".to_string()), Err(ParamError::InvalidSha));
    assert_eq!(parse_sha(&"".to_string()), Err(ParamError::InvalidSha));
    assert_eq!(parse_sha(&"4b825dc642cb6eb9a060e54bf8d69288fbee490g".to_string()), Err(ParamError::InvalidSha));
    assert_eq!(parse_sha(&"\u{e9}b825dc642cb6eb9a060e54bf8d69288fbee490".to_string()), Err(ParamError::InvalidSha));
}

#[test]
fn list_parameters_resolve_to_a_query() {
    let sha = "e69de29bb2d1d6434b8b29ae775ad8c2e48c5391";
    let with_all = ListSnapshotsParams {
        project_id: "p".to_string(),
        limit: 10,
        sha: Some(sha.to_string()),
        exclude_kind: Some(vec!["CreateCommit".to_string()]),
    };
    assert_eq!(
        with_all.resolve(),
        Ok(SnapshotQuery {
            limit: 10,
            start: ObjectId::from_hex(&sha.as_bytes().to_vec()),
            exclude_kind: vec!["CreateCommit".to_string()],
        })
    );
    let bare = ListSnapshotsParams { project_id: "p".to_string(), limit: 0, sha: None, exclude_kind: None };
    assert_eq!(bare.resolve(), Ok(SnapshotQuery { limit: 0, start: None, exclude_kind: vec![] }));
    let bad = ListSnapshotsParams {
        project_id: "p".to_string(),
        limit: 3,
        sha: Some("xyz".to_string()),
        exclude_kind: None,
    };
    assert_eq!(bad.resolve(), Err(ParamError::InvalidSha));
}

#[test]
fn snapshot_parameters_name_a_snapshot() {
    let sha = "e69de29bb2d1d6434b8b29ae775ad8c2e48c5391".to_string();
    let expected = ObjectId::from_hex(&sha.as_bytes().to_vec()).unwrap();
    let restore = RestoreSnapshotParams { project_id: "p".to_string(), sha: sha.clone() };
    assert_eq!(restore.snapshot(), Ok(expected));
    let diff = SnapshotDiffParams { project_id: "p".to_string(), sha };
    assert_eq!(diff.snapshot(), Ok(expected));
    let bad = SnapshotDiffParams { project_id: "p".to_string(), sha: "HEAD".to_string() };
    assert_eq!(bad.snapshot(), Err(ParamError::InvalidSha));
    let bad = RestoreSnapshotParams { project_id: "p".to_string(), sha: "".to_string() };
    assert_eq!(bad.snapshot(), Err(ParamError::InvalidSha));
}

#[test]
fn the_prompt_wraps_the_project_status() {
    let prompt = commit_prompt("{\"stacks\": []}");
    assert!(prompt.contains("<project_status>\n                {\"stacks\": []}\n        </project_status>"));
    assert!(prompt.starts_with("\n        Please, figure out how to group the file changes"));
    assert!(prompt.contains("5. When you're done, only send the message 'done'"));
    assert!(prompt.ends_with("</project_status>\n    "));
    assert_eq!(commit_prompt("").len() + 3, commit_prompt("abc").len());
    assert!(system_message().starts_with("\n        You are an expert in grouping and committing file changes"));
    assert!(system_message().ends_with("if they don't already exist.\n        "));
}

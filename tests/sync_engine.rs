use fileshare::diff::{reconcile, Action, ActionKind};
use fileshare::executor::{plan, Download, DownloadStage, FileOp, Outcome, Session, Step, SyncError};
use fileshare::item::{ItemTree, LocalItem, RemoteItem, RemoteTree};

fn file(path: &str, size: u64, timestamp: u64) -> LocalItem {
    LocalItem {
        path: path.as_bytes().to_vec(),
        is_regular_file: true,
        size,
        timestamp,
        mime_type: b"application/octet-stream".to_vec(),
    }
}

fn dir(path: &str, timestamp: u64) -> LocalItem {
    LocalItem { path: path.as_bytes().to_vec(), is_regular_file: false, size: 0, timestamp, mime_type: Vec::new() }
}

fn tree(items: Vec<LocalItem>) -> ItemTree {
    ItemTree { items }
}

fn remote(items: Vec<(i64, LocalItem)>) -> RemoteTree {
    let mut r = RemoteTree::new();
    for (id, node) in items {
        r.add_item(RemoteItem { id, parent_item: None, node });
    }
    r
}

fn kinds(actions: &[Action]) -> Vec<(ActionKind, String)> {
    actions.iter().map(|a| (a.kind, String::from_utf8(a.path.clone()).unwrap())).collect()
}

fn lookup<'a>(t: &'a ItemTree, path: &str) -> Option<&'a LocalItem> {
    t.items.iter().find(|m| m.path == path.as_bytes())
}

#[test]
fn local_upgrade_is_uploaded_and_recorded() {
    let t0 = 1_000;
    let t1 = 2_000;
    let baseline = tree(vec![dir("docs", 0), file("docs/report.pdf", 10, t0)]);
    let scanned = tree(vec![dir("docs", 0), file("docs/report.pdf", 12, t1)]);
    let rem = remote(vec![(7, dir("docs", 0)), (8, file("docs/report.pdf", 10, t0))]);
    let actions = reconcile(&baseline, &scanned, &rem.tree);
    assert_eq!(kinds(&actions), vec![(ActionKind::LocalUpgraded, "docs/report.pdf".to_string())]);

    let mut session = Session::start(baseline, scanned, rem);
    let a = session.current().unwrap();
    match plan(a.kind, &a.path, &session.scanned, &session.remote).unwrap() {
        Step::UploadFile { path, parent, size, timestamp, mime_type } => {
            assert_eq!(path, b"docs/report.pdf".to_vec());
            assert_eq!(parent, Some(7));
            assert_eq!(size, 12);
            assert_eq!(timestamp, t1);
            assert_eq!(mime_type, b"application/octet-stream".to_vec());
        }
        _ => panic!("expected an upload"),
    }
    let uploaded = RemoteItem { id: 9, parent_item: Some(7), node: file("docs/report.pdf", 12, t1) };
    assert_eq!(session.complete(Outcome::RemoteCreated(uploaded)), Ok(()));
    let entry = lookup(&session.baseline, "docs/report.pdf").unwrap();
    assert_eq!(entry.timestamp, t1);
    assert_eq!(entry.size, 12);
    assert!(session.current().is_none());
}

#[test]
fn clone_downloads_one_file() {
    let rem = remote(vec![(3, file("a.txt", 42, 1_700_000_000_000))]);
    let actions = reconcile(&ItemTree::new(), &ItemTree::new(), &rem.tree);
    assert_eq!(kinds(&actions), vec![(ActionKind::RemoteAdded, "a.txt".to_string())]);

    let mut session = Session::start(ItemTree::new(), ItemTree::new(), rem);
    let a = session.current().unwrap();
    let step = plan(a.kind, &a.path, &session.scanned, &session.remote).unwrap();
    let timestamp = match step {
        Step::DownloadFile { path, id, timestamp } => {
            assert_eq!(path, b"a.txt".to_vec());
            assert_eq!(id, 3);
            timestamp
        }
        _ => panic!("expected a download"),
    };
    assert_eq!(timestamp, 1_700_000_000_000);
    let mut d = Download::new(timestamp);
    assert_eq!(d.advance(true), FileOp::RenameIntoPlace);
    assert_eq!(d.advance(true), FileOp::SetModified(1_700_000_000_000));
    assert_eq!(d.advance(true), FileOp::Stop);
    assert_eq!(d.stage, DownloadStage::Finished);
    assert_eq!(session.complete(Outcome::Done), Ok(()));
    let entry = lookup(&session.baseline, "a.txt").unwrap();
    assert_eq!(entry.size, 42);
    assert_eq!(entry.timestamp, 1_700_000_000_000);
}

#[test]
fn local_delete_removes_remote_copy() {
    let baseline = tree(vec![file("notes.txt", 3, 50)]);
    let scanned = ItemTree::new();
    let rem = remote(vec![(11, file("notes.txt", 3, 50))]);
    let actions = reconcile(&baseline, &scanned, &rem.tree);
    assert_eq!(kinds(&actions), vec![(ActionKind::LocalRemoved, "notes.txt".to_string())]);

    let mut session = Session::start(baseline, scanned, rem);
    let a = session.current().unwrap();
    match plan(a.kind, &a.path, &session.scanned, &session.remote).unwrap() {
        Step::TrashRemote { id } => assert_eq!(id, 11),
        _ => panic!("expected a remote deletion"),
    }
    assert_eq!(session.complete(Outcome::Done), Ok(()));
    assert!(lookup(&session.baseline, "notes.txt").is_none());
    assert!(session.remote.tree.items.is_empty());
    let again = reconcile(&session.baseline, &session.scanned, &session.remote.tree);
    assert!(again.is_empty());
}

#[test]
fn add_conflict_names_the_newer_side() {
    let local_newer = reconcile(
        &ItemTree::new(),
        &tree(vec![file("x.md", 1, 200)]),
        &remote(vec![(1, file("x.md", 1, 100))]).tree,
    );
    assert_eq!(kinds(&local_newer), vec![(ActionKind::ConflictAddLocalNewer, "x.md".to_string())]);
    let remote_newer = reconcile(
        &ItemTree::new(),
        &tree(vec![file("x.md", 1, 100)]),
        &remote(vec![(1, file("x.md", 1, 200))]).tree,
    );
    assert_eq!(kinds(&remote_newer), vec![(ActionKind::ConflictAddRemoteNewer, "x.md".to_string())]);
    let equal = reconcile(
        &ItemTree::new(),
        &tree(vec![file("x.md", 1, 100)]),
        &remote(vec![(1, file("x.md", 1, 100))]).tree,
    );
    assert_eq!(kinds(&equal), vec![(ActionKind::ResyncLocal, "x.md".to_string())]);
}

#[test]
fn conflicts_are_reported_and_change_nothing() {
    let baseline = tree(vec![file("f", 1, 10)]);
    let scanned = tree(vec![file("f", 1, 20)]);
    let rem = remote(vec![(1, file("f", 1, 30))]);
    let mut session = Session::start(baseline, scanned, rem);
    let a = session.current().unwrap();
    assert_eq!(a.kind, ActionKind::ConflictBothUpgraded);
    assert_eq!(
        plan(a.kind, &a.path, &session.scanned, &session.remote).err(),
        Some(SyncError::Conflict(ActionKind::ConflictBothUpgraded))
    );
    assert_eq!(session.complete(Outcome::Done), Err(SyncError::Conflict(ActionKind::ConflictBothUpgraded)));
    assert_eq!(session.position, 0);
    assert_eq!(lookup(&session.baseline, "f").unwrap().timestamp, 10);
}

#[test]
fn every_timestamp_combination_is_classified() {
    let cases: Vec<(u64, u64, ActionKind)> = vec![
        (20, 10, ActionKind::LocalUpgraded),
        (10, 20, ActionKind::RemoteUpgraded),
        (20, 20, ActionKind::ConflictBothUpgraded),
        (5, 5, ActionKind::ConflictBothDowngraded),
        (20, 5, ActionKind::ConflictLocalUpgradedRemoteDowngraded),
        (5, 20, ActionKind::ConflictLocalDowngradedRemoteUpgraded),
        (5, 10, ActionKind::ErrorLocalDowngraded),
        (10, 5, ActionKind::ErrorRemoteDowngraded),
    ];
    for (local, rem_ts, expected) in cases {
        let actions = reconcile(
            &tree(vec![file("f", 1, 10)]),
            &tree(vec![file("f", 1, local)]),
            &remote(vec![(1, file("f", 1, rem_ts))]).tree,
        );
        assert_eq!(kinds(&actions), vec![(expected, "f".to_string())]);
    }
}

#[test]
fn removals_follow_the_side_that_lost_the_item() {
    let remote_gone = reconcile(&tree(vec![file("f", 1, 10)]), &tree(vec![file("f", 1, 10)]), &ItemTree::new());
    assert_eq!(kinds(&remote_gone), vec![(ActionKind::RemoteRemoved, "f".to_string())]);
    let both_gone = reconcile(&tree(vec![file("f", 1, 10)]), &ItemTree::new(), &ItemTree::new());
    assert_eq!(kinds(&both_gone), vec![(ActionKind::RemovedOnBothSides, "f".to_string())]);
    let changed_then_gone = reconcile(&tree(vec![file("f", 1, 10)]), &tree(vec![file("f", 1, 30)]), &ItemTree::new());
    assert_eq!(kinds(&changed_then_gone), vec![(ActionKind::ConflictLocalUpgradedRemoteDowngraded, "f".to_string())]);
}

#[test]
fn unchanged_trees_need_nothing_and_metadata_drift_is_resynced() {
    let b = tree(vec![dir("d", 0), file("d/f", 4, 10)]);
    let s = tree(vec![dir("d", 0), file("d/f", 5, 10)]);
    let r = remote(vec![(1, dir("d", 0)), (2, file("d/f", 4, 10))]);
    let actions = reconcile(&b, &s, &r.tree);
    assert_eq!(kinds(&actions), vec![(ActionKind::ResyncLocal, "d/f".to_string())]);
    let same = reconcile(&s, &s, &r.tree);
    assert!(same.is_empty());
}

#[test]
fn directory_created_on_both_sides_is_compared_by_timestamp() {
    let newer_local = reconcile(&ItemTree::new(), &tree(vec![dir("d", 9)]), &remote(vec![(1, dir("d", 0))]).tree);
    assert_eq!(kinds(&newer_local), vec![(ActionKind::ConflictAddLocalNewer, "d".to_string())]);
    let newer_remote = reconcile(&ItemTree::new(), &tree(vec![dir("d", 0)]), &remote(vec![(1, dir("d", 9))]).tree);
    assert_eq!(kinds(&newer_remote), vec![(ActionKind::ConflictAddRemoteNewer, "d".to_string())]);
    let same = reconcile(&ItemTree::new(), &tree(vec![dir("d", 0)]), &remote(vec![(1, dir("d", 0))]).tree);
    assert_eq!(kinds(&same), vec![(ActionKind::ResyncLocal, "d".to_string())]);
}

#[test]
fn second_reconciliation_after_applying_everything_is_empty() {
    let baseline = tree(vec![file("keep", 1, 10), file("gone", 1, 10)]);
    let scanned = tree(vec![file("keep", 1, 10), file("new_local", 2, 30)]);
    let rem = remote(vec![(1, file("keep", 1, 10)), (2, file("gone", 1, 10)), (3, file("new_remote", 5, 40))]);
    let mut session = Session::start(baseline, scanned, rem);
    let mut next_id: i64 = 100;
    while let Some(a) = session.current() {
        let outcome = match plan(a.kind, &a.path, &session.scanned, &session.remote).unwrap() {
            Step::UploadFile { path, parent, .. } => {
                let node = lookup(&session.scanned, std::str::from_utf8(&path).unwrap()).unwrap().clone();
                next_id += 1;
                Outcome::RemoteCreated(RemoteItem { id: next_id, parent_item: parent, node })
            }
            _ => Outcome::Done,
        };
        session.complete(outcome).unwrap();
    }
    let mut scanned = session.scanned.items.clone();
    scanned.push(file("new_remote", 5, 40));
    let again = reconcile(&session.baseline, &tree(scanned), &session.remote.tree);
    assert!(again.is_empty());
}

#[test]
fn coverage_one_action_per_new_path() {
    let scanned = tree(vec![dir("a", 0), file("a/b", 2, 3), file("c", 4, 5)]);
    let rem = remote(vec![(1, file("r1", 1, 1)), (2, file("r2", 1, 1))]);
    let actions = reconcile(&ItemTree::new(), &scanned, &rem.tree);
    assert_eq!(
        kinds(&actions),
        vec![
            (ActionKind::LocalAdded, "a".to_string()),
            (ActionKind::LocalAdded, "c".to_string()),
            (ActionKind::RemoteAdded, "r1".to_string()),
            (ActionKind::RemoteAdded, "r2".to_string()),
            (ActionKind::LocalAdded, "a/b".to_string()),
        ]
    );
    assert_eq!(actions[4].scanned, Some(1));
    assert_eq!(actions[2].remote, Some(0));
}

#[test]
fn directories_come_before_their_content() {
    let rem = remote(vec![(1, file("top/sub/f.txt", 1, 1)), (2, dir("top/sub", 0)), (3, dir("top", 0))]);
    let actions = reconcile(&ItemTree::new(), &ItemTree::new(), &rem.tree);
    assert_eq!(
        kinds(&actions),
        vec![
            (ActionKind::RemoteAdded, "top".to_string()),
            (ActionKind::RemoteAdded, "top/sub".to_string()),
            (ActionKind::RemoteAdded, "top/sub/f.txt".to_string()),
        ]
    );
}

#[test]
fn empty_trees_give_no_action() {
    let actions = reconcile(&ItemTree::new(), &ItemTree::new(), &ItemTree::new());
    assert!(actions.is_empty());
    let session = Session::start(ItemTree::new(), ItemTree::new(), RemoteTree::new());
    assert!(session.current().is_none());
}

#[test]
fn upload_into_unknown_remote_directory_is_not_found() {
    let scanned = tree(vec![file("missing/f", 1, 1)]);
    assert_eq!(
        plan(ActionKind::LocalAdded, &b"missing/f".to_vec(), &scanned, &RemoteTree::new()).err(),
        Some(SyncError::NotFound)
    );
    match plan(ActionKind::LocalAdded, &b"missing".to_vec(), &tree(vec![dir("missing", 0)]), &RemoteTree::new()).unwrap() {
        Step::CreateRemoteDirectory { path, parent } => {
            assert_eq!(path, b"missing".to_vec());
            assert_eq!(parent, None);
        }
        _ => panic!("expected a directory creation"),
    }
}

#[test]
fn failed_transfer_aborts_and_keeps_the_baseline() {
    let rem = remote(vec![(3, file("a.txt", 42, 77))]);
    let mut session = Session::start(ItemTree::new(), ItemTree::new(), rem);
    assert_eq!(session.complete(Outcome::Failed(SyncError::Network)), Err(SyncError::Network));
    assert_eq!(session.position, 0);
    assert!(session.baseline.items.is_empty());
}

#[test]
fn interrupted_download_never_touches_destination() {
    let mut d = Download::new(5);
    assert_eq!(d.advance(false), FileOp::RemoveTemporary);
    assert_eq!(d.stage, DownloadStage::Aborted);
    assert_eq!(d.advance(true), FileOp::Stop);
    let mut r = Download::new(5);
    assert_eq!(r.advance(true), FileOp::RenameIntoPlace);
    assert_eq!(r.advance(false), FileOp::RemoveTemporary);
}

#[test]
fn upload_answer_for_another_path_is_a_protocol_error() {
    let scanned = tree(vec![file("a", 1, 1)]);
    let mut session = Session::start(ItemTree::new(), scanned, RemoteTree::new());
    let wrong = RemoteItem { id: 1, parent_item: None, node: file("b", 1, 1) };
    assert_eq!(session.complete(Outcome::RemoteCreated(wrong)), Err(SyncError::Protocol));
    assert_eq!(session.complete(Outcome::Done), Err(SyncError::Protocol));
}

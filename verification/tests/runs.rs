use syncer::plan::SyncPlan;
use syncer::run::{unopened, Command, Phase, Step, SyncRun};
use syncer::snapshot::{SnapshotFileMetadata, SnapshotItemMetadata};

fn metadata() -> SnapshotFileMetadata {
    SnapshotFileMetadata { size: 1, last_modif_date: 2, last_modif_date_ns: 3 }
}

fn plan(deletions: &[&str], dirs: &[&str], files: &[&str]) -> SyncPlan {
    SyncPlan {
        to_delete: deletions
            .iter()
            .map(|p| (p.to_string(), SnapshotItemMetadata::Directory))
            .collect(),
        to_create_dirs: dirs.iter().map(|p| p.to_string()).collect(),
        to_transfer: files.iter().map(|p| (p.to_string(), metadata())).collect(),
    }
}

fn show(step: Step) -> String {
    match step {
        Step::Start(Command::Delete { path, item: _ }) => format!("delete {path}"),
        Step::Start(Command::CreateDir { path }) => format!("create {path}"),
        Step::Start(Command::Transfer { path, metadata: _ }) => format!("send {path}"),
        Step::Wait => "wait".to_string(),
        Step::Done => "done".to_string(),
    }
}

#[test]
fn phases_follow_each_other() {
    let mut run = SyncRun::new(plan(&["x", "y"], &["d"], &["f"]), 8);
    assert_eq!(show(run.next_step()), "delete x");
    assert_eq!(show(run.next_step()), "delete y");
    assert_eq!(show(run.next_step()), "wait");
    run.finished(None);
    assert_eq!(show(run.next_step()), "wait");
    assert_eq!(run.phase, Phase::Deleting);
    run.finished(None);
    assert_eq!(show(run.next_step()), "create d");
    assert_eq!(run.phase, Phase::CreatingDirs);
    assert_eq!(show(run.next_step()), "wait");
    run.finished(None);
    assert_eq!(show(run.next_step()), "send f");
    assert_eq!(run.phase, Phase::Transferring);
    assert_eq!(show(run.next_step()), "wait");
    run.finished(None);
    assert_eq!(show(run.next_step()), "done");
    assert_eq!(show(run.next_step()), "done");
    assert_eq!(run.outcome(), Ok(()));
}

#[test]
fn empty_phases_are_passed_over() {
    assert_eq!(show(SyncRun::new(plan(&[], &[], &[]), 8).next_step()), "done");
    assert_eq!(show(SyncRun::new(plan(&[], &[], &["f"]), 8).next_step()), "send f");
    assert_eq!(show(SyncRun::new(plan(&[], &["d"], &["f"]), 8).next_step()), "create d");
    let mut run = SyncRun::new(plan(&["x"], &[], &["f"]), 8);
    assert_eq!(show(run.next_step()), "delete x");
    run.finished(None);
    assert_eq!(show(run.next_step()), "send f");
}

#[test]
fn transfers_are_limited() {
    let files: Vec<String> = (0..10).map(|i| format!("f{i}")).collect();
    let files: Vec<&str> = files.iter().map(|f| f.as_str()).collect();
    for (limit, expected) in [(1, 1), (3, 3), (20, 10), (0, 1)] {
        let mut run = SyncRun::new(plan(&[], &[], &files), limit);
        let mut started = Vec::new();
        let mut most = 0;
        loop {
            match run.next_step() {
                Step::Start(Command::Transfer { path, metadata: _ }) => started.push(path),
                Step::Start(other) => panic!("{other:?}"),
                Step::Wait => run.finished(None),
                Step::Done => break,
            }
            most = most.max(run.running);
        }
        assert_eq!(most, expected);
        assert_eq!(started, files);
    }
}

#[test]
fn deletions_are_not_limited() {
    let mut run = SyncRun::new(plan(&["a", "b", "c"], &[], &[]), 1);
    assert_eq!(show(run.next_step()), "delete a");
    assert_eq!(show(run.next_step()), "delete b");
    assert_eq!(show(run.next_step()), "delete c");
    assert_eq!(run.running, 3);
}

#[test]
fn errors_are_reported() {
    let mut run = SyncRun::new(plan(&["a", "b", "c"], &[], &[]), 1);
    assert_eq!(run.error_report(), "Running... (encountered 0 error(s))\n");
    for _ in 0..3 {
        run.next_step();
    }
    run.finished(Some("first".to_string()));
    run.finished(None);
    run.finished(Some("second".to_string()));
    assert_eq!(run.error_report(), "Running... (encountered 2 error(s))\n\n* first\n* second");
    assert_eq!(run.outcome(), Err("2 error(s) occurred.".to_string()));
}

#[test]
fn failures_are_told() {
    let delete =
        Command::Delete { path: "p".to_string(), item: SnapshotItemMetadata::Directory };
    let create = Command::CreateDir { path: "p".to_string() };
    let send = Command::Transfer { path: "p".to_string(), metadata: metadata() };
    assert_eq!(delete.refused("e"), "Failed to delete item at 'p': e");
    assert_eq!(create.refused("e"), "Failed to create directory 'p': e");
    assert_eq!(send.refused("e"), "Failed to transfer file 'p': e");
    assert_eq!(delete.unsent("e"), "Failed to send deletion request for item 'p': e");
    assert_eq!(create.unsent("e"), "Failed to send directory creation request 'p': e");
    assert_eq!(send.unsent("e"), "Failed to complete request for file 'p': e");
    assert_eq!(unopened("p", "e"), "Failed to open file 'p' for transfer: e");
}

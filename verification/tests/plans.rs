use std::collections::BTreeMap;

use syncer::diffing::{build_diff, Diff, DiffItemModified};
use syncer::plan::{counts_as_modified, ignored_message, nothing_to_do, ModifiedItems, SyncPlan};
use syncer::run::{Command, Step, SyncRun};
use syncer::snapshot::{Snapshot, SnapshotFileMetadata, SnapshotItem, SnapshotItemMetadata};

const DIR: SnapshotItemMetadata = SnapshotItemMetadata::Directory;

fn metadata(size: u64, date: u64, ns: u32) -> SnapshotFileMetadata {
    SnapshotFileMetadata { size, last_modif_date: date, last_modif_date_ns: ns }
}

fn file(size: u64, date: u64) -> SnapshotItemMetadata {
    SnapshotItemMetadata::File(metadata(size, date, 0))
}

fn snapshot(items: &[(&str, SnapshotItemMetadata)]) -> Snapshot {
    Snapshot {
        from_dir: "/data".to_string(),
        items: items
            .iter()
            .map(|(path, metadata)| SnapshotItem {
                relative_path: path.to_string(),
                metadata: *metadata,
            })
            .collect(),
    }
}

fn contents(items: &[(&str, SnapshotItemMetadata)]) -> BTreeMap<String, SnapshotItemMetadata> {
    items.iter().map(|(p, m)| (p.to_string(), *m)).collect()
}

fn apply(server: &mut BTreeMap<String, SnapshotItemMetadata>, command: Command) {
    match command {
        Command::Delete { path, item } => assert_eq!(server.remove(&path), Some(item)),
        Command::CreateDir { path } => assert_eq!(server.insert(path, DIR), None),
        Command::Transfer { path, metadata } => {
            server.insert(path, SnapshotItemMetadata::File(metadata));
        }
    }
}

fn sync(
    local: &[(&str, SnapshotItemMetadata)],
    remote: &[(&str, SnapshotItemMetadata)],
) -> BTreeMap<String, SnapshotItemMetadata> {
    let plan = SyncPlan::new(&build_diff(&snapshot(local), &snapshot(remote)));
    let mut run = SyncRun::new(plan, 2);
    let mut server = contents(remote);
    let mut started = Vec::new();
    loop {
        match run.next_step() {
            Step::Start(command) => started.push(command),
            Step::Wait => {
                apply(&mut server, started.remove(0));
                run.finished(None);
            }
            Step::Done => break,
        }
    }
    assert!(started.is_empty());
    assert!(run.outcome().is_ok());
    server
}

#[test]
fn modifications_within_a_second_do_not_count() {
    let with = |prev, new| counts_as_modified(&DiffItemModified { prev, new });
    assert!(!with(metadata(1, 10, 0), metadata(1, 10, 999)));
    assert!(!with(metadata(1, 10, 0), metadata(1, 11, 0)));
    assert!(!with(metadata(1, 11, 0), metadata(1, 10, 0)));
    assert!(with(metadata(1, 10, 0), metadata(1, 12, 0)));
    assert!(with(metadata(1, 12, 0), metadata(1, 10, 0)));
    assert!(with(metadata(1, 10, 0), metadata(2, 10, 0)));
    assert!(with(metadata(1, 0, 0), metadata(1, u64::MAX, 0)));
}

#[test]
fn modifications_are_set_apart() {
    let small = DiffItemModified { prev: metadata(1, 1, 0), new: metadata(1, 2, 0) };
    let large = DiffItemModified { prev: metadata(1, 1, 0), new: metadata(1, 3, 0) };
    let items = ModifiedItems::new(vec![
        ("a".to_string(), large),
        ("b".to_string(), small),
        ("c".to_string(), large),
    ]);
    assert_eq!(items.kept, vec![("a".to_string(), large), ("c".to_string(), large)]);
    assert_eq!(items.ignored, vec![("b".to_string(), small)]);
    assert_eq!(
        ignored_message("b"),
        "Ignoring modified item 'b' as modification time is no more than 2 seconds."
    );
}

#[test]
fn nothing_is_to_do_without_changes() {
    let same = [("a", DIR)];
    assert!(nothing_to_do(&build_diff(&snapshot(&same), &snapshot(&same))));
    assert!(!nothing_to_do(&build_diff(&snapshot(&same), &snapshot(&[]))));
    assert!(!nothing_to_do(&build_diff(&snapshot(&[]), &snapshot(&same))));
    assert!(!nothing_to_do(&build_diff(&snapshot(&[("a", file(1, 1))]), &snapshot(&same))));
    assert!(!nothing_to_do(&build_diff(
        &snapshot(&[("a", file(1, 1))]),
        &snapshot(&[("a", file(2, 1))])
    )));
}

#[test]
fn plans_come_in_order() {
    let local = [
        ("new", DIR),
        ("new/sub", DIR),
        ("new/f", file(1, 1)),
        ("m", file(2, 2)),
        ("became_dir", DIR),
        ("became_file", file(3, 3)),
    ];
    let remote = [
        ("m", file(9, 9)),
        ("became_dir", file(4, 4)),
        ("became_file", DIR),
        ("old", DIR),
        ("old/f", file(5, 5)),
    ];
    let plan = SyncPlan::new(&build_diff(&snapshot(&local), &snapshot(&remote)));
    assert_eq!(
        plan.to_create_dirs,
        vec!["new".to_string(), "new/sub".to_string(), "became_dir".to_string()]
    );
    assert_eq!(
        plan.to_transfer,
        vec![
            ("new/f".to_string(), metadata(1, 1, 0)),
            ("m".to_string(), metadata(2, 2, 0)),
            ("became_file".to_string(), metadata(3, 3, 0)),
        ]
    );
    assert_eq!(
        plan.to_delete,
        vec![
            ("became_file".to_string(), DIR),
            ("became_dir".to_string(), file(4, 4)),
            ("old/f".to_string(), file(5, 5)),
            ("old".to_string(), DIR),
        ]
    );
    assert_eq!(plan.transfer_size(), Some(6));
}

#[test]
fn sizes_too_large_are_not_added_up() {
    let plan = |a: u64, b: u64| SyncPlan {
        to_delete: vec![],
        to_create_dirs: vec![],
        to_transfer: vec![
            ("a".to_string(), metadata(a, 0, 0)),
            ("b".to_string(), metadata(b, 0, 0)),
        ],
    };
    assert_eq!(plan(u64::MAX - 1, 1).transfer_size(), Some(u64::MAX));
    assert_eq!(plan(u64::MAX, 1).transfer_size(), None);
}

#[test]
fn a_plan_makes_the_server_hold_what_the_client_holds() {
    let local = [
        ("a", DIR),
        ("a/b", DIR),
        ("a/b/c", file(1, 1)),
        ("m", file(2, 2)),
        ("same", file(3, 3)),
        ("t", DIR),
        ("u", file(4, 4)),
    ];
    let remote = [
        ("gone", DIR),
        ("gone/x", file(7, 7)),
        ("m", file(8, 8)),
        ("same", file(3, 3)),
        ("t", file(9, 9)),
        ("u", DIR),
    ];
    assert_eq!(sync(&local, &remote), contents(&local));
    assert_eq!(sync(&remote, &local), contents(&remote));
    assert_eq!(sync(&local, &[]), contents(&local));
    assert_eq!(sync(&[], &remote), contents(&[]));
}

#[test]
fn a_reduced_plan_leaves_small_modifications() {
    let local = [("f", file(1, 11)), ("g", file(1, 20))];
    let remote = [("f", file(1, 10)), ("g", file(1, 10))];
    let Diff { added, modified, type_changed, deleted } =
        build_diff(&snapshot(&local), &snapshot(&remote));
    let modified = ModifiedItems::new(modified).kept;
    let plan = SyncPlan::new(&Diff { added, modified, type_changed, deleted });
    assert_eq!(plan.to_transfer, vec![("g".to_string(), metadata(1, 20, 0))]);
    assert!(plan.to_delete.is_empty() && plan.to_create_dirs.is_empty());
}

#[test]
fn what_is_told_last_of_a_path_prevails() {
    let told = [("x", file(1, 1)), ("x", file(2, 2))];
    let plan = SyncPlan::new(&build_diff(&snapshot(&told), &snapshot(&[("x", file(3, 3))])));
    assert_eq!(
        plan.to_transfer,
        vec![("x".to_string(), metadata(1, 1, 0)), ("x".to_string(), metadata(2, 2, 0))]
    );
    assert_eq!(sync(&told, &[("x", file(3, 3))]), contents(&[("x", file(2, 2))]));
}

#[test]
fn parents_are_created_first_and_deleted_last() {
    let tree = [("a/b/c", DIR), ("a", DIR), ("a/b", DIR), ("a-b", DIR)];
    let plan = SyncPlan::new(&build_diff(&snapshot(&tree), &snapshot(&[("z", file(1, 1))])));
    assert_eq!(plan.to_create_dirs, vec!["a", "a-b", "a/b", "a/b/c"]);
    let plan = SyncPlan::new(&build_diff(&snapshot(&[]), &snapshot(&tree)));
    let deleted: Vec<&str> = plan.to_delete.iter().map(|(p, _)| p.as_str()).collect();
    assert_eq!(deleted, vec!["a/b/c", "a/b", "a-b", "a"]);
}

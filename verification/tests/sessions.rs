use syncer::plan::ModifiedItems;
use syncer::remote::Server;
use syncer::run::{Command, Step};
use syncer::server::PING_ANSWER;
use syncer::session::{
    Event, Next, PingFailure, Proposal, Session, SnapshotFailure, Snapshots, Stage, CANCELLED,
    NOTHING_TO_DO, SYNCHRONIZED,
};
use syncer::snapshot::{Snapshot, SnapshotFileMetadata, SnapshotItem, SnapshotItemMetadata};
use syncer::walk::{ItemError, SnapshotError};

fn list(items: &[&str]) -> Vec<String> {
    items.iter().map(|s| s.to_string()).collect()
}

fn snapshot(files: &[(&str, u64, u64)]) -> Snapshot {
    Snapshot {
        from_dir: "/d".to_string(),
        items: files
            .iter()
            .map(|(path, size, date)| SnapshotItem {
                relative_path: path.to_string(),
                metadata: SnapshotItemMetadata::File(SnapshotFileMetadata {
                    size: *size,
                    last_modif_date: *date,
                    last_modif_date_ns: 0,
                }),
            })
            .collect(),
    }
}

fn at(stage: Stage) -> Session {
    Session { stage, max_parallel_transfers: 3 }
}

fn failure(stage: Stage, event: Event) -> Vec<String> {
    let session = at(stage);
    assert!(session.is_awaited(&event));
    match session.step(event) {
        (Session { stage: Stage::Ended, .. }, Next::Fail(messages)) => messages,
        other => panic!("{other:?}"),
    }
}

fn compared(local: Snapshot, remote: Snapshot) -> (Session, Next) {
    at(Stage::Snapshots).step(Event::SnapshotsTaken(Ok(Snapshots { local, remote })))
}

#[test]
fn a_session_goes_from_stage_to_stage() {
    let session = Session::new(3);
    let (session, next) = session.step(Event::DirectoryChecked { found: true });
    assert!(matches!(next, Next::ReadAddress));
    let server = Server::new("http://host", "s".to_string());
    let (session, next) = session.step(Event::AddressRead(server));
    match next {
        Next::Ping(server) => assert_eq!(server.url, "http://host/"),
        other => panic!("{other:?}"),
    }
    let (session, next) = session.step(Event::PingAnswered(Ok(PING_ANSWER.to_string())));
    assert!(matches!(next, Next::TakeSnapshots));
    let event = Event::SnapshotsTaken(Ok(Snapshots {
        local: snapshot(&[("f", 1, 1)]),
        remote: snapshot(&[]),
    }));
    let (session, next) = session.step(event);
    assert!(matches!(next, Next::Ask(_)));
    let (session, next) = session.step(Event::QuestionAnswered(Ok(true)));
    match next {
        Next::Run(mut run) => {
            assert_eq!(run.max_parallel_transfers, 3);
            match run.next_step() {
                Step::Start(Command::Transfer { path, metadata: _ }) => assert_eq!(path, "f"),
                other => panic!("{other:?}"),
            }
        }
        other => panic!("{other:?}"),
    }
    let (session, next) = session.step(Event::RequestsEnded(Ok(())));
    assert!(matches!(next, Next::Finish));
    assert!(matches!(session.stage, Stage::Ended));
}

#[test]
fn a_session_waits_for_one_event() {
    let session = Session::new(1);
    assert!(session.is_awaited(&Event::DirectoryChecked { found: false }));
    assert!(!session.is_awaited(&Event::PingAnswered(Ok(PING_ANSWER.to_string()))));
    assert!(!session.is_awaited(&Event::QuestionAnswered(Ok(true))));
    assert!(!at(Stage::Ended).is_awaited(&Event::RequestsEnded(Ok(()))));
    assert!(at(Stage::Requests).is_awaited(&Event::RequestsEnded(Ok(()))));
}

#[test]
fn failures_end_a_session() {
    assert_eq!(
        failure(Stage::Directory, Event::DirectoryChecked { found: false }),
        list(&["Provided data directory was not found"])
    );
    assert_eq!(
        failure(Stage::Address, Event::AddressRead(Server::new("x", "s".to_string()))),
        list(&["Failed to parse provided server address", "relative URL without a base"])
    );
    assert_eq!(
        failure(Stage::Ping, Event::PingAnswered(Ok("hello".to_string()))),
        vec![format!("Server did not respond '{PING_ANSWER}' to ping request, but 'hello'")]
    );
    assert_eq!(
        failure(Stage::Ping, Event::PingAnswered(Err(PingFailure::NotSent(list(&["a", "b"]))))),
        list(&["Failed to ping server", "a", "b"])
    );
    assert_eq!(
        failure(Stage::Ping, Event::PingAnswered(Err(PingFailure::NotText(list(&["a"]))))),
        list(&["Failed to convert response to plain text", "a"])
    );
    let missing = |f: SnapshotFailure| failure(Stage::Snapshots, Event::SnapshotsTaken(Err(f)));
    assert_eq!(missing(SnapshotFailure::NoAddress("a".to_string())), list(&["a"]));
    assert_eq!(
        missing(SnapshotFailure::NotSent(list(&["a"]))),
        list(&["Failed to get remote snapshot", "a"])
    );
    assert_eq!(
        missing(SnapshotFailure::Refused(list(&["a"]))),
        list(&["Failed to build remote snapshot", "a"])
    );
    assert_eq!(
        missing(SnapshotFailure::NotReadable(list(&["a"]))),
        list(&["Failed to deserialize server's response", "a"])
    );
    assert_eq!(
        missing(SnapshotFailure::Local(SnapshotError::Item {
            path: "/d/x".to_string(),
            cause: ItemError::NoModificationTime {
                path: "/d/x".to_string(),
                cause: "why".to_string()
            },
        })),
        list(&[
            "Failed analysis on filesystem item: /d/x",
            "Failed to get modification time of file: /d/x",
            "why",
        ])
    );
    assert_eq!(
        missing(SnapshotFailure::Local(SnapshotError::Walk {
            reason: "stopped".to_string(),
            causes: list(&["denied"]),
        })),
        list(&["stopped", "denied"])
    );
    assert_eq!(
        failure(Stage::Requests, Event::RequestsEnded(Err(list(&["2 error(s) occurred."])))),
        list(&["2 error(s) occurred."])
    );
}

#[test]
fn nothing_is_asked_where_nothing_counts() {
    let (session, next) =
        compared(snapshot(&[("f", 1, 10), ("g", 2, 2)]), snapshot(&[("f", 1, 11), ("g", 2, 2)]));
    assert!(matches!(session.stage, Stage::Ended));
    match next {
        Next::NothingToDo(ignored) => {
            assert_eq!(ignored.len(), 1);
            assert_eq!(ignored[0].0, "f");
        }
        other => panic!("{other:?}"),
    }
}

#[test]
fn what_counts_is_proposed() {
    let (session, next) = compared(
        snapshot(&[("f", 1, 10), ("g", 2, 2), ("h", 5, 5)]),
        snapshot(&[("f", 1, 11), ("g", 3, 2), ("old", 1, 1)]),
    );
    match next {
        Next::Ask(Proposal { diff, ignored, files, dirs, deletions, size }) => {
            assert_eq!(ignored[0].0, "f");
            assert_eq!(diff.modified.len(), 1);
            assert_eq!(diff.modified[0].0, "g");
            assert_eq!((files, dirs, deletions, size), (2, 0, 1, Some(7)));
        }
        other => panic!("{other:?}"),
    }
    match session.stage {
        Stage::Question(plan) => assert_eq!(plan.to_delete[0].0, "old"),
        other => panic!("{other:?}"),
    }
}

#[test]
fn nothing_is_sent_without_consent() {
    let asked = || compared(snapshot(&[("f", 1, 1)]), snapshot(&[])).0;
    let (session, next) = asked().step(Event::QuestionAnswered(Ok(false)));
    assert!(matches!(next, Next::Cancel));
    assert!(matches!(session.stage, Stage::Ended));
    match asked().step(Event::QuestionAnswered(Err(list(&["no terminal"])))) {
        (Session { stage: Stage::Ended, .. }, Next::Fail(messages)) => {
            assert_eq!(messages, list(&["no terminal"]));
        }
        other => panic!("{other:?}"),
    }
}

#[test]
fn endings_are_told() {
    assert_eq!(NOTHING_TO_DO, "Nothing to do!");
    assert_eq!(CANCELLED, "Transfer was cancelled.");
    assert_eq!(SYNCHRONIZED, "Synchronized successfully.");
}

#[test]
fn diffs_are_reduced() {
    let full = || {
        syncer::diffing::build_diff(
            &snapshot(&[("f", 1, 10), ("g", 2, 2), ("h", 5, 5)]),
            &snapshot(&[("f", 1, 11), ("g", 3, 2), ("old", 1, 1)]),
        )
    };
    let (reduced, ignored) = full().without_insignificant();
    let apart = ModifiedItems::new(full().modified);
    assert_eq!(reduced.modified, apart.kept);
    assert_eq!(ignored, apart.ignored);
    assert_eq!(reduced.added, full().added);
    assert_eq!(reduced.type_changed, full().type_changed);
    assert_eq!(reduced.deleted, full().deleted);
}

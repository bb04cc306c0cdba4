use syncer::path::{same_path, stripped};
use syncer::server::fs::{
    create_dir, read_file, remove_dir, remove_file, validate_data_dir_descendent, write_file,
    FileMetadataQuery, PathFacts, PathQuery, WriteFailure,
};
use syncer::server::{ping, snapshot, Refusal, StateInner, Status};
use syncer::snapshot::{Snapshot, SnapshotResult};
use syncer::walk::{ItemError, SnapshotError};

const NOTHING: PathFacts =
    PathFacts { exists: false, is_symlink: false, is_dir: false, is_file: false };
const FILE: PathFacts = PathFacts { exists: true, is_symlink: false, is_dir: false, is_file: true };
const DIR: PathFacts = PathFacts { exists: true, is_symlink: false, is_dir: true, is_file: false };
const LINK: PathFacts = PathFacts { exists: true, is_symlink: true, is_dir: false, is_file: true };
const BROKEN: PathFacts =
    PathFacts { exists: false, is_symlink: true, is_dir: false, is_file: false };

fn state() -> StateInner {
    StateInner { data_dir: b"/data".to_vec() }
}

fn query(path: &str) -> PathQuery {
    PathQuery { path: path.as_bytes().to_vec() }
}

fn told(r: Result<Vec<u8>, Refusal>) -> Result<String, (u16, String)> {
    match r {
        Ok(path) => Ok(String::from_utf8(path).unwrap()),
        Err(e) => Err((e.status.code(), e.message)),
    }
}

fn refused(code: u16, message: &str) -> Result<String, (u16, String)> {
    Err((code, message.to_string()))
}

fn metadata(size: u64) -> FileMetadataQuery {
    FileMetadataQuery { last_modification: -12, last_modification_ns: 34, size }
}

#[test]
fn paths_outside_the_data_directory_are_refused() {
    let outside = refused(400, "Provided path is not a descendent of the data directory");
    assert_eq!(told(validate_data_dir_descendent(b"a/b", b"/data")), Ok("/data/a/b".to_string()));
    assert_eq!(told(validate_data_dir_descendent(b"/etc", b"/data")), outside);
    assert_eq!(
        told(validate_data_dir_descendent(b"/data/x", b"/data")),
        Ok("/data/x".to_string())
    );
    for facts in [NOTHING, FILE, DIR, LINK, BROKEN] {
        let q = query("/etc");
        assert_eq!(told(read_file(&state(), &q, &facts)), outside);
        assert_eq!(told(remove_file(&state(), &q, &facts)), outside);
        assert_eq!(told(create_dir(&state(), &q, &facts)), outside);
        assert_eq!(told(remove_dir(&state(), &q, &facts)), outside);
        let e = write_file(&state(), &q, &metadata(1), &facts).unwrap_err();
        assert_eq!(told(Err(e)), outside);
    }
}

#[test]
fn files_are_read() {
    let read = |facts: &PathFacts| told(read_file(&state(), &query("f"), facts));
    assert_eq!(read(&FILE), Ok("/data/f".to_string()));
    assert_eq!(read(&NOTHING), refused(400, "Provided path does not exist"));
    assert_eq!(read(&BROKEN), refused(400, "Provided path does not exist"));
    assert_eq!(read(&LINK), refused(400, "Provided path is a symbolic link"));
    assert_eq!(read(&DIR), refused(400, "Provided path is a directory"));
}

#[test]
fn files_are_removed() {
    let remove = |facts: &PathFacts| told(remove_file(&state(), &query("f"), facts));
    assert_eq!(remove(&FILE), Ok("/data/f".to_string()));
    assert_eq!(remove(&NOTHING), refused(400, "Provided path does not exist"));
    assert_eq!(remove(&LINK), refused(400, "Provided path is a symbolic link"));
    assert_eq!(remove(&DIR), refused(400, "Provided path is not a file"));
}

#[test]
fn directories_are_created() {
    let create = |facts: &PathFacts| told(create_dir(&state(), &query("d"), facts));
    assert_eq!(create(&NOTHING), Ok("/data/d".to_string()));
    assert_eq!(create(&FILE), refused(409, "Provided path already exists"));
    assert_eq!(create(&LINK), refused(409, "Provided path already exists"));
    assert_eq!(create(&BROKEN), refused(409, "Provided path is a symbolic link"));
}

#[test]
fn directories_are_removed() {
    let remove = |facts: &PathFacts| told(remove_dir(&state(), &query("d"), facts));
    assert_eq!(remove(&DIR), Ok("/data/d".to_string()));
    assert_eq!(remove(&NOTHING), refused(409, "Provided path does not exist"));
    assert_eq!(remove(&LINK), refused(409, "Provided path is a symbolic link"));
    assert_eq!(remove(&FILE), refused(409, "Provided path is not a directory"));
}

#[test]
fn files_are_written() {
    let mut write = write_file(&state(), &query("a/f"), &metadata(5), &NOTHING).unwrap();
    assert_eq!(write.path, b"/data/a/f".to_vec());
    assert_eq!(write.tmp_path, b"/data/a/.tmp--12-34-5".to_vec());
    write.receive(2);
    write.receive(0);
    write.receive(3);
    assert_eq!(write.written, 5);
    let commit = write.complete().unwrap();
    assert_eq!(commit.tmp_path, b"/data/a/.tmp--12-34-5".to_vec());
    assert_eq!(commit.path, b"/data/a/f".to_vec());
    assert_eq!((commit.last_modification, commit.last_modification_ns), (-12, 34));
    assert!(write_file(&state(), &query("f"), &metadata(5), &FILE).is_ok());
}

#[test]
fn files_of_the_wrong_size_are_not_put_in_place() {
    for received in [0, 4, 6] {
        let mut write = write_file(&state(), &query("f"), &metadata(5), &NOTHING).unwrap();
        write.receive(received);
        let e = write.complete().unwrap_err();
        assert_eq!(e.status, Status::BadRequest);
        assert_eq!(e.message, "Provided size does not match transmitted content");
    }
}

#[test]
fn files_are_not_written_over_links_or_directories() {
    let refusal = |facts: &PathFacts| {
        let e = write_file(&state(), &query("f"), &metadata(5), facts).unwrap_err();
        told(Err(e))
    };
    assert_eq!(refusal(&LINK), refused(400, "Provided path is a symbolic link"));
    assert_eq!(refusal(&BROKEN), refused(400, "Provided path is a symbolic link"));
    assert_eq!(refusal(&DIR), refused(400, "Provided path is a directory"));
}

#[test]
fn files_are_received_next_to_their_place() {
    for path in ["f", "a/f", "a/b/f"] {
        let write = write_file(&state(), &query(path), &metadata(5), &NOTHING).unwrap();
        let tmp = stripped(&write.tmp_path, b"/data").unwrap();
        let mut expected = path[..path.len() - 1].to_string();
        expected.push_str(".tmp--12-34-5");
        assert!(same_path(&tmp, expected.as_bytes()));
    }
}

#[test]
fn failed_writes_are_told() {
    let message = |f: WriteFailure| {
        let r = f.refusal();
        (r.status.code(), r.message)
    };
    assert_eq!(message(WriteFailure::Content("full".to_string())), (500, "full".to_string()));
    assert_eq!(
        message(WriteFailure::Rename),
        (500, "Failed to rename temporary file to final name".to_string())
    );
    assert_eq!(
        message(WriteFailure::SetModificationTime),
        (500, "Failed to set modification time".to_string())
    );
    assert_eq!(
        message(WriteFailure::RunSetter),
        (500, "Failed to run modification time setter".to_string())
    );
}

#[test]
fn pings_and_snapshots_are_answered() {
    assert_eq!(ping(), "syncer-server");
    let result = SnapshotResult {
        snapshot: Snapshot { from_dir: "/data".to_string(), items: vec![] },
        debug: vec!["note".to_string()],
    };
    let answer = snapshot(Ok(result)).unwrap();
    assert_eq!(answer.snapshot.from_dir, "/data");
    assert_eq!(answer.debug, vec!["note".to_string()]);
    let e = snapshot(Err(SnapshotError::Item {
        path: "/data/x".to_string(),
        cause: ItemError::Symlink,
    }))
    .unwrap_err();
    assert_eq!(e.status.code(), 500);
    assert_eq!(e.message, "Failed analysis on filesystem item: /data/x");
}

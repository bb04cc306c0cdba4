use syncer::remote::{check_ping, Server};
use syncer::run::Command;
use syncer::server::{ping, Endpoint, Method, PING_ANSWER};
use syncer::snapshot::{SnapshotFileMetadata, SnapshotItemMetadata};

fn file() -> SnapshotFileMetadata {
    SnapshotFileMetadata { size: 10, last_modif_date: 1700000000, last_modif_date_ns: 7 }
}

fn server() -> Server {
    Server::new("http://host:8080", "SECRET".to_string()).unwrap()
}

fn pairs(query: &[(&str, &str)]) -> Vec<(String, String)> {
    query.iter().map(|(k, v)| (k.to_string(), v.to_string())).collect()
}

#[test]
fn addresses_are_read() {
    assert_eq!(server().url, "http://host:8080/");
    assert_eq!(Server::new("HTTP://Host/a/../b", "s".to_string()).unwrap().url, "http://host/b");
    let e = Server::new("no address", "s".to_string()).unwrap_err();
    assert_eq!(e.message(), "Failed to parse provided server address");
    assert_eq!(e.cause, "relative URL without a base");
    let given = Server::at(Err("why".to_string()), "s".to_string()).unwrap_err();
    assert_eq!(given.cause, "why");
    assert_eq!(Server::at(Ok("u".to_string()), "s".to_string()).unwrap().url, "u");
}

#[test]
fn pings_are_asked_and_checked() {
    let request = server().ping_request();
    assert_eq!(request.method, Method::Get);
    assert_eq!(request.url, "http://host:8080/");
    assert_eq!(request.query, pairs(&[]));
    assert_eq!(request.authorization, "Bearer SECRET");
    assert_eq!(check_ping(ping()), Ok(()));
    assert_eq!(
        check_ping("hello"),
        Err(format!("Server did not respond '{PING_ANSWER}' to ping request, but 'hello'"))
    );
}

#[test]
fn snapshots_are_asked_for() {
    let request = server().snapshot_request().unwrap();
    assert_eq!(request.method, Method::Post);
    assert_eq!(request.url, "http://host:8080/snapshot");
    assert_eq!(request.query, pairs(&[]));
    assert_eq!(request.authorization, "Bearer SECRET");
    let below = Server::new("http://host/api/", "s".to_string()).unwrap();
    assert_eq!(below.snapshot_request().unwrap().url, "http://host/api/snapshot");
    let opaque = Server::new("mailto:x", "s".to_string()).unwrap();
    assert_eq!(
        opaque.snapshot_request().unwrap_err(),
        "relative URL with a cannot-be-a-base base"
    );
    assert_eq!(
        server().snapshot_request_at(Err("why".to_string())).unwrap_err(),
        "why"
    );
}

#[test]
fn commands_are_requests() {
    let server = Server::new("http://host/api/", "SECRET".to_string()).unwrap();
    let path = "a b/é".to_string();

    let dir = Command::Delete { path: path.clone(), item: SnapshotItemMetadata::Directory };
    let request = server.command_request(&dir).unwrap();
    assert_eq!(request.method, Method::Delete);
    assert_eq!(request.url, "http://host/fs/dir/delete");
    assert_eq!(request.query, pairs(&[("path", "a b/é")]));
    assert_eq!(request.authorization, "Bearer SECRET");

    let removed = Command::Delete { path: path.clone(), item: SnapshotItemMetadata::File(file()) };
    let request = server.command_request(&removed).unwrap();
    assert_eq!(request.method, Method::Delete);
    assert_eq!(request.url, "http://host/fs/file/delete");

    let created = Command::CreateDir { path: path.clone() };
    let request = server.command_request(&created).unwrap();
    assert_eq!(request.method, Method::Post);
    assert_eq!(request.url, "http://host/fs/dir/create");
    assert_eq!(request.query, pairs(&[("path", "a b/é")]));

    let sent = Command::Transfer { path, metadata: file() };
    let request = server.command_request(&sent).unwrap();
    assert_eq!(request.method, Method::Post);
    assert_eq!(request.url, "http://host/fs/file/write");
    assert_eq!(
        request.query,
        pairs(&[
            ("path", "a b/é"),
            ("last_modification", "1700000000"),
            ("last_modification_ns", "7"),
            ("size", "10"),
        ])
    );
    assert_eq!(request.authorization, "Bearer SECRET");
    assert_eq!(server.command_request_at(&sent, Err("why".to_string())).unwrap_err(), "why");
}

#[test]
fn endpoints_are_apart() {
    let all = [
        (Endpoint::Ping, Method::Get, "/"),
        (Endpoint::Snapshot, Method::Post, "/snapshot"),
        (Endpoint::ReadFile, Method::Get, "/fs/file/read"),
        (Endpoint::WriteFile, Method::Post, "/fs/file/write"),
        (Endpoint::RemoveFile, Method::Delete, "/fs/file/delete"),
        (Endpoint::CreateDir, Method::Post, "/fs/dir/create"),
        (Endpoint::RemoveDir, Method::Delete, "/fs/dir/delete"),
    ];
    for (i, (endpoint, method, path)) in all.iter().enumerate() {
        assert_eq!(endpoint.method(), *method);
        assert_eq!(endpoint.path(), *path);
        for (other, _, _) in &all[i + 1..] {
            assert_ne!(endpoint.path(), other.path());
        }
    }
}

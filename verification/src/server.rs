//! What the server answers.
pub mod fs;

use vstd::prelude::*;

use crate::snapshot::SnapshotResult;
use crate::walk::SnapshotError;

verus! {

/// What the server answers to a ping.
pub const PING_ANSWER: &'static str = "syncer-server";

/// How a request is made.
#[derive(Debug, Clone, Copy, PartialEq, Eq, Structural)]
pub enum Method {
    Get,
    Post,
    Delete,
}

/// What the server can be asked for.
#[derive(Debug, Clone, Copy, PartialEq, Eq, Structural)]
pub enum Endpoint {
    Ping,
    Snapshot,
    ReadFile,
    WriteFile,
    RemoveFile,
    CreateDir,
    RemoveDir,
}

impl Endpoint {
    /// How an endpoint is asked.
    pub open spec fn asked_by(self) -> Method {
        match self {
            Endpoint::Ping | Endpoint::ReadFile => Method::Get,
            Endpoint::Snapshot | Endpoint::WriteFile | Endpoint::CreateDir => Method::Post,
            Endpoint::RemoveFile | Endpoint::RemoveDir => Method::Delete,
        }
    }

    /// Where an endpoint is found.
    pub open spec fn found_at(self) -> Seq<char> {
        match self {
            Endpoint::Ping => "/"@,
            Endpoint::Snapshot => "/snapshot"@,
            Endpoint::ReadFile => "/fs/file/read"@,
            Endpoint::WriteFile => "/fs/file/write"@,
            Endpoint::RemoveFile => "/fs/file/delete"@,
            Endpoint::CreateDir => "/fs/dir/create"@,
            Endpoint::RemoveDir => "/fs/dir/delete"@,
        }
    }

    /// How an endpoint is asked.
    pub fn method(self) -> (r: Method)
        ensures
            r == self.asked_by(),
    {
        match self {
            Endpoint::Ping | Endpoint::ReadFile => Method::Get,
            Endpoint::Snapshot | Endpoint::WriteFile | Endpoint::CreateDir => Method::Post,
            Endpoint::RemoveFile | Endpoint::RemoveDir => Method::Delete,
        }
    }

    /// Where an endpoint is found.
    pub fn path(self) -> (r: &'static str)
        ensures
            r@ == self.found_at(),
    {
        match self {
            Endpoint::Ping => "/",
            Endpoint::Snapshot => "/snapshot",
            Endpoint::ReadFile => "/fs/file/read",
            Endpoint::WriteFile => "/fs/file/write",
            Endpoint::RemoveFile => "/fs/file/delete",
            Endpoint::CreateDir => "/fs/dir/create",
            Endpoint::RemoveDir => "/fs/dir/delete",
        }
    }
}

/// No two endpoints are found at one path.
pub proof fn law_endpoints_are_apart(a: Endpoint, b: Endpoint)
    requires
        a != b,
    ensures
        a.found_at() != b.found_at(),
{
    reveal_strlit("/");
    reveal_strlit("/snapshot");
    reveal_strlit("/fs/file/read");
    reveal_strlit("/fs/file/write");
    reveal_strlit("/fs/file/delete");
    reveal_strlit("/fs/dir/create");
    reveal_strlit("/fs/dir/delete");
    let (p, q) = (a.found_at(), b.found_at());
    assert(p.len() != q.len() || p[4] != q[4] || p[8] != q[8]);
}

/// What the server knows.
#[derive(Debug)]
pub struct StateInner {
    /// The directory that it serves.
    pub data_dir: Vec<u8>,
}

/// How a refused request is answered.
#[derive(Debug, Clone, Copy, PartialEq, Eq, Structural)]
pub enum Status {
    BadRequest,
    Conflict,
    InternalServerError,
}

impl Status {
    /// The number of a status in HTTP.
    pub fn code(&self) -> (r: u16)
        ensures
            r == match *self {
                Status::BadRequest => 400u16,
                Status::Conflict => 409u16,
                Status::InternalServerError => 500u16,
            },
    {
        match self {
            Status::BadRequest => 400,
            Status::Conflict => 409,
            Status::InternalServerError => 500,
        }
    }
}

/// The answer to a request that is refused or that failed.
#[derive(Debug)]
pub struct Refusal {
    pub status: Status,
    pub message: String,
}

impl View for Refusal {
    type V = (Status, Seq<char>);

    open spec fn view(&self) -> (Status, Seq<char>) {
        (self.status, self.message@)
    }
}

impl Refusal {
    /// An answer.
    pub fn new(status: Status, message: &str) -> (r: Self)
        ensures
            r@ == (status, message@),
    {
        Refusal { status, message: String::from_str(message) }
    }

    /// The answer to a request that the server could not carry out.
    pub fn failed(message: String) -> (r: Self)
        ensures
            r@ == (Status::InternalServerError, message@),
    {
        Refusal { status: Status::InternalServerError, message }
    }
}

/// Answers a ping.
pub fn ping() -> (r: &'static str)
    ensures
        r@ == PING_ANSWER@,
{
    PING_ANSWER
}

/// Whether a request for a snapshot is answered as it has to be.
pub open spec fn answers_snapshot(
    result: Result<SnapshotResult, SnapshotError>,
    r: Result<SnapshotResult, Refusal>,
) -> bool {
    match result {
        Ok(s) => r == Ok::<SnapshotResult, Refusal>(s),
        Err(e) => r matches Err(refusal) && refusal@ == (Status::InternalServerError, e.says()),
    }
}

/// Answers a request for a snapshot. An error is told without what caused it.
pub fn snapshot(result: Result<SnapshotResult, SnapshotError>) -> (r: Result<
    SnapshotResult,
    Refusal,
>)
    ensures
        answers_snapshot(result, r),
{
    match result {
        Ok(s) => Ok(s),
        Err(e) => Err(Refusal::failed(e.message())),
    }
}

/// A snapshot is sent as it was made. Where none could be made, the answer tells what went wrong.
pub proof fn law_snapshot_is_sent_as_it_is(
    result: Result<SnapshotResult, SnapshotError>,
    r: Result<SnapshotResult, Refusal>,
)
    requires
        answers_snapshot(result, r),
    ensures
        r is Ok <==> result is Ok,
        r matches Ok(s) ==> {
            &&& s.snapshot.from_dir@ == result->Ok_0.snapshot.from_dir@
            &&& s.snapshot.items@ == result->Ok_0.snapshot.items@
            &&& s.debug@ == result->Ok_0.debug@
        },
        r matches Err(e) ==> e.status == Status::InternalServerError && e.message@
            == result->Err_0.says(),
{
}

/// An answer is seen as its status and its message.
pub proof fn law_refusal_is_seen_as_it_is(r: Refusal)
    ensures
        r@.0 == r.status,
        r@.1 == r.message@,
{
}

} // verus!

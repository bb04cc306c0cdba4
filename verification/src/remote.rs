//! What the client asks of the server.
use vstd::prelude::*;
use vstd::utf8::{encode_utf8, encode_utf8_decode_utf8};

use crate::path::same_bytes;
use crate::run::{Command, Task};
use crate::server::fs::{
    begins_write, completes, law_reception_completes_with_its_size, lies_where_asked, receives,
    total_len, FileCommit, FileMetadataQuery, FileWrite, PathFacts, PathQuery,
};
use crate::server::{Endpoint, Method, Refusal, StateInner, PING_ANSWER};
use crate::snapshot::{SnapshotFileMetadata, SnapshotItemMetadata};
use crate::text::{
    decimal, decimal_text, encloses, is_numeral, law_decimal_denotes, lemma_encloses, numeral,
};

verus! {

// ---------------------------------------------------------------------------------------------
// Addresses
// ---------------------------------------------------------------------------------------------

/// What `reqwest::Url::parse` makes of a text: an address, or what is wrong with the text.
pub uninterp spec fn parsed_url(text: Seq<char>) -> Result<Seq<char>, Seq<char>>;

/// What `reqwest::Url::join` makes of a reference, seen from an address that `reqwest::Url::parse`
/// reads first: an address, or what is wrong with either text.
pub uninterp spec fn joined_url(base: Seq<char>, reference: Seq<char>) -> Result<
    Seq<char>,
    Seq<char>,
>;

/// An address or an error, both taken as text.
pub open spec fn result_text(r: Result<String, String>) -> Result<Seq<char>, Seq<char>> {
    match r {
        Ok(url) => Ok(url@),
        Err(e) => Err(e@),
    }
}

/// Calls `reqwest::Url::parse`. What it gives, the address or the error as they are displayed, is
/// a function of the text; which one it is, is not said.
#[verifier::external_body]
fn parse_url(text: &str) -> (r: Result<String, String>)
    ensures
        result_text(r) == parsed_url(text@),
{
    match reqwest::Url::parse(text) {
        Ok(url) => Ok(url.to_string()),
        Err(err) => Err(err.to_string()),
    }
}

/// Calls `reqwest::Url::join` on an address, read by `reqwest::Url::parse`, and a reference. What
/// they give, the address or the error as they are displayed, is a function of the two texts;
/// which one it is, is not said.
#[verifier::external_body]
fn join_url(base: &str, reference: &str) -> (r: Result<String, String>)
    ensures
        result_text(r) == joined_url(base@, reference@),
{
    match reqwest::Url::parse(base).and_then(|url| url.join(reference)) {
        Ok(url) => Ok(url.to_string()),
        Err(err) => Err(err.to_string()),
    }
}

// ---------------------------------------------------------------------------------------------
// Requests
// ---------------------------------------------------------------------------------------------

/// A request, without its body.
#[derive(Debug)]
pub struct Request {
    pub method: Method,
    pub url: String,
    pub query: Vec<(String, String)>,
    pub authorization: String,
}

/// A request, its texts taken as text.
pub struct RequestText {
    pub method: Method,
    pub url: Seq<char>,
    pub query: Seq<(Seq<char>, Seq<char>)>,
    pub authorization: Seq<char>,
}

/// The parameters of a request, taken as text.
pub open spec fn query_text(query: Seq<(String, String)>) -> Seq<(Seq<char>, Seq<char>)> {
    query.map_values(|p: (String, String)| (p.0@, p.1@))
}

impl View for Request {
    type V = RequestText;

    open spec fn view(&self) -> RequestText {
        RequestText {
            method: self.method,
            url: self.url@,
            query: query_text(self.query@),
            authorization: self.authorization@,
        }
    }
}

/// What is told where the address of the server cannot be read.
#[derive(Debug)]
pub struct AddressError {
    /// What is wrong with the address.
    pub cause: String,
}

impl AddressError {
    /// Says what went wrong, without its cause.
    pub fn message(&self) -> (r: &'static str)
        ensures
            r@ == "Failed to parse provided server address"@,
    {
        "Failed to parse provided server address"
    }
}

/// A server, and the secret that it asks for.
#[derive(Debug)]
pub struct Server {
    pub url: String,
    pub secret: String,
}

/// What is written in a request to tell the secret.
pub open spec fn bearer(secret: Seq<char>) -> Seq<char> {
    "Bearer "@ + secret
}

/// What the server is asked for where a command is to be carried out.
pub open spec fn endpoint_of(task: Task) -> Endpoint {
    match task {
        Task::Delete(_, SnapshotItemMetadata::Directory) => Endpoint::RemoveDir,
        Task::Delete(_, SnapshotItemMetadata::File(_)) => Endpoint::RemoveFile,
        Task::CreateDir(_) => Endpoint::CreateDir,
        Task::Transfer(_, _) => Endpoint::WriteFile,
    }
}

/// What is told with a command: the path and, for a file to be sent, its metadata.
pub open spec fn parameters_of(task: Task) -> Seq<(Seq<char>, Seq<char>)> {
    match task {
        Task::Delete(path, _) => seq![("path"@, path)],
        Task::CreateDir(path) => seq![("path"@, path)],
        Task::Transfer(path, m) => seq![
            ("path"@, path),
            ("last_modification"@, decimal(m.last_modif_date as nat)),
            ("last_modification_ns"@, decimal(m.last_modif_date_ns as nat)),
            ("size"@, decimal(m.size as nat)),
        ],
    }
}

/// The request that is made at an address, or what is wrong with the address.
pub open spec fn request_at(
    url: Result<Seq<char>, Seq<char>>,
    method: Method,
    query: Seq<(Seq<char>, Seq<char>)>,
    secret: Seq<char>,
) -> Result<RequestText, Seq<char>> {
    match url {
        Ok(url) => Ok(RequestText { method, url, query, authorization: bearer(secret) }),
        Err(e) => Err(e),
    }
}

/// A request or an error, taken as text.
pub open spec fn request_text(r: Result<Request, String>) -> Result<RequestText, Seq<char>> {
    match r {
        Ok(request) => Ok(request@),
        Err(e) => Err(e@),
    }
}

/// Whether a request pings a server.
pub open spec fn is_ping_request(r: Request, server: Server) -> bool {
    r@ == (RequestText {
        method: Endpoint::Ping.asked_by(),
        url: server.url@,
        query: Seq::empty(),
        authorization: bearer(server.secret@),
    })
}

/// Whether a request asks for a snapshot, at an address.
pub open spec fn is_snapshot_request(
    r: Result<Request, String>,
    url: Result<Seq<char>, Seq<char>>,
    secret: Seq<char>,
) -> bool {
    request_text(r) == request_at(url, Endpoint::Snapshot.asked_by(), Seq::empty(), secret)
}

/// Whether a request has a command carried out, at an address.
pub open spec fn is_command_request(
    r: Result<Request, String>,
    url: Result<Seq<char>, Seq<char>>,
    command: Command,
    secret: Seq<char>,
) -> bool {
    request_text(r) == request_at(
        url,
        endpoint_of(command@).asked_by(),
        parameters_of(command@),
        secret,
    )
}

impl Command {
    /// What the server is asked for.
    pub fn endpoint(&self) -> (r: Endpoint)
        ensures
            r == endpoint_of(self@),
    {
        match self {
            Command::Delete { path: _, item: SnapshotItemMetadata::Directory } =>
                Endpoint::RemoveDir,
            Command::Delete { path: _, item: SnapshotItemMetadata::File(_) } =>
                Endpoint::RemoveFile,
            Command::CreateDir { path: _ } => Endpoint::CreateDir,
            Command::Transfer { path: _, metadata: _ } => Endpoint::WriteFile,
        }
    }

    /// What is told with the command.
    pub fn parameters(&self) -> (r: Vec<(String, String)>)
        ensures
            query_text(r@) == parameters_of(self@),
    {
        let mut r: Vec<(String, String)> = Vec::new();
        match self {
            Command::Delete { path, item: _ } => {
                r.push((String::from_str("path"), path.clone()));
            },
            Command::CreateDir { path } => {
                r.push((String::from_str("path"), path.clone()));
            },
            Command::Transfer { path, metadata } => {
                r.push((String::from_str("path"), path.clone()));
                r.push(
                    (
                        String::from_str("last_modification"),
                        decimal_text(metadata.last_modif_date as u128),
                    ),
                );
                r.push(
                    (
                        String::from_str("last_modification_ns"),
                        decimal_text(metadata.last_modif_date_ns as u128),
                    ),
                );
                r.push((String::from_str("size"), decimal_text(metadata.size as u128)));
            },
        }
        assert(query_text(r@) =~= parameters_of(self@));
        r
    }
}

/// Whether a server is the one at an address, or an error tells why there is none.
pub open spec fn is_server(
    r: Result<Server, AddressError>,
    url: Result<Seq<char>, Seq<char>>,
    secret: Seq<char>,
) -> bool {
    match url {
        Ok(url) => r matches Ok(s) && s.url@ == url && s.secret@ == secret,
        Err(cause) => r matches Err(e) && e.cause@ == cause,
    }
}

impl Server {
    /// Reads the address of a server.
    pub fn new(address: &str, secret: String) -> (r: Result<Self, AddressError>)
        ensures
            is_server(r, parsed_url(address@), secret@),
            r matches Ok(s) ==> s.secret == secret,
    {
        Self::at(parse_url(address), secret)
    }

    /// A server at an address, if the address could be read.
    pub fn at(url: Result<String, String>, secret: String) -> (r: Result<Self, AddressError>)
        ensures
            is_server(r, result_text(url), secret@),
            match url {
                Ok(url) => r == Ok::<Server, AddressError>(Server { url, secret }),
                Err(cause) => r == Err::<Server, AddressError>(AddressError { cause }),
            },
    {
        match url {
            Ok(url) => Ok(Server { url, secret }),
            Err(cause) => Err(AddressError { cause }),
        }
    }

    /// A request to the server.
    fn request(&self, method: Method, url: String, query: Vec<(String, String)>) -> (r: Request)
        ensures
            r@ == (RequestText {
                method,
                url: url@,
                query: query_text(query@),
                authorization: bearer(self.secret@),
            }),
    {
        let mut authorization: String = String::from_str("Bearer ");
        authorization.append(self.secret.as_str());
        Request { method, url, query, authorization }
    }

    /// The request that pings the server.
    pub fn ping_request(&self) -> (r: Request)
        ensures
            is_ping_request(r, *self),
    {
        let query: Vec<(String, String)> = Vec::new();
        assert(query_text(query@) =~= seq![]);
        self.request(Endpoint::Ping.method(), self.url.clone(), query)
    }

    /// The request for a snapshot. It is found next to the address of the server.
    pub fn snapshot_request(&self) -> (r: Result<Request, String>)
        ensures
            is_snapshot_request(r, joined_url(self.url@, "snapshot"@), self.secret@),
    {
        self.snapshot_request_at(join_url(self.url.as_str(), "snapshot"))
    }

    /// The request for a snapshot, made at an address.
    pub fn snapshot_request_at(&self, url: Result<String, String>) -> (r: Result<Request, String>)
        ensures
            is_snapshot_request(r, result_text(url), self.secret@),
    {
        match url {
            Ok(url) => {
                let query: Vec<(String, String)> = Vec::new();
                assert(query_text(query@) =~= seq![]);
                Ok(self.request(Endpoint::Snapshot.method(), url, query))
            },
            Err(e) => Err(e),
        }
    }

    /// The request that has a command carried out.
    pub fn command_request(&self, command: &Command) -> (r: Result<Request, String>)
        ensures
            is_command_request(
                r,
                joined_url(self.url@, endpoint_of(command@).found_at()),
                *command,
                self.secret@,
            ),
    {
        self.command_request_at(
            command,
            join_url(self.url.as_str(), command.endpoint().path()),
        )
    }

    /// The request that has a command carried out, made at an address.
    pub fn command_request_at(&self, command: &Command, url: Result<String, String>) -> (r: Result<
        Request,
        String,
    >)
        ensures
            is_command_request(r, result_text(url), *command, self.secret@),
    {
        match url {
            Ok(url) => Ok(self.request(command.endpoint().method(), url, command.parameters())),
            Err(e) => Err(e),
        }
    }
}

// ---------------------------------------------------------------------------------------------
// Answers
// ---------------------------------------------------------------------------------------------

/// What is told where a server answers a ping with another text.
pub open spec fn wrong_ping_answer(answer: Seq<char>) -> Seq<char> {
    "Server did not respond '"@ + PING_ANSWER@ + "' to ping request, but '"@ + answer + "'"@
}

/// Checks what was answered to a ping.
pub fn check_ping(answer: &str) -> (r: Result<(), String>)
    ensures
        match r {
            Ok(()) => answer@ == PING_ANSWER@,
            Err(e) => answer@ != PING_ANSWER@ && e@ == wrong_ping_answer(answer@),
        },
{
    proof {
        encode_utf8_decode_utf8(answer@);
        encode_utf8_decode_utf8(PING_ANSWER@);
    }
    if same_bytes(answer.as_bytes(), PING_ANSWER.as_bytes()) {
        return Ok(());
    }
    let mut e: String = String::from_str("Server did not respond '");
    e.append(PING_ANSWER);
    e.append("' to ping request, but '");
    e.append(answer);
    e.append("'");
    Err(e)
}

// ---------------------------------------------------------------------------------------------
// Laws
// ---------------------------------------------------------------------------------------------

/// A directory and a file are deleted by different requests, and no command goes where another
/// kind of command goes.
pub proof fn law_commands_are_told_apart(a: Task, b: Task)
    requires
        endpoint_of(a).found_at() == endpoint_of(b).found_at(),
    ensures
        match (a, b) {
            (Task::Delete(_, x), Task::Delete(_, y)) => x is Directory <==> y is Directory,
            (Task::CreateDir(_), Task::CreateDir(_)) => true,
            (Task::Transfer(_, _), Task::Transfer(_, _)) => true,
            _ => false,
        },
{
    if endpoint_of(a) != endpoint_of(b) {
        crate::server::law_endpoints_are_apart(endpoint_of(a), endpoint_of(b));
    }
}

/// Every request made of the server tells it the secret, and the path of the command comes first.
pub proof fn law_requests_tell_the_secret(
    url: Result<Seq<char>, Seq<char>>,
    task: Task,
    secret: Seq<char>,
)
    requires
        url is Ok,
    ensures
        ({
            let r = request_at(url, endpoint_of(task).asked_by(), parameters_of(task), secret);
            &&& r is Ok
            &&& r->Ok_0.authorization == "Bearer "@ + secret
            &&& r->Ok_0.query[0] == ("path"@, task.path())
        }),
{
}

/// A command goes to the endpoint that does what it asks for.
pub proof fn law_commands_go_where_they_are_done(c: Command)
    ensures
        c matches Command::Delete { path, item } ==> endpoint_of(c@).asked_by() == Method::Delete
            && endpoint_of(c@).found_at() == (if item is Directory {
            "/fs/dir/delete"@
        } else {
            "/fs/file/delete"@
        }),
        c is CreateDir ==> endpoint_of(c@).asked_by() == Method::Post && endpoint_of(c@).found_at()
            == "/fs/dir/create"@,
        c is Transfer ==> endpoint_of(c@).asked_by() == Method::Post && endpoint_of(c@).found_at()
            == "/fs/file/write"@,
{
}

/// What every request for a command tells: its address, the secret, and first of all the path. It is
/// made wherever there is an address, and otherwise what is wrong with that is told.
pub proof fn law_command_request_tells(
    r: Result<Request, String>,
    url: Result<Seq<char>, Seq<char>>,
    c: Command,
    path: String,
    secret: Seq<char>,
)
    requires
        is_command_request(r, url, c, secret),
        match c {
            Command::Delete { path: p, item: _ } => p == path,
            Command::CreateDir { path: p } => p == path,
            Command::Transfer { path: p, metadata: _ } => p == path,
        },
    ensures
        r is Ok <==> url is Ok,
        r matches Err(e) ==> url == Err::<Seq<char>, Seq<char>>(e@),
        r matches Ok(q) ==> {
            &&& url == Ok::<Seq<char>, Seq<char>>(q.url@)
            &&& encloses(q.authorization@, "Bearer "@, secret, seq![])
            &&& q.query@.len() == if c is Transfer {
                4int
            } else {
                1int
            }
            &&& q.query@[0].0@ == "path"@
            &&& q.query@[0].1@ == path@
            &&& q.method == if c is Delete {
                Method::Delete
            } else {
                Method::Post
            }
        },
{
    if let Ok(q) = r {
        lemma_encloses("Bearer "@, secret, seq![]);
        assert("Bearer "@ + secret + seq![] =~= "Bearer "@ + secret);
        assert(query_text(q.query@).len() == q.query@.len());
        assert(query_text(q.query@)[0] == (q.query@[0].0@, q.query@[0].1@));
    }
}

/// What a request for a transfer tells of the file are its modification time and its size, as numbers
/// that can be read again.
pub proof fn law_transfer_tells_the_metadata(
    r: Request,
    url: Result<Seq<char>, Seq<char>>,
    path: String,
    metadata: SnapshotFileMetadata,
    secret: Seq<char>,
)
    requires
        is_command_request(Ok(r), url, Command::Transfer { path, metadata }, secret),
    ensures
        r.query@.len() == 4,
        r.query@[1].0@ == "last_modification"@,
        is_numeral(r.query@[1].1@),
        numeral(r.query@[1].1@) == metadata.last_modif_date,
        r.query@[2].0@ == "last_modification_ns"@,
        is_numeral(r.query@[2].1@),
        numeral(r.query@[2].1@) == metadata.last_modif_date_ns,
        r.query@[3].0@ == "size"@,
        is_numeral(r.query@[3].1@),
        numeral(r.query@[3].1@) == metadata.size,
{
    let q = query_text(r.query@);
    assert(q.len() == r.query@.len());
    assert(q[1] == (r.query@[1].0@, r.query@[1].1@));
    assert(q[2] == (r.query@[2].0@, r.query@[2].1@));
    assert(q[3] == (r.query@[3].0@, r.query@[3].1@));
    law_decimal_denotes(metadata.last_modif_date as nat);
    law_decimal_denotes(metadata.last_modif_date_ns as nat);
    law_decimal_denotes(metadata.size as nat);
}

/// Requests for transfers of files with different paths or different metadata are different.
pub proof fn law_different_transfers_tell_different_things(
    r: Request,
    s: Request,
    url: Result<Seq<char>, Seq<char>>,
    p: String,
    q: String,
    a: SnapshotFileMetadata,
    b: SnapshotFileMetadata,
    secret: Seq<char>,
)
    requires
        is_command_request(Ok(r), url, Command::Transfer { path: p, metadata: a }, secret),
        is_command_request(Ok(s), url, Command::Transfer { path: q, metadata: b }, secret),
        query_text(r.query@) == query_text(s.query@),
    ensures
        p@ == q@,
        a == b,
{
    law_transfer_tells_the_metadata(r, url, p, a, secret);
    law_transfer_tells_the_metadata(s, url, q, b, secret);
    law_command_request_tells(Ok(r), url, Command::Transfer { path: p, metadata: a }, p, secret);
    law_command_request_tells(Ok(s), url, Command::Transfer { path: q, metadata: b }, q, secret);
    let (x, y) = (query_text(r.query@), query_text(s.query@));
    assert(x[0] == (r.query@[0].0@, r.query@[0].1@) && y[0] == (s.query@[0].0@, s.query@[0].1@));
    assert(x[1] == (r.query@[1].0@, r.query@[1].1@) && y[1] == (s.query@[1].0@, s.query@[1].1@));
    assert(x[2] == (r.query@[2].0@, r.query@[2].1@) && y[2] == (s.query@[2].0@, s.query@[2].1@));
    assert(x[3] == (r.query@[3].0@, r.query@[3].1@) && y[3] == (s.query@[3].0@, s.query@[3].1@));
}

/// A server that reads the numbers of a transfer puts the file in its place exactly where as many
/// bytes came as the file has, and gives it the modification time that it has.
pub proof fn law_transfer_is_taken_as_it_was_sent(
    r: Request,
    url: Result<Seq<char>, Seq<char>>,
    path: String,
    metadata: SnapshotFileMetadata,
    secret: Seq<char>,
    state: StateInner,
    query: PathQuery,
    read: FileMetadataQuery,
    facts: PathFacts,
    states: Seq<FileWrite>,
    chunks: Seq<usize>,
    end: Result<FileCommit, Refusal>,
)
    requires
        is_command_request(Ok(r), url, Command::Transfer { path, metadata }, secret),
        query.path@ == encode_utf8(r.query@[0].1@),
        read.last_modification == numeral(r.query@[1].1@),
        read.last_modification_ns == numeral(r.query@[2].1@),
        read.size == numeral(r.query@[3].1@),
        states.len() == chunks.len() + 1,
        begins_write(Ok(states[0]), state, query, read, facts),
        forall|k: int|
            0 <= k < chunks.len() ==> receives(states[k], #[trigger] chunks[k], states[k + 1])
                && states[k].written + chunks[k] <= usize::MAX,
        completes(states.last(), end),
    ensures
        end is Ok <==> total_len(chunks) == metadata.size,
        end matches Ok(c) ==> {
            &&& lies_where_asked(c.path@, state.data_dir@, encode_utf8(path@))
            &&& c.last_modification == metadata.last_modif_date
            &&& c.last_modification_ns == metadata.last_modif_date_ns
        },
{
    law_transfer_tells_the_metadata(r, url, path, metadata, secret);
    law_command_request_tells(
        Ok(r),
        url,
        Command::Transfer { path, metadata },
        path,
        secret,
    );
    law_reception_completes_with_its_size(state, query, read, facts, states, chunks, end);
}

/// A ping and the request for a snapshot go where they are asked to, and tell the secret and nothing
/// else.
pub proof fn law_other_requests_tell_the_secret(
    ping: Request,
    server: Server,
    r: Result<Request, String>,
    url: Result<Seq<char>, Seq<char>>,
)
    requires
        is_ping_request(ping, server),
        is_snapshot_request(r, url, server.secret@),
    ensures
        ping.method == Method::Get,
        ping.url@ == server.url@,
        ping.query@.len() == 0,
        encloses(ping.authorization@, "Bearer "@, server.secret@, seq![]),
        r is Ok <==> url is Ok,
        r matches Err(e) ==> url == Err::<Seq<char>, Seq<char>>(e@),
        r matches Ok(q) ==> {
            &&& q.method == Method::Post
            &&& url == Ok::<Seq<char>, Seq<char>>(q.url@)
            &&& q.query@.len() == 0
            &&& encloses(q.authorization@, "Bearer "@, server.secret@, seq![])
        },
{
    let secret = server.secret@;
    lemma_encloses("Bearer "@, secret, seq![]);
    assert("Bearer "@ + secret + seq![] =~= "Bearer "@ + secret);
    assert(query_text(ping.query@).len() == ping.query@.len());
    if let Ok(q) = r {
        assert(query_text(q.query@).len() == q.query@.len());
    }
}

/// What is told of a wrong answer holds the answer.
pub proof fn law_wrong_answer_is_told(answer: Seq<char>)
    ensures
        encloses(
            wrong_ping_answer(answer),
            "Server did not respond '"@ + PING_ANSWER@ + "' to ping request, but '"@,
            answer,
            "'"@,
        ),
{
    lemma_encloses(
        "Server did not respond '"@ + PING_ANSWER@ + "' to ping request, but '"@,
        answer,
        "'"@,
    );
}

/// A server is at the address that was read, and has the secret that was given.
pub proof fn law_server_is_where_the_address_says(
    r: Result<Server, AddressError>,
    url: Result<Seq<char>, Seq<char>>,
    secret: Seq<char>,
)
    requires
        is_server(r, url, secret),
    ensures
        r is Ok <==> url is Ok,
        r matches Ok(s) ==> Ok::<Seq<char>, Seq<char>>(s.url@) == url && s.secret@ == secret,
        r matches Err(e) ==> Err::<Seq<char>, Seq<char>>(e.cause@) == url,
{
}

} // verus!

//! Requests on the files and directories of the server.
//!
//! Each request names a path. The server probes what is there and answers by it.
use vstd::prelude::*;
use vstd::utf8::encode_utf8;

use crate::path::{
    components, file_name, inner_components, is_name, join, joined, law_join_keeps_bytes,
    law_join_relative, law_named_below, law_relative_path_is_descendant,
    law_renamed_file_is_sibling, renamed, starts_with, stripped, with_file_name, DOT, SEPARATOR,
};
use crate::server::{Refusal, StateInner, Status};
use crate::text::{
    decimal, decimal_text, encloses, is_numeral, law_decimal_denotes, law_signed_decimal_denotes,
    lemma_encloses, signed_decimal, signed_decimal_text,
};

verus! {

/// Which path a request is about.
#[derive(Debug)]
pub struct PathQuery {
    pub path: Vec<u8>,
}

/// What a request says of the file that it sends.
#[derive(Debug)]
pub struct FileMetadataQuery {
    pub last_modification: i64,
    pub last_modification_ns: u32,
    pub size: u64,
}

/// What is found at a path. Only `is_symlink` looks at a symbolic link itself, the others at what
/// it leads to.
#[derive(Debug, Clone, Copy)]
pub struct PathFacts {
    pub exists: bool,
    pub is_symlink: bool,
    pub is_dir: bool,
    pub is_file: bool,
}

// ---------------------------------------------------------------------------------------------
// Which requests are refused
// ---------------------------------------------------------------------------------------------

/// The answer to a path outside the data directory.
pub open spec fn outside_answer() -> (Status, Seq<char>) {
    (Status::BadRequest, "Provided path is not a descendent of the data directory"@)
}

/// Why a file is not read, if it is not.
pub open spec fn read_refusal(facts: PathFacts) -> Option<(Status, Seq<char>)> {
    if !facts.exists {
        Some((Status::BadRequest, "Provided path does not exist"@))
    } else if facts.is_symlink {
        Some((Status::BadRequest, "Provided path is a symbolic link"@))
    } else if facts.is_dir {
        Some((Status::BadRequest, "Provided path is a directory"@))
    } else {
        None
    }
}

/// Why a file is not written, if it is not.
pub open spec fn write_refusal(facts: PathFacts) -> Option<(Status, Seq<char>)> {
    if facts.is_symlink {
        Some((Status::BadRequest, "Provided path is a symbolic link"@))
    } else if facts.is_dir {
        Some((Status::BadRequest, "Provided path is a directory"@))
    } else {
        None
    }
}

/// Why a file is not removed, if it is not.
pub open spec fn remove_file_refusal(facts: PathFacts) -> Option<(Status, Seq<char>)> {
    if !facts.exists {
        Some((Status::BadRequest, "Provided path does not exist"@))
    } else if facts.is_symlink {
        Some((Status::BadRequest, "Provided path is a symbolic link"@))
    } else if !facts.is_file {
        Some((Status::BadRequest, "Provided path is not a file"@))
    } else {
        None
    }
}

/// Why a directory is not created, if it is not.
pub open spec fn create_dir_refusal(facts: PathFacts) -> Option<(Status, Seq<char>)> {
    if facts.exists {
        Some((Status::Conflict, "Provided path already exists"@))
    } else if facts.is_symlink {
        Some((Status::Conflict, "Provided path is a symbolic link"@))
    } else {
        None
    }
}

/// Why a directory is not removed, if it is not.
pub open spec fn remove_dir_refusal(facts: PathFacts) -> Option<(Status, Seq<char>)> {
    if !facts.exists {
        Some((Status::Conflict, "Provided path does not exist"@))
    } else if facts.is_symlink {
        Some((Status::Conflict, "Provided path is a symbolic link"@))
    } else if !facts.is_dir {
        Some((Status::Conflict, "Provided path is not a directory"@))
    } else {
        None
    }
}

/// Whether a request is answered as it has to be: one on a path outside the data directory is
/// refused as such, any other one by what was found, and one that is not refused is carried out
/// on the path seen from the data directory.
pub open spec fn answers(
    r: Result<Vec<u8>, Refusal>,
    state: StateInner,
    query: PathQuery,
    refusal: Option<(Status, Seq<char>)>,
) -> bool {
    let target = join(state.data_dir@, query.path@);
    if !starts_with(target, state.data_dir@) {
        r matches Err(e) && e@ == outside_answer()
    } else {
        match refusal {
            Some(answer) => r matches Err(e) && e@ == answer,
            None => r matches Ok(p) && p@ == target,
        }
    }
}

/// Whether `p` is where a request on `path` asks to go: behind the data directory stands all of the
/// path, byte for byte and component for component. An absolute path stands for itself.
pub open spec fn lies_where_asked(p: Seq<u8>, data_dir: Seq<u8>, path: Seq<u8>) -> bool {
    if path.len() > 0 && path[0] == SEPARATOR {
        p == path
    } else {
        &&& p.take(data_dir.len() as int) == data_dir
        &&& p.skip(p.len() - path.len()) == path
        &&& components(p) == if data_dir.len() == 0 {
            components(path)
        } else {
            components(data_dir) + inner_components(path)
        }
    }
}

proof fn lemma_joined_lies_where_asked(data_dir: Seq<u8>, path: Seq<u8>)
    ensures
        lies_where_asked(join(data_dir, path), data_dir, path),
{
    if !(path.len() > 0 && path[0] == SEPARATOR) {
        law_join_keeps_bytes(data_dir, path);
        if data_dir.len() > 0 {
            law_join_relative(data_dir, path);
        } else {
            assert(join(data_dir, path) =~= path);
        }
    }
}

/// The path that a request is about, seen from the data directory. It is refused where it does
/// not lie there.
pub fn validate_data_dir_descendent(path: &[u8], data_dir: &[u8]) -> (r: Result<Vec<u8>, Refusal>)
    ensures
        match r {
            Ok(p) => starts_with(join(data_dir@, path@), data_dir@) && p@ == join(
                data_dir@,
                path@,
            ),
            Err(e) => !starts_with(join(data_dir@, path@), data_dir@) && e@ == outside_answer(),
        },
        r matches Ok(p) ==> lies_where_asked(p@, data_dir@, path@),
{
    proof {
        lemma_joined_lies_where_asked(data_dir@, path@);
    }
    let target: Vec<u8> = joined(data_dir, path);
    match stripped(target.as_slice(), data_dir) {
        Some(_) => Ok(target),
        None => Err(
            Refusal::new(
                Status::BadRequest,
                "Provided path is not a descendent of the data directory",
            ),
        ),
    }
}

/// The path whose file is read.
pub fn read_file(state: &StateInner, query: &PathQuery, facts: &PathFacts) -> (r: Result<
    Vec<u8>,
    Refusal,
>)
    ensures
        answers(r, *state, *query, read_refusal(*facts)),
        r matches Ok(p) ==> lies_where_asked(p@, state.data_dir@, query.path@),
{
    let path: Vec<u8> = match validate_data_dir_descendent(
        query.path.as_slice(),
        state.data_dir.as_slice(),
    ) {
        Ok(path) => path,
        Err(e) => return Err(e),
    };
    if !facts.exists {
        return Err(Refusal::new(Status::BadRequest, "Provided path does not exist"));
    }
    if facts.is_symlink {
        return Err(Refusal::new(Status::BadRequest, "Provided path is a symbolic link"));
    }
    if facts.is_dir {
        return Err(Refusal::new(Status::BadRequest, "Provided path is a directory"));
    }
    Ok(path)
}

/// The path whose file is removed.
pub fn remove_file(state: &StateInner, query: &PathQuery, facts: &PathFacts) -> (r: Result<
    Vec<u8>,
    Refusal,
>)
    ensures
        answers(r, *state, *query, remove_file_refusal(*facts)),
        r matches Ok(p) ==> lies_where_asked(p@, state.data_dir@, query.path@),
{
    let path: Vec<u8> = match validate_data_dir_descendent(
        query.path.as_slice(),
        state.data_dir.as_slice(),
    ) {
        Ok(path) => path,
        Err(e) => return Err(e),
    };
    if !facts.exists {
        return Err(Refusal::new(Status::BadRequest, "Provided path does not exist"));
    }
    if facts.is_symlink {
        return Err(Refusal::new(Status::BadRequest, "Provided path is a symbolic link"));
    }
    if !facts.is_file {
        return Err(Refusal::new(Status::BadRequest, "Provided path is not a file"));
    }
    Ok(path)
}

/// The path at which a directory is created.
pub fn create_dir(state: &StateInner, query: &PathQuery, facts: &PathFacts) -> (r: Result<
    Vec<u8>,
    Refusal,
>)
    ensures
        answers(r, *state, *query, create_dir_refusal(*facts)),
        r matches Ok(p) ==> lies_where_asked(p@, state.data_dir@, query.path@),
{
    let path: Vec<u8> = match validate_data_dir_descendent(
        query.path.as_slice(),
        state.data_dir.as_slice(),
    ) {
        Ok(path) => path,
        Err(e) => return Err(e),
    };
    if facts.exists {
        return Err(Refusal::new(Status::Conflict, "Provided path already exists"));
    }
    if facts.is_symlink {
        return Err(Refusal::new(Status::Conflict, "Provided path is a symbolic link"));
    }
    Ok(path)
}

/// The path whose directory is removed.
pub fn remove_dir(state: &StateInner, query: &PathQuery, facts: &PathFacts) -> (r: Result<
    Vec<u8>,
    Refusal,
>)
    ensures
        answers(r, *state, *query, remove_dir_refusal(*facts)),
        r matches Ok(p) ==> lies_where_asked(p@, state.data_dir@, query.path@),
{
    let path: Vec<u8> = match validate_data_dir_descendent(
        query.path.as_slice(),
        state.data_dir.as_slice(),
    ) {
        Ok(path) => path,
        Err(e) => return Err(e),
    };
    if !facts.exists {
        return Err(Refusal::new(Status::Conflict, "Provided path does not exist"));
    }
    if facts.is_symlink {
        return Err(Refusal::new(Status::Conflict, "Provided path is a symbolic link"));
    }
    if !facts.is_dir {
        return Err(Refusal::new(Status::Conflict, "Provided path is not a directory"));
    }
    Ok(path)
}

// ---------------------------------------------------------------------------------------------
// Writing a file
// ---------------------------------------------------------------------------------------------

/// A file that is being received. Its content goes to `tmp_path` until all of it is there.
#[derive(Debug)]
pub struct FileWrite {
    pub path: Vec<u8>,
    pub tmp_path: Vec<u8>,
    pub last_modification: i64,
    pub last_modification_ns: u32,
    pub size: u64,
    /// How many bytes were received.
    pub written: usize,
}

/// What is left to do when a file was received: move it to its place and set its modification
/// time.
#[derive(Debug)]
pub struct FileCommit {
    pub tmp_path: Vec<u8>,
    pub path: Vec<u8>,
    pub last_modification: i64,
    pub last_modification_ns: u32,
}

/// The name that a file has until all of it was received.
pub open spec fn tmp_name(last_modification: i64, last_modification_ns: u32, size: u64) -> Seq<
    char,
> {
    ".tmp-"@ + signed_decimal(last_modification as int) + "-"@ + decimal(
        last_modification_ns as nat,
    ) + "-"@ + decimal(size as nat)
}

/// The answer where the content of a file has not the size that the request told.
pub open spec fn size_mismatch_answer() -> (Status, Seq<char>) {
    (Status::BadRequest, "Provided size does not match transmitted content"@)
}

/// Writes the name that a file has until all of it was received.
fn tmp_name_text(metadata: &FileMetadataQuery) -> (r: String)
    ensures
        r@ == tmp_name(
            metadata.last_modification,
            metadata.last_modification_ns,
            metadata.size,
        ),
{
    let mut r: String = String::from_str(".tmp-");
    r.append(signed_decimal_text(metadata.last_modification).as_str());
    r.append("-");
    r.append(decimal_text(metadata.last_modification_ns as u128).as_str());
    r.append("-");
    r.append(decimal_text(metadata.size as u128).as_str());
    r
}

/// Whether the reception of a file begins as it has to.
pub open spec fn begins_write(
    r: Result<FileWrite, Refusal>,
    state: StateInner,
    query: PathQuery,
    metadata: FileMetadataQuery,
    facts: PathFacts,
) -> bool {
    let target = join(state.data_dir@, query.path@);
    if !starts_with(target, state.data_dir@) {
        r matches Err(e) && e@ == outside_answer()
    } else {
        match write_refusal(facts) {
            Some(answer) => r matches Err(e) && e@ == answer,
            None => {
                &&& r matches Ok(w)
                &&& w.path@ == target
                &&& w.tmp_path@ == with_file_name(
                    target,
                    encode_utf8(
                        tmp_name(
                            metadata.last_modification,
                            metadata.last_modification_ns,
                            metadata.size,
                        ),
                    ),
                )
                &&& w.last_modification == metadata.last_modification
                &&& w.last_modification_ns == metadata.last_modification_ns
                &&& w.size == metadata.size
                &&& w.written == 0
            },
        }
    }
}

/// Whether a chunk of `len` bytes was taken note of.
pub open spec fn receives(before: FileWrite, len: usize, after: FileWrite) -> bool {
    after == (FileWrite { written: (before.written + len) as usize, ..before })
}

/// Whether a reception ends as it has to.
pub open spec fn completes(w: FileWrite, r: Result<FileCommit, Refusal>) -> bool {
    match r {
        Ok(c) => {
            &&& w.written == w.size
            &&& c.tmp_path == w.tmp_path
            &&& c.path == w.path
            &&& c.last_modification == w.last_modification
            &&& c.last_modification_ns == w.last_modification_ns
        },
        Err(e) => w.written != w.size && e@ == size_mismatch_answer(),
    }
}

/// Begins to receive a file.
pub fn write_file(
    state: &StateInner,
    query: &PathQuery,
    metadata: &FileMetadataQuery,
    facts: &PathFacts,
) -> (r: Result<FileWrite, Refusal>)
    ensures
        begins_write(r, *state, *query, *metadata, *facts),
        r matches Ok(w) ==> lies_where_asked(w.path@, state.data_dir@, query.path@),
{
    let path: Vec<u8> = match validate_data_dir_descendent(
        query.path.as_slice(),
        state.data_dir.as_slice(),
    ) {
        Ok(path) => path,
        Err(e) => return Err(e),
    };
    if facts.is_symlink {
        return Err(Refusal::new(Status::BadRequest, "Provided path is a symbolic link"));
    }
    if facts.is_dir {
        return Err(Refusal::new(Status::BadRequest, "Provided path is a directory"));
    }
    let name: String = tmp_name_text(metadata);
    let tmp_path: Vec<u8> = renamed(path.as_slice(), name.as_str().as_bytes());
    Ok(
        FileWrite {
            path,
            tmp_path,
            last_modification: metadata.last_modification,
            last_modification_ns: metadata.last_modification_ns,
            size: metadata.size,
            written: 0,
        },
    )
}

impl FileWrite {
    /// Takes note of a chunk that was received.
    pub fn receive(&mut self, len: usize)
        requires
            old(self).written + len <= usize::MAX,
        ensures
            receives(*old(self), len, *final(self)),
    {
        self.written = self.written + len;
    }

    /// Ends the reception. The file is put in its place only where all of it came.
    pub fn complete(self) -> (r: Result<FileCommit, Refusal>)
        ensures
            completes(self, r),
    {
        if self.written as u64 != self.size {
            return Err(
                Refusal::new(
                    Status::BadRequest,
                    "Provided size does not match transmitted content",
                ),
            );
        }
        Ok(
            FileCommit {
                tmp_path: self.tmp_path,
                path: self.path,
                last_modification: self.last_modification,
                last_modification_ns: self.last_modification_ns,
            },
        )
    }
}

/// What can go wrong while a file is received and put in its place.
#[derive(Debug)]
pub enum WriteFailure {
    /// The content could not be received or written, for the given reason.
    Content(String),
    /// The file could not be moved to its place.
    Rename,
    /// The modification time could not be set.
    SetModificationTime,
    /// The modification time was not set, as the task for it did not end.
    RunSetter,
}

impl WriteFailure {
    /// What is told of a failure.
    pub open spec fn says(&self) -> Seq<char> {
        match *self {
            WriteFailure::Content(reason) => reason@,
            WriteFailure::Rename => "Failed to rename temporary file to final name"@,
            WriteFailure::SetModificationTime => "Failed to set modification time"@,
            WriteFailure::RunSetter => "Failed to run modification time setter"@,
        }
    }

    /// The answer to a request that failed so.
    pub fn refusal(self) -> (r: Refusal)
        ensures
            r@ == (Status::InternalServerError, self.says()),
    {
        match self {
            WriteFailure::Content(reason) => Refusal::failed(reason),
            WriteFailure::Rename => Refusal::new(
                Status::InternalServerError,
                "Failed to rename temporary file to final name",
            ),
            WriteFailure::SetModificationTime => Refusal::new(
                Status::InternalServerError,
                "Failed to set modification time",
            ),
            WriteFailure::RunSetter => Refusal::new(
                Status::InternalServerError,
                "Failed to run modification time setter",
            ),
        }
    }
}

// ---------------------------------------------------------------------------------------------
// Laws
// ---------------------------------------------------------------------------------------------

/// How many bytes some chunks hold.
pub open spec fn total_len(chunks: Seq<usize>) -> nat
    decreases chunks.len(),
{
    if chunks.len() == 0 {
        0
    } else {
        total_len(chunks.drop_last()) + chunks.last() as nat
    }
}

/// A file that was received chunk by chunk has as many bytes as its chunks, and is otherwise as
/// when its reception began.
pub proof fn law_received_bytes_add_up(states: Seq<FileWrite>, chunks: Seq<usize>)
    requires
        states.len() == chunks.len() + 1,
        states[0].written == 0,
        forall|k: int|
            0 <= k < chunks.len() ==> receives(states[k], #[trigger] chunks[k], states[k + 1])
                && states[k].written + chunks[k] <= usize::MAX,
    ensures
        states.last().written == total_len(chunks),
        states.last() == (FileWrite { written: states.last().written, ..states[0] }),
    decreases chunks.len(),
{
    if chunks.len() > 0 {
        let n = chunks.len() - 1;
        let front = states.drop_last();
        assert forall|k: int| 0 <= k < n implies receives(
            front[k],
            #[trigger] chunks.drop_last()[k],
            front[k + 1],
        ) && front[k].written + chunks.drop_last()[k] <= usize::MAX by {
            assert(chunks.drop_last()[k] == chunks[k]);
        }
        law_received_bytes_add_up(front, chunks.drop_last());
        assert(chunks[n] == chunks.last());
        assert(states[n + 1] == states.last());
    }
}

/// A file is put in its place exactly where as many bytes came as the request told, and it then
/// gets the modification time that the request told.
pub proof fn law_reception_completes_with_its_size(
    state: StateInner,
    query: PathQuery,
    metadata: FileMetadataQuery,
    facts: PathFacts,
    states: Seq<FileWrite>,
    chunks: Seq<usize>,
    r: Result<FileCommit, Refusal>,
)
    requires
        states.len() == chunks.len() + 1,
        begins_write(Ok(states[0]), state, query, metadata, facts),
        forall|k: int|
            0 <= k < chunks.len() ==> receives(states[k], #[trigger] chunks[k], states[k + 1])
                && states[k].written + chunks[k] <= usize::MAX,
        completes(states.last(), r),
    ensures
        r is Ok <==> total_len(chunks) == metadata.size,
        r matches Ok(c) ==> {
            &&& lies_where_asked(c.path@, state.data_dir@, query.path@)
            &&& c.tmp_path@ == states[0].tmp_path@
            &&& c.last_modification == metadata.last_modification
            &&& c.last_modification_ns == metadata.last_modification_ns
        },
        r matches Err(e) ==> e.status == Status::BadRequest && e.message@
            == "Provided size does not match transmitted content"@,
{
    law_received_bytes_add_up(states, chunks);
    lemma_joined_lies_where_asked(state.data_dir@, query.path@);
}

/// The bytes of chunks add up, whichever way they are taken together.
pub proof fn law_chunks_add_up(a: Seq<usize>, b: Seq<usize>, len: usize)
    ensures
        total_len(a + b) == total_len(a) + total_len(b),
        total_len(seq![len]) == len,
    decreases b.len(),
{
    reveal_with_fuel(total_len, 2);
    assert(seq![len].drop_last() =~= seq![]);
    if b.len() == 0 {
        assert(a + b =~= a);
    } else {
        assert((a + b).drop_last() =~= a + b.drop_last());
        law_chunks_add_up(a, b.drop_last(), len);
    }
}

/// The name that a file has until all of it was received is a file name: it is not empty, and
/// holds no separator.
proof fn lemma_tmp_name_is_name(last_modification: i64, last_modification_ns: u32, size: u64)
    ensures
        ({
            let name = encode_utf8(tmp_name(last_modification, last_modification_ns, size));
            &&& name.len() > 0
            &&& is_name(name)
            &&& forall|k: int| 0 <= k < name.len() ==> name[k] != SEPARATOR
        }),
{
    let t = tmp_name(last_modification, last_modification_ns, size);
    reveal_strlit(".tmp-");
    reveal_strlit("-");
    law_decimal_denotes(last_modification_ns as nat);
    law_decimal_denotes(size as nat);
    if last_modification < 0 {
        law_decimal_denotes((-last_modification) as nat);
    } else {
        law_decimal_denotes(last_modification as nat);
    }
    assert forall|k: int| 0 <= k < t.len() implies (#[trigger] t[k]) as nat <= 127 && t[k] != '/' by {
        let a = ".tmp-"@;
        let b = signed_decimal(last_modification as int);
        let c = "-"@;
        let d = decimal(last_modification_ns as nat);
        let e = decimal(size as nat);
        assert(t == a + b + c + d + c + e);
    }
    assert(vstd::utf8::is_ascii_chars(t));
    vstd::utf8::is_ascii_chars_encode_utf8(t);
    let name = encode_utf8(t);
    assert(name.len() == t.len());
    assert(name.len() > 5);
    assert(seq![SEPARATOR].len() == 1 && seq![DOT].len() == 1 && seq![DOT, DOT].len() == 2);
    assert forall|k: int| 0 <= k < name.len() implies name[k] != SEPARATOR by {
        assert(name[k] == t[k] as u8);
    }
}

/// A file whose path lies below the data directory is received below it too: in the directory
/// where it is going to be.
pub proof fn law_received_next_to_target(
    data_dir: Seq<u8>,
    path: Seq<u8>,
    last_modification: i64,
    last_modification_ns: u32,
    size: u64,
)
    requires
        file_name(path) is Some,
        starts_with(path, data_dir),
        components(data_dir).len() < components(path).len(),
    ensures
        ({
            let name = encode_utf8(tmp_name(last_modification, last_modification_ns, size));
            let tmp = with_file_name(path, name);
            &&& components(tmp) == components(path).drop_last().push(name)
            &&& starts_with(tmp, data_dir)
        }),
{
    let name = encode_utf8(tmp_name(last_modification, last_modification_ns, size));
    let tmp = with_file_name(path, name);
    lemma_tmp_name_is_name(last_modification, last_modification_ns, size);
    law_renamed_file_is_sibling(path, name);
    let n = components(data_dir).len() as int;
    assert(components(data_dir) =~= components(path).take(n));
    assert(components(tmp).take(n) =~= components(path).take(n));
}

/// Whether a request on a path is about something in the data directory: every relative path is, and
/// an absolute one that begins with the components of the directory.
pub open spec fn is_inside(data_dir: Seq<u8>, path: Seq<u8>) -> bool {
    ||| path.len() == 0 || path[0] != SEPARATOR
    ||| components(data_dir).len() <= components(path).len() && components(path).take(
        components(data_dir).len() as int,
    ) == components(data_dir)
}

proof fn lemma_inside(data_dir: Seq<u8>, path: Seq<u8>)
    ensures
        starts_with(join(data_dir, path), data_dir) <==> is_inside(data_dir, path),
{
    if path.len() == 0 || path[0] != SEPARATOR {
        law_relative_path_is_descendant(data_dir, path);
    }
}

/// A request that is not refused is carried out where it asks to.
pub proof fn law_request_goes_where_it_asks(
    r: Result<Vec<u8>, Refusal>,
    state: StateInner,
    query: PathQuery,
    facts: PathFacts,
)
    requires
        answers(r, state, query, read_refusal(facts)) || answers(
            r,
            state,
            query,
            remove_file_refusal(facts),
        ) || answers(r, state, query, create_dir_refusal(facts)) || answers(
            r,
            state,
            query,
            remove_dir_refusal(facts),
        ),
    ensures
        r matches Ok(p) ==> lies_where_asked(p@, state.data_dir@, query.path@),
{
    lemma_joined_lies_where_asked(state.data_dir@, query.path@);
}

/// Requests on relative paths with different components are carried out on different paths.
pub proof fn law_different_requests_go_apart(
    p: Vec<u8>,
    q: Vec<u8>,
    state: StateInner,
    a: PathQuery,
    b: PathQuery,
)
    requires
        answers(Ok(p), state, a, None),
        answers(Ok(q), state, b, None),
        state.data_dir@.len() > 0,
        a.path@.len() == 0 || a.path@[0] != SEPARATOR,
        b.path@.len() == 0 || b.path@[0] != SEPARATOR,
        inner_components(a.path@) != inner_components(b.path@),
    ensures
        components(p@) != components(q@),
{
    lemma_joined_lies_where_asked(state.data_dir@, a.path@);
    lemma_joined_lies_where_asked(state.data_dir@, b.path@);
    let n = components(state.data_dir@).len() as int;
    assert(components(p@).skip(n) =~= inner_components(a.path@));
    assert(components(q@).skip(n) =~= inner_components(b.path@));
}

/// A file is read where something lies in the data directory that is neither a symbolic link nor a
/// directory. The first thing that speaks against it is told.
pub proof fn law_what_is_read(
    r: Result<Vec<u8>, Refusal>,
    state: StateInner,
    query: PathQuery,
    facts: PathFacts,
)
    requires
        answers(r, state, query, read_refusal(facts)),
    ensures
        r is Ok <==> is_inside(state.data_dir@, query.path@) && facts.exists && !facts.is_symlink
            && !facts.is_dir,
        r matches Err(e) ==> e.status == Status::BadRequest && e.message@ == (if !is_inside(
            state.data_dir@,
            query.path@,
        ) {
            "Provided path is not a descendent of the data directory"@
        } else if !facts.exists {
            "Provided path does not exist"@
        } else if facts.is_symlink {
            "Provided path is a symbolic link"@
        } else {
            "Provided path is a directory"@
        }),
{
    lemma_inside(state.data_dir@, query.path@);
}

/// A file is removed where one lies in the data directory that is no symbolic link.
pub proof fn law_what_file_is_removed(
    r: Result<Vec<u8>, Refusal>,
    state: StateInner,
    query: PathQuery,
    facts: PathFacts,
)
    requires
        answers(r, state, query, remove_file_refusal(facts)),
    ensures
        r is Ok <==> is_inside(state.data_dir@, query.path@) && facts.exists && !facts.is_symlink
            && facts.is_file,
        r matches Err(e) ==> e.status == Status::BadRequest && e.message@ == (if !is_inside(
            state.data_dir@,
            query.path@,
        ) {
            "Provided path is not a descendent of the data directory"@
        } else if !facts.exists {
            "Provided path does not exist"@
        } else if facts.is_symlink {
            "Provided path is a symbolic link"@
        } else {
            "Provided path is not a file"@
        }),
{
    lemma_inside(state.data_dir@, query.path@);
}

/// A directory is created where nothing lies in the data directory, not even a broken link.
pub proof fn law_what_directory_is_created(
    r: Result<Vec<u8>, Refusal>,
    state: StateInner,
    query: PathQuery,
    facts: PathFacts,
)
    requires
        answers(r, state, query, create_dir_refusal(facts)),
    ensures
        r is Ok <==> is_inside(state.data_dir@, query.path@) && !facts.exists && !facts.is_symlink,
        r matches Err(e) ==> if !is_inside(state.data_dir@, query.path@) {
            e.status == Status::BadRequest && e.message@
                == "Provided path is not a descendent of the data directory"@
        } else {
            e.status == Status::Conflict && e.message@ == (if facts.exists {
                "Provided path already exists"@
            } else {
                "Provided path is a symbolic link"@
            })
        },
{
    lemma_inside(state.data_dir@, query.path@);
}

/// A directory is removed where one lies in the data directory that is no symbolic link.
pub proof fn law_what_directory_is_removed(
    r: Result<Vec<u8>, Refusal>,
    state: StateInner,
    query: PathQuery,
    facts: PathFacts,
)
    requires
        answers(r, state, query, remove_dir_refusal(facts)),
    ensures
        r is Ok <==> is_inside(state.data_dir@, query.path@) && facts.exists && !facts.is_symlink
            && facts.is_dir,
        r matches Err(e) ==> if !is_inside(state.data_dir@, query.path@) {
            e.status == Status::BadRequest && e.message@
                == "Provided path is not a descendent of the data directory"@
        } else {
            e.status == Status::Conflict && e.message@ == (if !facts.exists {
                "Provided path does not exist"@
            } else if facts.is_symlink {
                "Provided path is a symbolic link"@
            } else {
                "Provided path is not a directory"@
            })
        },
{
    lemma_inside(state.data_dir@, query.path@);
}

/// A file is received where neither a symbolic link nor a directory lies at its place. Nothing was
/// received when it begins, and what the request tells is kept.
pub proof fn law_what_file_is_written(
    r: Result<FileWrite, Refusal>,
    state: StateInner,
    query: PathQuery,
    metadata: FileMetadataQuery,
    facts: PathFacts,
)
    requires
        begins_write(r, state, query, metadata, facts),
    ensures
        r is Ok <==> is_inside(state.data_dir@, query.path@) && !facts.is_symlink && !facts.is_dir,
        r matches Ok(w) ==> {
            &&& lies_where_asked(w.path@, state.data_dir@, query.path@)
            &&& w.written == 0
            &&& w.size == metadata.size
            &&& w.last_modification == metadata.last_modification
            &&& w.last_modification_ns == metadata.last_modification_ns
        },
        r matches Err(e) ==> e.status == Status::BadRequest && e.message@ == (if !is_inside(
            state.data_dir@,
            query.path@,
        ) {
            "Provided path is not a descendent of the data directory"@
        } else if facts.is_symlink {
            "Provided path is a symbolic link"@
        } else {
            "Provided path is a directory"@
        }),
{
    lemma_inside(state.data_dir@, query.path@);
    lemma_joined_lies_where_asked(state.data_dir@, query.path@);
}

/// Digits behind a dash are told apart from what stands before it.
proof fn lemma_last_field(x: Seq<char>, e: Seq<char>, y: Seq<char>, f: Seq<char>)
    requires
        is_numeral(e),
        is_numeral(f),
        x.push('-') + e == y.push('-') + f,
    ensures
        x == y,
        e == f,
{
    let t = x.push('-') + e;
    let u = y.push('-') + f;
    let (i, j) = (x.len() as int, y.len() as int);
    assert(t == u);
    assert(t.len() == i + 1 + e.len() && u.len() == j + 1 + f.len());
    assert(t[i] == '-' && u[j] == '-');
    if i < j {
        assert(t[j] == e[j - i - 1]);
    } else if j < i {
        assert(u[i] == f[i - j - 1]);
    }
    assert(t.take(i) =~= x && u.take(j) =~= y);
    assert(t.skip(i + 1) =~= e && u.skip(j + 1) =~= f);
}

/// Files that differ in size or in modification time are received under different names.
pub proof fn law_tmp_names_differ(a: FileMetadataQuery, b: FileMetadataQuery)
    requires
        tmp_name(a.last_modification, a.last_modification_ns, a.size) == tmp_name(
            b.last_modification,
            b.last_modification_ns,
            b.size,
        ),
    ensures
        a.last_modification == b.last_modification,
        a.last_modification_ns == b.last_modification_ns,
        a.size == b.size,
{
    reveal_strlit("-");
    let (start, dash) = (".tmp-"@, "-"@);
    assert(dash =~= seq!['-']);
    let (s, t) = (
        signed_decimal(a.last_modification as int),
        signed_decimal(b.last_modification as int),
    );
    let (d, e) = (decimal(a.last_modification_ns as nat), decimal(b.last_modification_ns as nat));
    let (x, y) = (decimal(a.size as nat), decimal(b.size as nat));
    law_decimal_denotes(a.last_modification_ns as nat);
    law_decimal_denotes(b.last_modification_ns as nat);
    law_decimal_denotes(a.size as nat);
    law_decimal_denotes(b.size as nat);
    law_signed_decimal_denotes(a.last_modification as int);
    law_signed_decimal_denotes(b.last_modification as int);
    let (first, second) = (start + s, start + t);
    let (f2, s2) = (first.push('-') + d, second.push('-') + e);
    assert(f2.push('-') + x =~= start + s + dash + d + dash + x);
    assert(s2.push('-') + y =~= start + t + dash + e + dash + y);
    lemma_last_field(f2, x, s2, y);
    lemma_last_field(first, d, second, e);
    assert(first.skip(start.len() as int) =~= s);
    assert(second.skip(start.len() as int) =~= t);
}

/// A file is received in the directory where it is going to be, and two receptions of one file get
/// in each other's way only where the requests told the same of it.
pub proof fn law_receptions_do_not_collide(
    state: StateInner,
    query: PathQuery,
    a: FileMetadataQuery,
    b: FileMetadataQuery,
    facts: PathFacts,
    w: FileWrite,
    v: FileWrite,
)
    requires
        begins_write(Ok(w), state, query, a, facts),
        begins_write(Ok(v), state, query, b, facts),
        w.tmp_path@ == v.tmp_path@,
    ensures
        a.last_modification == b.last_modification,
        a.last_modification_ns == b.last_modification_ns,
        a.size == b.size,
{
    let m = tmp_name(a.last_modification, a.last_modification_ns, a.size);
    let n = tmp_name(b.last_modification, b.last_modification_ns, b.size);
    let (x, y) = (encode_utf8(m), encode_utf8(n));
    lemma_tmp_name_is_name(a.last_modification, a.last_modification_ns, a.size);
    lemma_tmp_name_is_name(b.last_modification, b.last_modification_ns, b.size);
    if file_name(w.path@) is Some {
        law_renamed_file_is_sibling(w.path@, x);
        law_renamed_file_is_sibling(w.path@, y);
    } else {
        law_named_below(w.path@, x);
        law_named_below(w.path@, y);
    }
    assert(components(w.tmp_path@).last() == x);
    assert(components(v.tmp_path@).last() == y);
    vstd::utf8::encode_utf8_decode_utf8(m);
    vstd::utf8::encode_utf8_decode_utf8(n);
    law_tmp_names_differ(a, b);
}

/// A failed request is told with its reason, as a failure of the server.
pub proof fn law_write_failures_are_told(f: WriteFailure, r: Refusal)
    requires
        r@ == (Status::InternalServerError, f.says()),
    ensures
        r.status == Status::InternalServerError,
        f matches WriteFailure::Content(reason) ==> r.message@ == reason@,
{
}

/// A file is received in the directory of its place, whatever its place is called.
pub proof fn law_file_is_received_in_its_directory(
    w: FileWrite,
    state: StateInner,
    query: PathQuery,
    metadata: FileMetadataQuery,
    facts: PathFacts,
)
    requires
        begins_write(Ok(w), state, query, metadata, facts),
    ensures
        ({
            let name = encode_utf8(
                tmp_name(metadata.last_modification, metadata.last_modification_ns, metadata.size),
            );
            components(w.tmp_path@) == if file_name(w.path@) is Some {
                components(w.path@).drop_last().push(name)
            } else {
                components(w.path@).push(name)
            }
        }),
        w.tmp_path@ != w.path@ || file_name(w.path@) is Some,
{
    let name = encode_utf8(
        tmp_name(metadata.last_modification, metadata.last_modification_ns, metadata.size),
    );
    lemma_tmp_name_is_name(
        metadata.last_modification,
        metadata.last_modification_ns,
        metadata.size,
    );
    if file_name(w.path@) is Some {
        law_renamed_file_is_sibling(w.path@, name);
    } else {
        law_named_below(w.path@, name);
        assert(components(w.path@).push(name).len() != components(w.path@).len());
    }
}

/// The name under which a file is received begins with `.tmp-` and tells its modification time and its
/// size.
pub proof fn law_tmp_name_tells_the_metadata(m: FileMetadataQuery)
    ensures
        encloses(
            tmp_name(m.last_modification, m.last_modification_ns, m.size),
            ".tmp-"@ + signed_decimal(m.last_modification as int) + "-"@,
            decimal(m.last_modification_ns as nat),
            "-"@ + decimal(m.size as nat),
        ),
{
    let first = ".tmp-"@ + signed_decimal(m.last_modification as int) + "-"@;
    let last = "-"@ + decimal(m.size as nat);
    lemma_encloses(first, decimal(m.last_modification_ns as nat), last);
    assert(first + decimal(m.last_modification_ns as nat) + last =~= tmp_name(
        m.last_modification,
        m.last_modification_ns,
        m.size,
    ));
}

} // verus!

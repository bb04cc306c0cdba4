//! What the client does from its start to its end.
//!
//! Looking at directories, sending requests and asking the user is done elsewhere.
//! `Session::step` takes what came of it and tells what to do next.
use vstd::prelude::*;

use crate::diffing::{
    build_diff, is_diff, Diff, DiffItemAdded, DiffItemDeleted, DiffItemModified, DiffItemTypeChanged,
};
use crate::entries::{entries, lemma_lists, lemma_pick_has, lists, pick, texts};
use crate::item_laws::{
    holds, knows, law_added_is_only_local, law_deleted_is_only_remote, law_modified_differs,
    law_type_changed_differs, law_what_is_deleted, law_what_is_sent, names_once,
};
use crate::plan::{
    insignificant, is_empty, is_reduced, law_modifications_are_set_apart, nothing_to_do,
    significant, total_size, SyncPlan,
};
use crate::remote::{
    check_ping, law_wrong_answer_is_told, wrong_ping_answer, AddressError, Server,
};
use crate::run::{Phase, RunState, SyncRun};
use crate::server::PING_ANSWER;
use crate::snapshot::{Snapshot, SnapshotFileMetadata, SnapshotItemMetadata};
use crate::text::encloses;
use crate::walk::SnapshotError;

verus! {

/// What is told where the two sides do not differ.
pub const NOTHING_TO_DO: &'static str = "Nothing to do!";

/// What is told where the user did not want to go on.
pub const CANCELLED: &'static str = "Transfer was cancelled.";

/// What is told when all was done.
pub const SYNCHRONIZED: &'static str = "Synchronized successfully.";

/// What a session waits for.
#[derive(Debug)]
pub enum Stage {
    /// Whether the data directory is there.
    Directory,
    /// The address of the server.
    Address,
    /// The answer to the ping.
    Ping,
    /// The snapshots of both sides.
    Snapshots,
    /// Whether the user wants the plan to be carried out.
    Question(SyncPlan),
    /// The end of the requests.
    Requests,
    /// Nothing: it is over.
    Ended,
}

/// Why a ping has no answer. The texts say what caused that.
#[derive(Debug)]
pub enum PingFailure {
    NotSent(Vec<String>),
    NotText(Vec<String>),
}

/// Why a snapshot is missing. The texts say what caused that.
#[derive(Debug)]
pub enum SnapshotFailure {
    Local(SnapshotError),
    /// There is no address for the request.
    NoAddress(String),
    NotSent(Vec<String>),
    Refused(Vec<String>),
    NotReadable(Vec<String>),
}

/// The snapshots of both sides.
#[derive(Debug)]
pub struct Snapshots {
    pub local: Snapshot,
    pub remote: Snapshot,
}

/// What happened.
#[derive(Debug)]
pub enum Event {
    DirectoryChecked { found: bool },
    AddressRead(Result<Server, AddressError>),
    PingAnswered(Result<String, PingFailure>),
    SnapshotsTaken(Result<Snapshots, SnapshotFailure>),
    /// The user answered, or could not be asked.
    QuestionAnswered(Result<bool, Vec<String>>),
    RequestsEnded(Result<(), Vec<String>>),
}

/// What the user is asked about.
#[derive(Debug)]
pub struct Proposal {
    pub diff: Diff,
    /// The modifications that do not count.
    pub ignored: Vec<(String, DiffItemModified)>,
    pub files: usize,
    pub dirs: usize,
    pub deletions: usize,
    /// The size of all the files, or nothing where a `u64` cannot hold it.
    pub size: Option<u64>,
}

/// What to do next.
#[derive(Debug)]
pub enum Next {
    ReadAddress,
    Ping(Server),
    TakeSnapshots,
    Ask(Proposal),
    Run(SyncRun),
    /// End, as the two sides do not differ but for the given modifications.
    NothingToDo(Vec<(String, DiffItemModified)>),
    /// End, as the user does not want to go on.
    Cancel,
    /// End, as all was done.
    Finish,
    /// End with an error: what went wrong, and after it what caused that.
    Fail(Vec<String>),
}

/// A client at work.
#[derive(Debug)]
pub struct Session {
    pub stage: Stage,
    pub max_parallel_transfers: usize,
}

// ---------------------------------------------------------------------------------------------
// Model
// ---------------------------------------------------------------------------------------------

impl PingFailure {
    /// What a failure says, and after it what caused it.
    pub open spec fn says(&self) -> Seq<Seq<char>> {
        match *self {
            PingFailure::NotSent(causes) => seq!["Failed to ping server"@] + texts(causes@),
            PingFailure::NotText(causes) => seq!["Failed to convert response to plain text"@]
                + texts(causes@),
        }
    }
}

impl SnapshotFailure {
    /// What a failure says, and after it what caused it.
    pub open spec fn says(&self) -> Seq<Seq<char>> {
        match *self {
            SnapshotFailure::Local(e) => e.says_all(),
            SnapshotFailure::NoAddress(cause) => seq![cause@],
            SnapshotFailure::NotSent(causes) => seq!["Failed to get remote snapshot"@] + texts(
                causes@,
            ),
            SnapshotFailure::Refused(causes) => seq!["Failed to build remote snapshot"@] + texts(
                causes@,
            ),
            SnapshotFailure::NotReadable(causes) => seq![
                "Failed to deserialize server's response"@,
            ] + texts(causes@),
        }
    }
}

/// Whether a diff holds no change that counts.
pub open spec fn nothing_counts(full: Diff) -> bool {
    &&& full.added@.len() == 0
    &&& pick(entries(full.modified@), significant()).len() == 0
    &&& full.type_changed@.len() == 0
    &&& full.deleted@.len() == 0
}

/// Whether a session goes on from a stage to another one.
pub open spec fn goes_on(stage: Stage, wanted: Stage, next: Next, wanted_next: Next) -> bool {
    stage == wanted && next == wanted_next
}

/// Whether a session ends with an error.
pub open spec fn fails(stage: Stage, next: Next, messages: Seq<Seq<char>>) -> bool {
    stage == Stage::Ended && (next matches Next::Fail(m) && texts(m@) == messages)
}

/// Whether a session does about a diff what it has to do: it ends where no change counts, and
/// asks about the plan for those that do otherwise.
pub open spec fn settles(full: Diff, stage: Stage, next: Next) -> bool {
    if nothing_counts(full) {
        &&& stage == Stage::Ended
        &&& next matches Next::NothingToDo(ignored)
        &&& entries(ignored@) == pick(entries(full.modified@), insignificant())
    } else {
        &&& next matches Next::Ask(p)
        &&& is_reduced(p.diff, full)
        &&& entries(p.ignored@) == pick(entries(full.modified@), insignificant())
        &&& stage matches Stage::Question(plan)
        &&& plan.carries_out(p.diff)
        &&& p.files == plan.to_transfer@.len()
        &&& p.dirs == plan.to_create_dirs@.len()
        &&& p.deletions == plan.to_delete@.len()
        &&& p.size is Some <==> total_size(entries(plan.to_transfer@)) <= u64::MAX
        &&& p.size is Some ==> p.size->0 == total_size(entries(plan.to_transfer@))
    }
}

/// Whether a run has a plan before it.
pub open spec fn begins(run: SyncRun, plan: SyncPlan, max_parallel_transfers: usize) -> bool {
    &&& run.inv()
    &&& run.plan == plan
    &&& run.max_parallel_transfers == max_parallel_transfers
    &&& run.state() == (RunState { phase: Phase::Deleting, next: 0, running: 0 })
    &&& run.errors@.len() == 0
}

/// Whether a session has yet to begin.
pub open spec fn is_new(s: Session, max_parallel_transfers: usize) -> bool {
    s.stage == Stage::Directory && s.max_parallel_transfers == max_parallel_transfers
}

/// Whether a session waits for an event.
pub open spec fn awaits(stage: Stage, event: Event) -> bool {
    match event {
        Event::DirectoryChecked { found: _ } => stage is Directory,
        Event::AddressRead(_) => stage is Address,
        Event::PingAnswered(_) => stage is Ping,
        Event::SnapshotsTaken(_) => stage is Snapshots,
        Event::QuestionAnswered(_) => stage is Question,
        Event::RequestsEnded(_) => stage is Requests,
    }
}

/// Whether an event leads a session from one stage to another, with `next` to be done.
pub open spec fn steps(before: Session, event: Event, after: Session, next: Next) -> bool {
    &&& awaits(before.stage, event)
    &&& after.max_parallel_transfers == before.max_parallel_transfers
    &&& match event {
        Event::DirectoryChecked { found } => if found {
            goes_on(after.stage, Stage::Address, next, Next::ReadAddress)
        } else {
            fails(after.stage, next, seq!["Provided data directory was not found"@])
        },
        Event::AddressRead(Ok(server)) => goes_on(
            after.stage,
            Stage::Ping,
            next,
            Next::Ping(server),
        ),
        Event::AddressRead(Err(e)) => fails(
            after.stage,
            next,
            seq!["Failed to parse provided server address"@, e.cause@],
        ),
        Event::PingAnswered(Ok(answer)) => if answer@ == PING_ANSWER@ {
            goes_on(after.stage, Stage::Snapshots, next, Next::TakeSnapshots)
        } else {
            fails(after.stage, next, seq![wrong_ping_answer(answer@)])
        },
        Event::PingAnswered(Err(f)) => fails(after.stage, next, f.says()),
        Event::SnapshotsTaken(Ok(s)) => exists|full: Diff|
            {
                &&& is_diff(full, s.local.listing(), s.remote.listing())
                &&& #[trigger] settles(full, after.stage, next)
            },
        Event::SnapshotsTaken(Err(f)) => fails(after.stage, next, f.says()),
        Event::QuestionAnswered(Ok(true)) => {
            &&& after.stage == Stage::Requests
            &&& next matches Next::Run(run)
            &&& begins(run, before.stage->Question_0, before.max_parallel_transfers)
        },
        Event::QuestionAnswered(Ok(false)) => goes_on(
            after.stage,
            Stage::Ended,
            next,
            Next::Cancel,
        ),
        Event::QuestionAnswered(Err(causes)) => fails(after.stage, next, texts(causes@)),
        Event::RequestsEnded(Ok(())) => goes_on(after.stage, Stage::Ended, next, Next::Finish),
        Event::RequestsEnded(Err(causes)) => fails(after.stage, next, texts(causes@)),
    }
}

// ---------------------------------------------------------------------------------------------
// Code
// ---------------------------------------------------------------------------------------------

/// A text, and after it what caused what it tells.
fn with_causes(text: &str, causes: Vec<String>) -> (r: Vec<String>)
    ensures
        texts(r@) == seq![text@] + texts(causes@),
{
    let mut r: Vec<String> = Vec::new();
    r.push(String::from_str(text));
    let mut rest: Vec<String> = causes;
    r.append(&mut rest);
    assert(texts(r@) =~= seq![text@] + texts(causes@));
    r
}

/// One text.
fn alone(text: String) -> (r: Vec<String>)
    ensures
        texts(r@) == seq![text@],
{
    let mut r: Vec<String> = Vec::new();
    r.push(text);
    assert(texts(r@) =~= seq![text@]);
    r
}

impl PingFailure {
    /// Says what went wrong, and after it what caused that.
    pub fn messages(self) -> (r: Vec<String>)
        ensures
            texts(r@) == self.says(),
    {
        match self {
            PingFailure::NotSent(causes) => with_causes("Failed to ping server", causes),
            PingFailure::NotText(causes) => with_causes(
                "Failed to convert response to plain text",
                causes,
            ),
        }
    }
}

impl SnapshotFailure {
    /// Says what went wrong, and after it what caused that.
    pub fn messages(self) -> (r: Vec<String>)
        ensures
            texts(r@) == self.says(),
    {
        match self {
            SnapshotFailure::Local(e) => e.messages(),
            SnapshotFailure::NoAddress(cause) => alone(cause),
            SnapshotFailure::NotSent(causes) => with_causes(
                "Failed to get remote snapshot",
                causes,
            ),
            SnapshotFailure::Refused(causes) => with_causes(
                "Failed to build remote snapshot",
                causes,
            ),
            SnapshotFailure::NotReadable(causes) => with_causes(
                "Failed to deserialize server's response",
                causes,
            ),
        }
    }
}

impl Session {
    /// A session that has yet to begin.
    pub fn new(max_parallel_transfers: usize) -> (r: Self)
        ensures
            is_new(r, max_parallel_transfers),
    {
        Session { stage: Stage::Directory, max_parallel_transfers }
    }

    /// Whether the session waits for an event.
    pub fn is_awaited(&self, event: &Event) -> (r: bool)
        ensures
            r == awaits(self.stage, *event),
    {
        match (event, &self.stage) {
            (Event::DirectoryChecked { found: _ }, Stage::Directory) => true,
            (Event::AddressRead(_), Stage::Address) => true,
            (Event::PingAnswered(_), Stage::Ping) => true,
            (Event::SnapshotsTaken(_), Stage::Snapshots) => true,
            (Event::QuestionAnswered(_), Stage::Question(_)) => true,
            (Event::RequestsEnded(_), Stage::Requests) => true,
            _ => false,
        }
    }

    /// A session in another stage.
    fn at(stage: Stage, max_parallel_transfers: usize, next: Next) -> (r: (Session, Next))
        ensures
            r.0.stage == stage,
            r.0.max_parallel_transfers == max_parallel_transfers,
            r.1 == next,
    {
        (Session { stage, max_parallel_transfers }, next)
    }

    /// Compares the snapshots, and tells whether there is something to ask about.
    fn compare(snapshots: &Snapshots, max_parallel_transfers: usize) -> (r: (Session, Next))
        ensures
            r.0.max_parallel_transfers == max_parallel_transfers,
            exists|full: Diff|
                {
                    &&& is_diff(full, snapshots.local.listing(), snapshots.remote.listing())
                    &&& #[trigger] settles(full, r.0.stage, r.1)
                },
    {
        let full: Diff = build_diff(&snapshots.local, &snapshots.remote);
        let ghost all = full;
        let (diff, ignored): (Diff, Vec<(String, DiffItemModified)>) = full.without_insignificant();
        proof {
            lemma_reduced_is_empty(diff, all);
        }
        let r: (Session, Next) = if nothing_to_do(&diff) {
            Self::at(Stage::Ended, max_parallel_transfers, Next::NothingToDo(ignored))
        } else {
            let plan: SyncPlan = SyncPlan::new(&diff);
            let proposal: Proposal = Proposal {
                diff,
                ignored,
                files: plan.to_transfer.len(),
                dirs: plan.to_create_dirs.len(),
                deletions: plan.to_delete.len(),
                size: plan.transfer_size(),
            };
            Self::at(Stage::Question(plan), max_parallel_transfers, Next::Ask(proposal))
        };
        assert(settles(all, r.0.stage, r.1));
        r
    }

    /// Takes what happened, and tells what to do next. The directory is looked at first, then come
    /// the address, the ping and the snapshots. Nothing is asked where nothing is to do, and nothing
    /// is sent unless the user wants it.
    pub fn step(self, event: Event) -> (r: (Session, Next))
        requires
            awaits(self.stage, event),
        ensures
            steps(self, event, r.0, r.1),
    {
        let max: usize = self.max_parallel_transfers;
        match event {
            Event::DirectoryChecked { found } => if found {
                Self::at(Stage::Address, max, Next::ReadAddress)
            } else {
                let m: Vec<String> = alone(
                    String::from_str("Provided data directory was not found"),
                );
                Self::at(Stage::Ended, max, Next::Fail(m))
            },
            Event::AddressRead(Ok(server)) => Self::at(Stage::Ping, max, Next::Ping(server)),
            Event::AddressRead(Err(e)) => {
                let m: Vec<String> = with_causes(e.message(), alone(e.cause.clone()));
                assert(texts(m@) =~= seq![
                    "Failed to parse provided server address"@,
                    e.cause@,
                ]);
                Self::at(Stage::Ended, max, Next::Fail(m))
            },
            Event::PingAnswered(Ok(answer)) => match check_ping(answer.as_str()) {
                Ok(()) => Self::at(Stage::Snapshots, max, Next::TakeSnapshots),
                Err(e) => Self::at(Stage::Ended, max, Next::Fail(alone(e))),
            },
            Event::PingAnswered(Err(f)) => Self::at(Stage::Ended, max, Next::Fail(f.messages())),
            Event::SnapshotsTaken(Ok(s)) => Self::compare(&s, max),
            Event::SnapshotsTaken(Err(f)) => Self::at(Stage::Ended, max, Next::Fail(f.messages())),
            Event::QuestionAnswered(Ok(wanted)) => match self.stage {
                Stage::Question(plan) => if wanted {
                    Self::at(Stage::Requests, max, Next::Run(SyncRun::new(plan, max)))
                } else {
                    Self::at(Stage::Ended, max, Next::Cancel)
                },
                _ => {
                    assert(false);
                    Self::at(Stage::Ended, max, Next::Cancel)
                },
            },
            Event::QuestionAnswered(Err(causes)) => Self::at(Stage::Ended, max, Next::Fail(causes)),
            Event::RequestsEnded(Ok(())) => Self::at(Stage::Ended, max, Next::Finish),
            Event::RequestsEnded(Err(causes)) => Self::at(Stage::Ended, max, Next::Fail(causes)),
        }
    }
}

proof fn lemma_reduced_is_empty(d: Diff, full: Diff)
    requires
        is_reduced(d, full),
    ensures
        is_empty(d) <==> nothing_counts(full),
{
    assert(entries(d.added@).len() == d.added@.len());
    assert(entries(full.added@).len() == full.added@.len());
    assert(entries(d.modified@).len() == d.modified@.len());
    assert(entries(d.type_changed@).len() == d.type_changed@.len());
    assert(entries(full.type_changed@).len() == full.type_changed@.len());
    assert(entries(d.deleted@).len() == d.deleted@.len());
    assert(entries(full.deleted@).len() == full.deleted@.len());
}

// ---------------------------------------------------------------------------------------------
// Laws
// ---------------------------------------------------------------------------------------------

/// How many events a session took until it waits for another one.
pub open spec fn rank(stage: Stage) -> int {
    match stage {
        Stage::Directory => 0,
        Stage::Address => 1,
        Stage::Ping => 2,
        Stage::Snapshots => 3,
        Stage::Question(_) => 4,
        Stage::Requests => 5,
        Stage::Ended => 6,
    }
}

/// Whether a session went from stage to stage.
pub open spec fn is_history(states: Seq<Session>, events: Seq<Event>, done: Seq<Next>) -> bool {
    &&& states.len() == events.len() + 1
    &&& done.len() == events.len()
    &&& states[0].stage == Stage::Directory
    &&& forall|k: int|
        0 <= k < events.len() ==> steps(states[k], #[trigger] events[k], states[k + 1], done[k])
}

/// A session goes on to the next stage with each event, or ends.
pub proof fn law_session_goes_forward(before: Session, event: Event, after: Session, next: Next)
    requires
        steps(before, event, after, next),
    ensures
        after.stage is Ended || rank(after.stage) == rank(before.stage) + 1,
        before.stage !is Ended,
{
}

proof fn lemma_history_rank(states: Seq<Session>, events: Seq<Event>, done: Seq<Next>, k: int)
    requires
        is_history(states, events, done),
        0 <= k < events.len(),
    ensures
        rank(states[k].stage) == k,
    decreases k,
{
    assert(steps(states[k], events[k], states[k + 1], done[k]));
    law_session_goes_forward(states[k], events[k], states[k + 1], done[k]);
    if k > 0 {
        lemma_history_rank(states, events, done, k - 1);
        assert(steps(states[k - 1], events[k - 1], states[k], done[k - 1]));
        law_session_goes_forward(states[k - 1], events[k - 1], states[k], done[k - 1]);
    }
}

/// Requests are sent only after the data directory was found, the address was read, the server
/// answered the ping, both snapshots were taken, some change counted, and the user wanted it. What
/// is sent then is the plan for the changes that count.
pub proof fn law_run_follows_confirmation(
    states: Seq<Session>,
    events: Seq<Event>,
    done: Seq<Next>,
)
    requires
        is_history(states, events, done),
        done.len() > 0,
        done.last() is Run,
    ensures
        events.len() == 5,
        events[0] == (Event::DirectoryChecked { found: true }),
        events[1] matches Event::AddressRead(Ok(server)) && done[1] == Next::Ping(server),
        events[2] matches Event::PingAnswered(Ok(answer)) && answer@ == PING_ANSWER@,
        done[2] is TakeSnapshots,
        events[3] matches Event::SnapshotsTaken(Ok(s)) && exists|full: Diff, d: Diff|
            {
                &&& is_diff(full, s.local.listing(), s.remote.listing())
                &&& #[trigger] is_reduced(d, full)
                &&& !is_empty(d)
                &&& done.last()->Run_0.plan.carries_out(d)
            },
        done[3] is Ask,
        events[4] == Event::QuestionAnswered(Ok::<bool, Vec<String>>(true)),
{
    let n = events.len() - 1;
    assert(steps(states[n], events[n], states[n + 1], done[n]));
    lemma_history_rank(states, events, done, n);
    assert(done.last() == done[n]);
    assert(n == 4);
    assert(steps(states[0], events[0], states[1], done[0]));
    assert(steps(states[1], events[1], states[2], done[1]));
    assert(steps(states[2], events[2], states[3], done[2]));
    assert(steps(states[3], events[3], states[4], done[3]));
    lemma_history_rank(states, events, done, 1);
    lemma_history_rank(states, events, done, 2);
    lemma_history_rank(states, events, done, 3);
    match events[3] {
        Event::SnapshotsTaken(Ok(s)) => {
            let full = choose|full: Diff|
                {
                    &&& is_diff(full, s.local.listing(), s.remote.listing())
                    &&& #[trigger] settles(full, states[4].stage, done[3])
                };
            let d = done[3]->Ask_0.diff;
            assert(is_reduced(d, full));
            lemma_reduced_is_empty(d, full);
        },
        _ => {},
    }
}

/// Where no change counts, the session ends without a question.
pub proof fn law_no_question_without_changes(
    before: Session,
    snapshots: Snapshots,
    after: Session,
    next: Next,
    full: Diff,
)
    requires
        steps(before, Event::SnapshotsTaken(Ok(snapshots)), after, next),
        is_diff(full, snapshots.local.listing(), snapshots.remote.listing()),
    ensures
        nothing_counts(full) <==> next is NothingToDo,
        !nothing_counts(full) <==> next is Ask,
{
    let (l, r) = (snapshots.local.listing(), snapshots.remote.listing());
    let found = choose|found: Diff|
        is_diff(found, l, r) && #[trigger] settles(found, after.stage, next);
    crate::sync_laws::law_diff_is_determined(full, found, l, r);
    assert(entries(full.added@).len() == full.added@.len());
    assert(entries(found.added@).len() == found.added@.len());
    assert(entries(full.type_changed@).len() == full.type_changed@.len());
    assert(entries(found.type_changed@).len() == found.type_changed@.len());
    assert(entries(full.deleted@).len() == full.deleted@.len());
    assert(entries(found.deleted@).len() == found.deleted@.len());
}

/// Whether an error is told by a text, and after it by all that caused it.
pub open spec fn tells(m: Seq<String>, first: Seq<char>, causes: Seq<String>) -> bool {
    &&& m.len() == 1 + causes.len()
    &&& m[0]@ == first
    &&& forall|k: int| 0 <= k < causes.len() ==> m[k + 1]@ == (#[trigger] causes[k])@
}

proof fn lemma_tells(m: Seq<String>, first: Seq<char>, causes: Seq<String>)
    requires
        texts(m) == seq![first] + texts(causes),
    ensures
        tells(m, first, causes),
{
    let (t, c) = (texts(m), texts(causes));
    assert(t.len() == m.len() && c.len() == causes.len());
    assert(t[0] == m[0]@);
    assert forall|k: int| 0 <= k < causes.len() implies m[k + 1]@ == (#[trigger] causes[k])@ by {
        assert(t[k + 1] == c[k]);
        assert(t[k + 1] == m[k + 1]@ && c[k] == causes[k]@);
    }
}

/// What ends a session, and what goes on: each outcome has the one event that leads to it.
pub proof fn law_outcomes_of_a_session(before: Session, event: Event, after: Session, next: Next)
    requires
        steps(before, event, after, next),
    ensures
        next is ReadAddress <==> (event matches Event::DirectoryChecked { found } && found),
        next is Ping <==> (event matches Event::AddressRead(Ok(server))),
        next matches Next::Ping(s) ==> event == Event::AddressRead(Ok::<Server, AddressError>(s)),
        next is TakeSnapshots <==> (event matches Event::PingAnswered(Ok(a)) && a@ == PING_ANSWER@),
        next is Run <==> (event matches Event::QuestionAnswered(Ok(wanted)) && wanted),
        next matches Next::Run(run) ==> {
            &&& before.stage == Stage::Question(run.plan)
            &&& run.max_parallel_transfers == before.max_parallel_transfers
            &&& run.running == 0 && run.next == 0 && run.phase == Phase::Deleting
            &&& run.errors@.len() == 0
        },
        next is Cancel <==> (event matches Event::QuestionAnswered(Ok(wanted)) && !wanted),
        next is Finish <==> (event matches Event::RequestsEnded(Ok(()))),
        next is Fail <==> {
            ||| event matches Event::DirectoryChecked { found } && !found
            ||| event matches Event::AddressRead(Err(e))
            ||| event matches Event::PingAnswered(Ok(a)) && a@ != PING_ANSWER@
            ||| event matches Event::PingAnswered(Err(e))
            ||| event matches Event::SnapshotsTaken(Err(e))
            ||| event matches Event::QuestionAnswered(Err(e))
            ||| event matches Event::RequestsEnded(Err(e))
        },
        (next is Ask || next is NothingToDo) <==> (event matches Event::SnapshotsTaken(Ok(s))),
        after.stage is Ended <==> next is Fail || next is Cancel || next is Finish
            || next is NothingToDo,
        after.max_parallel_transfers == before.max_parallel_transfers,
{
}

/// A session that fails tells what went wrong, and all that caused it.
pub proof fn law_failures_are_told(
    before: Session,
    event: Event,
    after: Session,
    m: Vec<String>,
)
    requires
        steps(before, event, after, Next::Fail(m)),
    ensures
        event is DirectoryChecked ==> tells(m@, "Provided data directory was not found"@, seq![]),
        event matches Event::AddressRead(Err(e)) ==> tells(
            m@,
            "Failed to parse provided server address"@,
            seq![e.cause],
        ),
        event matches Event::PingAnswered(Ok(a)) ==> m@.len() == 1 && encloses(
            m@[0]@,
            "Server did not respond '"@ + PING_ANSWER@ + "' to ping request, but '"@,
            a@,
            "'"@,
        ),
        event matches Event::PingAnswered(Err(PingFailure::NotSent(c))) ==> tells(
            m@,
            "Failed to ping server"@,
            c@,
        ),
        event matches Event::PingAnswered(Err(PingFailure::NotText(c))) ==> tells(
            m@,
            "Failed to convert response to plain text"@,
            c@,
        ),
        event matches Event::SnapshotsTaken(Err(SnapshotFailure::Local(e))) ==> texts(m@)
            == e.says_all(),
        event matches Event::SnapshotsTaken(Err(SnapshotFailure::NoAddress(c))) ==> tells(
            m@,
            c@,
            seq![],
        ),
        event matches Event::SnapshotsTaken(Err(SnapshotFailure::NotSent(c))) ==> tells(
            m@,
            "Failed to get remote snapshot"@,
            c@,
        ),
        event matches Event::SnapshotsTaken(Err(SnapshotFailure::Refused(c))) ==> tells(
            m@,
            "Failed to build remote snapshot"@,
            c@,
        ),
        event matches Event::SnapshotsTaken(Err(SnapshotFailure::NotReadable(c))) ==> tells(
            m@,
            "Failed to deserialize server's response"@,
            c@,
        ),
        event matches Event::QuestionAnswered(Err(c)) ==> texts(m@) == texts(c@),
        event matches Event::RequestsEnded(Err(c)) ==> texts(m@) == texts(c@),
{
    let none = Seq::<String>::empty();
    assert(texts(none) =~= seq![]);
    match event {
        Event::DirectoryChecked { found: _ } => {
            let t = "Provided data directory was not found"@;
            assert(seq![t] + texts(none) =~= seq![t]);
            lemma_tells(m@, t, none);
        },
        Event::AddressRead(Err(e)) => {
            let t = "Failed to parse provided server address"@;
            assert(texts(seq![e.cause]) =~= seq![e.cause@]);
            assert(seq![t] + texts(seq![e.cause]) =~= seq![t, e.cause@]);
            lemma_tells(m@, t, seq![e.cause]);
        },
        Event::PingAnswered(Ok(a)) => {
            let t = wrong_ping_answer(a@);
            assert(seq![t] + texts(none) =~= seq![t]);
            lemma_tells(m@, t, none);
            law_wrong_answer_is_told(a@);
        },
        Event::PingAnswered(Err(PingFailure::NotSent(c))) => {
            lemma_tells(m@, "Failed to ping server"@, c@);
        },
        Event::PingAnswered(Err(PingFailure::NotText(c))) => {
            lemma_tells(m@, "Failed to convert response to plain text"@, c@);
        },
        Event::SnapshotsTaken(Err(SnapshotFailure::NoAddress(c))) => {
            assert(seq![c@] + texts(none) =~= seq![c@]);
            lemma_tells(m@, c@, none);
        },
        Event::SnapshotsTaken(Err(SnapshotFailure::NotSent(c))) => {
            lemma_tells(m@, "Failed to get remote snapshot"@, c@);
        },
        Event::SnapshotsTaken(Err(SnapshotFailure::Refused(c))) => {
            lemma_tells(m@, "Failed to build remote snapshot"@, c@);
        },
        Event::SnapshotsTaken(Err(SnapshotFailure::NotReadable(c))) => {
            lemma_tells(m@, "Failed to deserialize server's response"@, c@);
        },
        _ => {},
    }
}

/// What is proposed is what differs and counts: items that only one side has, items of another type,
/// and files of another size or with modification times more than a second apart. Other differences
/// of files are ignored, and told as such.
pub proof fn law_proposal_by_items(
    before: Session,
    s: Snapshots,
    after: Session,
    p: Proposal,
    q: Seq<char>,
    m: SnapshotItemMetadata,
    a: SnapshotFileMetadata,
    b: SnapshotFileMetadata,
    x: SnapshotItemMetadata,
    y: SnapshotItemMetadata,
)
    requires
        steps(before, Event::SnapshotsTaken(Ok(s)), after, Next::Ask(p)),
        names_once(s.local),
        names_once(s.remote),
    ensures
        lists(p.diff.added@, q, DiffItemAdded { new: m }) <==> holds(s.local, q, m) && !knows(
            s.remote,
            q,
        ),
        lists(p.diff.deleted@, q, DiffItemDeleted { prev: m }) <==> holds(s.remote, q, m) && !knows(
            s.local,
            q,
        ),
        ({
            let both = holds(s.remote, q, SnapshotItemMetadata::File(a)) && holds(
                s.local,
                q,
                SnapshotItemMetadata::File(b),
            );
            let far = a.size != b.size || b.last_modif_date > a.last_modif_date + 1
                || a.last_modif_date > b.last_modif_date + 1;
            &&& lists(p.diff.modified@, q, DiffItemModified { prev: a, new: b }) <==> both && far
            &&& lists(p.ignored@, q, DiffItemModified { prev: a, new: b }) <==> both && !far && a
                != b
        }),
        lists(p.diff.type_changed@, q, DiffItemTypeChanged { prev: x, new: y }) <==> {
            &&& holds(s.remote, q, x)
            &&& holds(s.local, q, y)
            &&& (x is Directory && y is File) || (x is File && y is Directory)
        },
{
    let full = choose|full: Diff|
        {
            &&& is_diff(full, s.local.listing(), s.remote.listing())
            &&& #[trigger] settles(full, after.stage, Next::Ask(p))
        };
    law_added_is_only_local(full, s.local, s.remote, q, m);
    law_deleted_is_only_remote(full, s.local, s.remote, q, m);
    law_modified_differs(full, s.local, s.remote, q, a, b);
    law_type_changed_differs(full, s.local, s.remote, q, x, y);
    let modified = DiffItemModified { prev: a, new: b };
    law_modifications_are_set_apart(
        full.modified@,
        p.diff.modified@,
        p.ignored@,
        q,
        modified,
    );
    lemma_lists(full.added@, q, DiffItemAdded { new: m });
    lemma_lists(p.diff.added@, q, DiffItemAdded { new: m });
    lemma_lists(full.deleted@, q, DiffItemDeleted { prev: m });
    lemma_lists(p.diff.deleted@, q, DiffItemDeleted { prev: m });
    lemma_lists(full.type_changed@, q, DiffItemTypeChanged { prev: x, new: y });
    lemma_lists(p.diff.type_changed@, q, DiffItemTypeChanged { prev: x, new: y });
}

/// There is nothing to do only where both sides have items at the same paths, of the same types,
/// and files of the same sizes with modification times at most a second apart.
pub proof fn law_nothing_to_do_by_items(
    before: Session,
    s: Snapshots,
    after: Session,
    ignored: Vec<(String, DiffItemModified)>,
    q: Seq<char>,
    x: SnapshotItemMetadata,
    y: SnapshotItemMetadata,
)
    requires
        steps(before, Event::SnapshotsTaken(Ok(s)), after, Next::NothingToDo(ignored)),
        names_once(s.local),
        names_once(s.remote),
    ensures
        holds(s.local, q, y) ==> knows(s.remote, q),
        holds(s.remote, q, x) ==> knows(s.local, q),
        holds(s.remote, q, x) && holds(s.local, q, y) ==> match (x, y) {
            (SnapshotItemMetadata::Directory, SnapshotItemMetadata::Directory) => true,
            (SnapshotItemMetadata::File(a), SnapshotItemMetadata::File(b)) => a.size == b.size && -1
                <= a.last_modif_date - b.last_modif_date <= 1 && (a != b ==> lists(
                ignored@,
                q,
                DiffItemModified { prev: a, new: b },
            )),
            _ => false,
        },
{
    let next = Next::NothingToDo(ignored);
    let full = choose|full: Diff|
        {
            &&& is_diff(full, s.local.listing(), s.remote.listing())
            &&& #[trigger] settles(full, after.stage, next)
        };
    law_added_is_only_local(full, s.local, s.remote, q, y);
    law_deleted_is_only_remote(full, s.local, s.remote, q, x);
    law_type_changed_differs(full, s.local, s.remote, q, x, y);
    if let (SnapshotItemMetadata::File(a), SnapshotItemMetadata::File(b)) = (x, y) {
        let modified = DiffItemModified { prev: a, new: b };
        law_modified_differs(full, s.local, s.remote, q, a, b);
        lemma_lists(full.modified@, q, modified);
        lemma_lists(ignored@, q, modified);
        let (all, kept) = (entries(full.modified@), pick(entries(full.modified@), significant()));
        lemma_pick_has(all, significant(), q, modified);
        lemma_pick_has(all, insignificant(), q, modified);
        assert(kept.len() == 0);
        assert(!kept.contains((q, modified)));
        if all.contains((q, modified)) {
            assert(significant()(modified) is None);
            assert(insignificant()(modified) == Some(modified));
        }
    }
}

/// What the user is told of a plan are its numbers and the sum of the sizes, and it is the plan that
/// is carried out where the user wants it.
pub proof fn law_proposal_tells_the_plan(
    before: Session,
    s: Snapshots,
    between: Session,
    p: Proposal,
    after: Session,
    run: SyncRun,
)
    requires
        steps(before, Event::SnapshotsTaken(Ok(s)), between, Next::Ask(p)),
        steps(between, Event::QuestionAnswered(Ok(true)), after, Next::Run(run)),
    ensures
        p.files == run.plan.to_transfer@.len(),
        p.dirs == run.plan.to_create_dirs@.len(),
        p.deletions == run.plan.to_delete@.len(),
        p.size matches Some(n) ==> n == total_size(entries(run.plan.to_transfer@)),
        p.size is None ==> total_size(entries(run.plan.to_transfer@)) > u64::MAX,
        run.plan.carries_out(p.diff),
        p.files + p.dirs + p.deletions > 0,
{
    let full = choose|full: Diff|
        {
            &&& is_diff(full, s.local.listing(), s.remote.listing())
            &&& #[trigger] settles(full, between.stage, Next::Ask(p))
        };
    lemma_reduced_is_empty(p.diff, full);
    let any = SnapshotFileMetadata { size: 0, last_modif_date: 0, last_modif_date_ns: 0 };
    law_what_is_sent(p.diff, run.plan, seq![], any);
    law_what_is_deleted(p.diff, run.plan, seq![], SnapshotItemMetadata::Directory);
}

/// The run of a session runs as many transfers at once as the session was begun with.
pub proof fn law_limit_is_handed_on(
    max: usize,
    states: Seq<Session>,
    events: Seq<Event>,
    done: Seq<Next>,
    k: int,
)
    requires
        is_history(states, events, done),
        is_new(states[0], max),
        0 <= k <= events.len(),
    ensures
        states[k].max_parallel_transfers == max,
        k > 0 ==> (done[k - 1] matches Next::Run(run) ==> run.max_parallel_transfers == max),
    decreases k,
{
    if k > 0 {
        law_limit_is_handed_on(max, states, events, done, k - 1);
        assert(steps(states[k - 1], events[k - 1], states[k], done[k - 1]));
        law_outcomes_of_a_session(states[k - 1], events[k - 1], states[k], done[k - 1]);
    }
}

} // verus!

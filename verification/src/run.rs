//! Carrying out a plan, request by request.
//!
//! Requests are sent elsewhere. `SyncRun::next_step` tells what to do next, and
//! `SyncRun::finished` takes how a request ended.
use vstd::prelude::*;

use crate::diffing::{is_diff, Diff};
use crate::entries::{contents, entries, lemma_texts_push, texts};
use crate::plan::{is_reduced, SyncPlan};
use crate::snapshot::{SnapshotFileMetadata, SnapshotItemMetadata};
use crate::sync_laws::{
    after_creations, after_deletions, after_plan, after_transfers, law_plan_reaches_local,
    law_reduced_plan_nearly_reaches_local, local_prevails, nearly_same,
};
use crate::text::{
    decimal, decimal_text, encloses, is_numeral, law_decimal_denotes, lemma_encloses, numeral,
};

verus! {

/// One thing to do on the server.
#[derive(Debug)]
pub enum Command {
    Delete { path: String, item: SnapshotItemMetadata },
    CreateDir { path: String },
    Transfer { path: String, metadata: SnapshotFileMetadata },
}

/// A command, its path taken as text.
pub enum Task {
    Delete(Seq<char>, SnapshotItemMetadata),
    CreateDir(Seq<char>),
    Transfer(Seq<char>, SnapshotFileMetadata),
}

impl Task {
    /// The path of what is to be deleted, created or sent.
    pub open spec fn path(self) -> Seq<char> {
        match self {
            Task::Delete(path, _) => path,
            Task::CreateDir(path) => path,
            Task::Transfer(path, _) => path,
        }
    }
}

impl View for Command {
    type V = Task;

    open spec fn view(&self) -> Task {
        match *self {
            Command::Delete { path, item } => Task::Delete(path@, item),
            Command::CreateDir { path } => Task::CreateDir(path@),
            Command::Transfer { path, metadata } => Task::Transfer(path@, metadata),
        }
    }
}

/// What to do next.
#[derive(Debug)]
pub enum Step {
    /// Start a command.
    Start(Command),
    /// Wait until one of the started commands ends.
    Wait,
    /// Nothing is left to do.
    Done,
}

/// What a run is busy with.
#[derive(Debug, Clone, Copy, PartialEq, Eq, Structural)]
pub enum Phase {
    Deleting,
    CreatingDirs,
    Transferring,
}

/// A plan that is being carried out.
#[derive(Debug)]
pub struct SyncRun {
    pub plan: SyncPlan,
    pub max_parallel_transfers: usize,
    pub phase: Phase,
    /// How many commands of the phase were started.
    pub next: usize,
    /// How many of them have not ended.
    pub running: usize,
    /// What went wrong so far.
    pub errors: Vec<String>,
}

// ---------------------------------------------------------------------------------------------
// Model
// ---------------------------------------------------------------------------------------------

/// The deletions of a plan.
pub open spec fn deletions(plan: SyncPlan) -> Seq<Task> {
    entries(plan.to_delete@).map_values(
        |e: (Seq<char>, SnapshotItemMetadata)| Task::Delete(e.0, e.1),
    )
}

/// The creations of a plan.
pub open spec fn creations(plan: SyncPlan) -> Seq<Task> {
    texts(plan.to_create_dirs@).map_values(|p: Seq<char>| Task::CreateDir(p))
}

/// The transfers of a plan.
pub open spec fn transfers(plan: SyncPlan) -> Seq<Task> {
    entries(plan.to_transfer@).map_values(
        |e: (Seq<char>, SnapshotFileMetadata)| Task::Transfer(e.0, e.1),
    )
}

/// Where a run stands.
pub struct RunState {
    pub phase: Phase,
    pub next: int,
    pub running: int,
}

/// The commands of a phase.
pub open spec fn phase_tasks(plan: SyncPlan, phase: Phase) -> Seq<Task> {
    match phase {
        Phase::Deleting => deletions(plan),
        Phase::CreatingDirs => creations(plan),
        Phase::Transferring => transfers(plan),
    }
}

/// A run that has ended a phase goes on to the next one.
pub open spec fn advanced(plan: SyncPlan, s: RunState) -> RunState {
    if s.running == 0 && s.next == phase_tasks(plan, s.phase).len() {
        match s.phase {
            Phase::Deleting => RunState { phase: Phase::CreatingDirs, next: 0, running: 0 },
            Phase::CreatingDirs => RunState { phase: Phase::Transferring, next: 0, running: 0 },
            Phase::Transferring => s,
        }
    } else {
        s
    }
}

/// A run that has ended as many phases as it can without starting anything.
pub open spec fn settled(plan: SyncPlan, s: RunState) -> RunState {
    advanced(plan, advanced(plan, s))
}

/// How many transfers may run at once: at least one.
pub open spec fn transfer_limit(max_parallel_transfers: nat) -> nat {
    if max_parallel_transfers == 0 {
        1
    } else {
        max_parallel_transfers
    }
}

impl SyncRun {
    /// Where the run stands.
    pub open spec fn state(&self) -> RunState {
        RunState { phase: self.phase, next: self.next as int, running: self.running as int }
    }

    /// No more commands run than were started, and no more transfers than may run at once.
    pub open spec fn inv(&self) -> bool {
        &&& self.running <= self.next <= phase_tasks(self.plan, self.phase).len()
        &&& self.phase == Phase::Transferring ==> self.running <= transfer_limit(
            self.max_parallel_transfers as nat,
        )
    }

    /// The commands that were started so far, in order.
    pub open spec fn started(&self) -> Seq<Task> {
        let n = self.next as int;
        match self.phase {
            Phase::Deleting => deletions(self.plan).take(n),
            Phase::CreatingDirs => deletions(self.plan) + creations(self.plan).take(n),
            Phase::Transferring => deletions(self.plan) + creations(self.plan) + transfers(
                self.plan,
            ).take(n),
        }
    }

    /// Whether a command can be started now: one is left and, if it is a transfer, not too many
    /// run.
    pub open spec fn can_start(plan: SyncPlan, max_parallel_transfers: nat, s: RunState) -> bool {
        &&& s.next < phase_tasks(plan, s.phase).len()
        &&& s.phase == Phase::Transferring ==> s.running < transfer_limit(max_parallel_transfers)
    }

    /// Whether nothing is left to start and nothing runs.
    pub open spec fn is_done(&self) -> bool {
        &&& self.state() == settled(self.plan, self.state())
        &&& !Self::can_start(self.plan, self.max_parallel_transfers as nat, self.state())
        &&& self.running == 0
    }
}

/// All that a plan asks for: deletions first, then directories, then files.
pub open spec fn all_tasks(plan: SyncPlan) -> Seq<Task> {
    deletions(plan) + creations(plan) + transfers(plan)
}

/// What the server holds after a command was carried out.
pub open spec fn after_task(m: Map<Seq<char>, SnapshotItemMetadata>, task: Task) -> Map<
    Seq<char>,
    SnapshotItemMetadata,
> {
    match task {
        Task::Delete(path, _) => m.remove(path),
        Task::CreateDir(path) => m.insert(path, SnapshotItemMetadata::Directory),
        Task::Transfer(path, metadata) => m.insert(path, SnapshotItemMetadata::File(metadata)),
    }
}

/// What the server holds after commands were carried out, one after the other.
pub open spec fn after_tasks(m: Map<Seq<char>, SnapshotItemMetadata>, tasks: Seq<Task>) -> Map<
    Seq<char>,
    SnapshotItemMetadata,
>
    decreases tasks.len(),
{
    if tasks.len() == 0 {
        m
    } else {
        after_task(after_tasks(m, tasks.drop_last()), tasks.last())
    }
}

/// The errors of a run, one to a line.
pub open spec fn error_lines(errors: Seq<Seq<char>>) -> Seq<char>
    decreases errors.len(),
{
    if errors.len() == 0 {
        seq![]
    } else {
        error_lines(errors.drop_last()) + ("\n* "@ + errors.last())
    }
}

/// What is told of the errors of a run.
pub open spec fn report_text(errors: Seq<Seq<char>>) -> Seq<char> {
    "Running... (encountered "@ + decimal(errors.len()) + " error(s))\n"@ + error_lines(errors)
}

/// Whether a run has a plan before it.
pub open spec fn is_fresh(run: SyncRun, plan: SyncPlan, max_parallel_transfers: usize) -> bool {
    &&& run.plan == plan
    &&& run.max_parallel_transfers == max_parallel_transfers
    &&& run.state() == (RunState { phase: Phase::Deleting, next: 0, running: 0 })
    &&& run.errors@.len() == 0
    &&& run.inv()
    &&& run.started() == Seq::<Task>::empty()
}

/// Whether a run tells what to do next as it has to.
pub open spec fn makes_step(before: SyncRun, r: Step, after: SyncRun) -> bool {
    let plan = before.plan;
    let s = settled(plan, before.state());
    &&& after.inv()
    &&& after.plan == before.plan
    &&& after.max_parallel_transfers == before.max_parallel_transfers
    &&& after.errors == before.errors
    &&& if SyncRun::can_start(plan, before.max_parallel_transfers as nat, s) {
        &&& r matches Step::Start(c)
        &&& c@ == phase_tasks(plan, s.phase)[s.next]
        &&& after.state() == (RunState { phase: s.phase, next: s.next + 1, running: s.running + 1 })
        &&& after.started() == before.started().push(c@)
    } else {
        &&& after.state() == s
        &&& after.started() == before.started()
        &&& if s.running > 0 {
            r is Wait
        } else {
            r is Done && after.is_done()
        }
    }
}

/// Whether a run took note as it has to that a command ended.
pub open spec fn ends_one(before: SyncRun, error: Option<String>, after: SyncRun) -> bool {
    &&& after.inv()
    &&& after.plan == before.plan
    &&& after.max_parallel_transfers == before.max_parallel_transfers
    &&& after.state() == (RunState { running: before.running - 1, ..before.state() })
    &&& after.started() == before.started()
    &&& texts(after.errors@) == match error {
        Some(e) => texts(before.errors@).push(e@),
        None => texts(before.errors@),
    }
}

/// Whether a run ended as it has to: it failed if anything went wrong.
pub open spec fn is_outcome(run: SyncRun, r: Result<(), String>) -> bool {
    match r {
        Ok(()) => run.errors@.len() == 0,
        Err(e) => run.errors@.len() > 0 && e@ == decimal(run.errors@.len())
            + " error(s) occurred."@,
    }
}

// ---------------------------------------------------------------------------------------------
// Code
// ---------------------------------------------------------------------------------------------

impl SyncRun {
    /// Begins to carry out a plan.
    pub fn new(plan: SyncPlan, max_parallel_transfers: usize) -> (r: Self)
        ensures
            is_fresh(r, plan, max_parallel_transfers),
    {
        let r: SyncRun = SyncRun {
            plan,
            max_parallel_transfers,
            phase: Phase::Deleting,
            next: 0,
            running: 0,
            errors: Vec::new(),
        };
        assert(r.started() =~= seq![]);
        r
    }

    /// How many commands the phase has.
    fn phase_len(&self) -> (r: usize)
        ensures
            r == phase_tasks(self.plan, self.phase).len(),
    {
        match self.phase {
            Phase::Deleting => self.plan.to_delete.len(),
            Phase::CreatingDirs => self.plan.to_create_dirs.len(),
            Phase::Transferring => self.plan.to_transfer.len(),
        }
    }

    /// Goes on to the next phase where this one has ended.
    fn advance(&mut self)
        requires
            old(self).inv(),
        ensures
            final(self).inv(),
            final(self).plan == old(self).plan,
            final(self).max_parallel_transfers == old(self).max_parallel_transfers,
            final(self).errors == old(self).errors,
            final(self).state() == advanced(old(self).plan, old(self).state()),
            final(self).started() == old(self).started(),
    {
        if self.running == 0 && self.next == self.phase_len() {
            let ghost before = self.started();
            match self.phase {
                Phase::Deleting => {
                    self.phase = Phase::CreatingDirs;
                    self.next = 0;
                },
                Phase::CreatingDirs => {
                    self.phase = Phase::Transferring;
                    self.next = 0;
                },
                Phase::Transferring => {},
            }
            assert(self.started() =~= before);
        }
    }

    /// Tells what to do next. Commands are started in the order of the plan. A phase begins when
    /// all the commands of the one before it have ended, and no more transfers run at once than
    /// was asked for.
    pub fn next_step(&mut self) -> (r: Step)
        requires
            old(self).inv(),
        ensures
            makes_step(*old(self), r, *final(self)),
    {
        self.advance();
        self.advance();
        let ghost s = self.state();
        let ghost before = self.started();
        let limit: usize = if self.max_parallel_transfers == 0 {
            1
        } else {
            self.max_parallel_transfers
        };
        if self.next < self.phase_len() {
            let i: usize = self.next;
            match self.phase {
                Phase::Deleting => {
                    let (path, item): (String, SnapshotItemMetadata) = (
                        self.plan.to_delete[i].0.clone(),
                        self.plan.to_delete[i].1,
                    );
                    self.next = i + 1;
                    self.running = self.running + 1;
                    let c: Command = Command::Delete { path, item };
                    assert(c@ == deletions(self.plan)[i as int]);
                    assert(self.started() =~= before.push(c@));
                    Step::Start(c)
                },
                Phase::CreatingDirs => {
                    let path: String = self.plan.to_create_dirs[i].clone();
                    self.next = i + 1;
                    self.running = self.running + 1;
                    let c: Command = Command::CreateDir { path };
                    assert(c@ == creations(self.plan)[i as int]);
                    assert(self.started() =~= before.push(c@));
                    Step::Start(c)
                },
                Phase::Transferring => {
                    if self.running < limit {
                        let (path, metadata): (String, SnapshotFileMetadata) = (
                            self.plan.to_transfer[i].0.clone(),
                            self.plan.to_transfer[i].1,
                        );
                        self.next = i + 1;
                        self.running = self.running + 1;
                        let c: Command = Command::Transfer { path, metadata };
                        assert(c@ == transfers(self.plan)[i as int]);
                        assert(self.started() =~= before.push(c@));
                        Step::Start(c)
                    } else {
                        Step::Wait
                    }
                },
            }
        } else if self.running > 0 {
            Step::Wait
        } else {
            Step::Done
        }
    }

    /// Takes note that a command has ended, and of what went wrong with it.
    pub fn finished(&mut self, error: Option<String>)
        requires
            old(self).inv(),
            old(self).running > 0,
        ensures
            ends_one(*old(self), error, *final(self)),
    {
        self.running = self.running - 1;
        match error {
            Some(e) => {
                proof {
                    lemma_texts_push(self.errors@, e);
                }
                self.errors.push(e);
            },
            None => {},
        }
    }

    /// Tells what went wrong so far.
    pub fn error_report(&self) -> (r: String)
        ensures
            r@ == report_text(texts(self.errors@)),
    {
        let mut r: String = String::from_str("Running... (encountered ");
        r.append(decimal_text(self.errors.len() as u128).as_str());
        r.append(" error(s))\n");
        let ghost start = r@;
        let ghost all = texts(self.errors@);
        assert(all.take(0) =~= seq![]);
        assert(start + error_lines(all.take(0)) =~= start);
        for i in 0..self.errors.len()
            invariant
                all == texts(self.errors@),
                r@ == start + error_lines(all.take(i as int)),
        {
            let ghost before = r@;
            r.append("\n* ");
            r.append(self.errors[i].as_str());
            proof {
                assert(all.take(i + 1).drop_last() =~= all.take(i as int));
                assert(all.take(i + 1).last() == self.errors@[i as int]@);
                assert(r@ =~= start + error_lines(all.take(i + 1)));
            }
        }
        assert(all.take(all.len() as int) =~= all);
        r
    }

    /// How the run ended: it failed if anything went wrong.
    pub fn outcome(&self) -> (r: Result<(), String>)
        ensures
            is_outcome(*self, r),
    {
        if self.errors.len() == 0 {
            return Ok(());
        }
        let mut e: String = decimal_text(self.errors.len() as u128);
        e.append(" error(s) occurred.");
        Err(e)
    }
}

/// A path in quotes between two texts, and then an error.
fn quoted(start: &str, path: &str, middle: &str, err: &str) -> (r: String)
    ensures
        r@ == start@ + path@ + middle@ + err@,
{
    let mut r: String = String::from_str(start);
    r.append(path);
    r.append(middle);
    r.append(err);
    r
}

impl Command {
    /// What is told where the server refused a command.
    pub open spec fn refused_text(&self, err: Seq<char>) -> Seq<char> {
        match self@ {
            Task::Delete(path, _) => "Failed to delete item at '"@ + path + "': "@ + err,
            Task::CreateDir(path) => "Failed to create directory '"@ + path + "': "@ + err,
            Task::Transfer(path, _) => "Failed to transfer file '"@ + path + "': "@ + err,
        }
    }

    /// What is told where a command did not reach the server.
    pub open spec fn unsent_text(&self, err: Seq<char>) -> Seq<char> {
        match self@ {
            Task::Delete(path, _) => "Failed to send deletion request for item '"@ + path + "': "@
                + err,
            Task::CreateDir(path) => "Failed to send directory creation request '"@ + path
                + "': "@ + err,
            Task::Transfer(path, _) => "Failed to complete request for file '"@ + path + "': "@
                + err,
        }
    }

    /// Tells that the server refused a command.
    pub fn refused(&self, err: &str) -> (r: String)
        ensures
            r@ == self.refused_text(err@),
    {
        match self {
            Command::Delete { path, item: _ } => quoted(
                "Failed to delete item at '",
                path.as_str(),
                "': ",
                err,
            ),
            Command::CreateDir { path } => quoted(
                "Failed to create directory '",
                path.as_str(),
                "': ",
                err,
            ),
            Command::Transfer { path, metadata: _ } => quoted(
                "Failed to transfer file '",
                path.as_str(),
                "': ",
                err,
            ),
        }
    }

    /// Tells that a command did not reach the server.
    pub fn unsent(&self, err: &str) -> (r: String)
        ensures
            r@ == self.unsent_text(err@),
    {
        match self {
            Command::Delete { path, item: _ } => quoted(
                "Failed to send deletion request for item '",
                path.as_str(),
                "': ",
                err,
            ),
            Command::CreateDir { path } => quoted(
                "Failed to send directory creation request '",
                path.as_str(),
                "': ",
                err,
            ),
            Command::Transfer { path, metadata: _ } => quoted(
                "Failed to complete request for file '",
                path.as_str(),
                "': ",
                err,
            ),
        }
    }
}

/// What is told of a file that could not be opened.
pub open spec fn unopened_text(path: Seq<char>, err: Seq<char>) -> Seq<char> {
    "Failed to open file '"@ + path + "' for transfer: "@ + err
}

/// Tells that a file could not be opened.
pub fn unopened(path: &str, err: &str) -> (r: String)
    ensures
        r@ == unopened_text(path@, err@),
{
    quoted("Failed to open file '", path, "' for transfer: ", err)
}

// ---------------------------------------------------------------------------------------------
// Laws
// ---------------------------------------------------------------------------------------------

/// A run goes on to another phase only when it has started all the commands of its phase, and
/// all of them have ended.
pub proof fn law_phases_do_not_overlap(run: SyncRun)
    requires
        run.inv(),
        settled(run.plan, run.state()).phase != run.phase,
    ensures
        run.running == 0,
        run.next == phase_tasks(run.plan, run.phase).len(),
{
}

/// When a run is done, all that the plan asks for was started, each command once and in order.
pub proof fn law_done_means_all_started(run: SyncRun)
    requires
        run.inv(),
        run.is_done(),
    ensures
        run.started() == all_tasks(run.plan),
{
    assert(run.phase == Phase::Transferring);
    assert(transfers(run.plan).take(run.next as int) =~= transfers(run.plan));
}

proof fn lemma_after_concat(
    m: Map<Seq<char>, SnapshotItemMetadata>,
    s: Seq<Task>,
    t: Seq<Task>,
)
    ensures
        after_tasks(m, s + t) == after_tasks(after_tasks(m, s), t),
    decreases t.len(),
{
    if t.len() == 0 {
        assert(s + t =~= s);
    } else {
        assert((s + t).drop_last() =~= s + t.drop_last());
        lemma_after_concat(m, s, t.drop_last());
    }
}

proof fn lemma_after_deletion_tasks(
    m: Map<Seq<char>, SnapshotItemMetadata>,
    s: Seq<(Seq<char>, SnapshotItemMetadata)>,
    tasks: Seq<Task>,
)
    requires
        tasks == s.map_values(|e: (Seq<char>, SnapshotItemMetadata)| Task::Delete(e.0, e.1)),
    ensures
        after_tasks(m, tasks) == after_deletions(m, s),
    decreases s.len(),
{
    if s.len() > 0 {
        assert(tasks.drop_last() =~= s.drop_last().map_values(
            |e: (Seq<char>, SnapshotItemMetadata)| Task::Delete(e.0, e.1),
        ));
        lemma_after_deletion_tasks(m, s.drop_last(), tasks.drop_last());
    }
}

proof fn lemma_after_creation_tasks(
    m: Map<Seq<char>, SnapshotItemMetadata>,
    s: Seq<Seq<char>>,
    tasks: Seq<Task>,
)
    requires
        tasks == s.map_values(|p: Seq<char>| Task::CreateDir(p)),
    ensures
        after_tasks(m, tasks) == after_creations(m, s),
    decreases s.len(),
{
    if s.len() > 0 {
        assert(tasks.drop_last() =~= s.drop_last().map_values(|p: Seq<char>| Task::CreateDir(p)));
        lemma_after_creation_tasks(m, s.drop_last(), tasks.drop_last());
    }
}

proof fn lemma_after_transfer_tasks(
    m: Map<Seq<char>, SnapshotItemMetadata>,
    s: Seq<(Seq<char>, SnapshotFileMetadata)>,
    tasks: Seq<Task>,
)
    requires
        tasks == s.map_values(|e: (Seq<char>, SnapshotFileMetadata)| Task::Transfer(e.0, e.1)),
    ensures
        after_tasks(m, tasks) == after_transfers(m, s),
    decreases s.len(),
{
    if s.len() > 0 {
        assert(tasks.drop_last() =~= s.drop_last().map_values(
            |e: (Seq<char>, SnapshotFileMetadata)| Task::Transfer(e.0, e.1),
        ));
        lemma_after_transfer_tasks(m, s.drop_last(), tasks.drop_last());
    }
}

/// A run that is done, and whose commands were all carried out, has carried out its plan.
pub proof fn law_finished_run_carries_out_plan(
    run: SyncRun,
    m: Map<Seq<char>, SnapshotItemMetadata>,
)
    requires
        run.inv(),
        run.is_done(),
    ensures
        after_tasks(m, run.started()) == after_plan(m, run.plan),
{
    let plan = run.plan;
    law_done_means_all_started(run);
    lemma_after_concat(m, deletions(plan) + creations(plan), transfers(plan));
    lemma_after_concat(m, deletions(plan), creations(plan));
    let m1 = after_tasks(m, deletions(plan));
    let m2 = after_tasks(m1, creations(plan));
    lemma_after_deletion_tasks(m, entries(plan.to_delete@), deletions(plan));
    lemma_after_creation_tasks(m1, texts(plan.to_create_dirs@), creations(plan));
    lemma_after_transfer_tasks(m2, entries(plan.to_transfer@), transfers(plan));
}

/// A run that is done, and whose commands were all carried out, has made the server hold what the
/// local side holds.
pub proof fn law_finished_run_reaches_local(
    run: SyncRun,
    d: Diff,
    local: Seq<(Seq<char>, SnapshotItemMetadata)>,
    remote: Seq<(Seq<char>, SnapshotItemMetadata)>,
)
    requires
        run.inv(),
        run.is_done(),
        is_diff(d, local, remote),
        local_prevails(local, remote, false),
        run.plan.carries_out(d),
    ensures
        after_tasks(contents(remote), run.started()) == contents(local),
{
    law_finished_run_carries_out_plan(run, contents(remote));
    law_plan_reaches_local(d, run.plan, local, remote);
}

/// A run of a plan without the modifications that do not count, done and with all its commands
/// carried out, has made the server hold the paths that the local side holds, and the same items
/// but for those: they stay as they were.
pub proof fn law_finished_run_nearly_reaches_local(
    run: SyncRun,
    full: Diff,
    d: Diff,
    local: Seq<(Seq<char>, SnapshotItemMetadata)>,
    remote: Seq<(Seq<char>, SnapshotItemMetadata)>,
    p: Seq<char>,
)
    requires
        run.inv(),
        run.is_done(),
        is_diff(full, local, remote),
        local_prevails(local, remote, true),
        is_reduced(d, full),
        run.plan.carries_out(d),
    ensures
        ({
            let (before, after) = (contents(remote), after_tasks(contents(remote), run.started()));
            &&& after.contains_key(p) <==> contents(local).contains_key(p)
            &&& contents(local).contains_key(p) ==> {
                ||| after[p] == contents(local)[p]
                ||| before.contains_key(p) && after[p] == before[p] && nearly_same(
                    before[p],
                    contents(local)[p],
                )
            }
        }),
{
    law_finished_run_carries_out_plan(run, contents(remote));
    law_reduced_plan_nearly_reaches_local(full, d, run.plan, local, remote, p);
}

/// Two commands for different paths can end in either order.
pub proof fn law_commands_commute(
    m: Map<Seq<char>, SnapshotItemMetadata>,
    a: Task,
    b: Task,
)
    requires
        a.path() != b.path(),
    ensures
        after_task(after_task(m, a), b) == after_task(after_task(m, b), a),
{
    assert(after_task(after_task(m, a), b) =~= after_task(after_task(m, b), a));
}

/// What was started is the front of what the plan asks for, at every moment of a run.
pub proof fn law_started_in_plan_order(run: SyncRun)
    requires
        run.inv(),
    ensures
        run.started().is_prefix_of(all_tasks(run.plan)),
{
    let all = all_tasks(run.plan);
    assert(run.started() =~= all.take(run.started().len() as int));
}

/// Never do more transfers run at once than was asked for, or than one where none was asked for.
pub proof fn law_transfers_are_bounded(run: SyncRun)
    requires
        run.inv(),
        run.phase == Phase::Transferring,
    ensures
        run.running <= transfer_limit(run.max_parallel_transfers as nat),
        run.max_parallel_transfers > 0 ==> run.running <= run.max_parallel_transfers,
{
}

/// A run can always go on: a command can be started, or one runs, or all is done.
pub proof fn law_run_never_stalls(run: SyncRun)
    requires
        run.inv(),
    ensures
        ({
            let s = settled(run.plan, run.state());
            ||| SyncRun::can_start(run.plan, run.max_parallel_transfers as nat, s)
            ||| s.running > 0
            ||| s.phase == Phase::Transferring && s.next == transfers(run.plan).len()
        }),
{
}

/// A command is seen as what it holds.
pub proof fn law_command_is_seen_as_it_is(c: Command)
    ensures
        c matches Command::Delete { path, item } ==> c@ == Task::Delete(path@, item) && c@.path()
            == path@,
        c matches Command::CreateDir { path } ==> c@ == Task::CreateDir(path@) && c@.path() == path@,
        c matches Command::Transfer { path, metadata } ==> c@ == Task::Transfer(path@, metadata)
            && c@.path() == path@,
{
}

/// The command that is started is the next one of the plan: after all deletions come the
/// directories, and after those the files. Each command holds what the plan has at its place.
pub proof fn law_next_command_is_next_of_plan(before: SyncRun, c: Command, after: SyncRun)
    requires
        before.inv(),
        makes_step(before, Step::Start(c), after),
    ensures
        ({
            let k = before.started().len() as int;
            let plan = before.plan;
            let (n, m) = (plan.to_delete@.len() as int, plan.to_create_dirs@.len() as int);
            &&& after.started().len() == k + 1
            &&& after.running > 0
            &&& if k < n {
                &&& c matches Command::Delete { path, item }
                &&& path@ == plan.to_delete@[k].0@
                &&& item == plan.to_delete@[k].1
            } else if k < n + m {
                &&& c matches Command::CreateDir { path }
                &&& path@ == plan.to_create_dirs@[k - n]@
            } else {
                &&& k < n + m + plan.to_transfer@.len()
                &&& c matches Command::Transfer { path, metadata }
                &&& path@ == plan.to_transfer@[k - n - m].0@
                &&& metadata == plan.to_transfer@[k - n - m].1
            }
        }),
{
    let plan = before.plan;
    let s = settled(plan, before.state());
    assert(deletions(plan).len() == plan.to_delete@.len());
    assert(creations(plan).len() == plan.to_create_dirs@.len());
    assert(transfers(plan).len() == plan.to_transfer@.len());
    assert(before.started().len() == match s.phase {
        Phase::Deleting => s.next,
        Phase::CreatingDirs => deletions(plan).len() + s.next,
        Phase::Transferring => deletions(plan).len() + creations(plan).len() + s.next,
    });
}

/// A run tells to wait or that it is done without starting anything. It is done only when every
/// command of the plan was started and none runs, and tells to wait only while one runs.
pub proof fn law_when_nothing_is_started(before: SyncRun, r: Step, after: SyncRun)
    requires
        before.inv(),
        makes_step(before, r, after),
        !(r is Start),
    ensures
        after.started().len() == before.started().len(),
        r is Wait <==> after.running > 0,
        r is Done ==> after.running == 0 && after.started().len() == after.plan.to_delete@.len()
            + after.plan.to_create_dirs@.len() + after.plan.to_transfer@.len(),
        r is Wait ==> after.running == before.running,
{
    if r is Done {
        law_done_means_all_started(after);
    }
}

/// A run with no command running is never told to wait: it starts a command, or is done.
pub proof fn law_idle_run_goes_on(before: SyncRun, r: Step, after: SyncRun)
    requires
        before.inv(),
        makes_step(before, r, after),
        before.running == 0,
    ensures
        !(r is Wait),
        r is Done <==> before.started().len() == before.plan.to_delete@.len()
            + before.plan.to_create_dirs@.len() + before.plan.to_transfer@.len(),
{
    let plan = before.plan;
    assert(deletions(plan).len() == plan.to_delete@.len());
    assert(creations(plan).len() == plan.to_create_dirs@.len());
    assert(transfers(plan).len() == plan.to_transfer@.len());
    if r is Done {
        law_done_means_all_started(after);
    }
}

/// Deletions are started one after the other without waiting, and so are creations. Transfers are
/// too, while fewer of them run than was asked for, or none.
pub proof fn law_run_does_not_hold_back(before: SyncRun, r: Step, after: SyncRun)
    requires
        before.inv(),
        makes_step(before, r, after),
        match before.phase {
            Phase::Deleting => before.next < before.plan.to_delete@.len(),
            Phase::CreatingDirs => before.next < before.plan.to_create_dirs@.len(),
            Phase::Transferring => before.next < before.plan.to_transfer@.len() && (before.running
                == 0 || before.running < before.max_parallel_transfers),
        },
    ensures
        r is Start,
        after.running == before.running + 1,
        after.phase == before.phase,
{
    let plan = before.plan;
    assert(deletions(plan).len() == plan.to_delete@.len());
    assert(creations(plan).len() == plan.to_create_dirs@.len());
    assert(transfers(plan).len() == plan.to_transfer@.len());
}

/// A transfer is started only where none runs or fewer than was asked for, and a command of another
/// kind than those that run is never started.
pub proof fn law_run_holds_back_where_it_has_to(before: SyncRun, c: Command, after: SyncRun)
    requires
        before.inv(),
        makes_step(before, Step::Start(c), after),
    ensures
        c is Transfer ==> after.running == 1 || after.running <= after.max_parallel_transfers,
        before.running > 0 ==> match before.phase {
            Phase::Deleting => c is Delete,
            Phase::CreatingDirs => c is CreateDir,
            Phase::Transferring => c is Transfer,
        },
        match after.phase {
            Phase::Deleting => c is Delete,
            Phase::CreatingDirs => c is CreateDir,
            Phase::Transferring => c is Transfer,
        },
{
    let plan = before.plan;
    let s = settled(plan, before.state());
    assert(c@ == phase_tasks(plan, s.phase)[s.next]);
}

/// A command that ended runs no longer. What went wrong with it comes last of all errors, and no error
/// is forgotten.
pub proof fn law_errors_are_kept(before: SyncRun, error: Option<String>, after: SyncRun)
    requires
        ends_one(before, error, after),
    ensures
        after.running == before.running - 1,
        after.errors@.len() == before.errors@.len() + if error is Some {
            1int
        } else {
            0int
        },
        forall|k: int|
            0 <= k < before.errors@.len() ==> (#[trigger] after.errors@[k])@ == before.errors@[k]@,
        error matches Some(e) ==> after.errors@.last()@ == e@,
{
    let (x, y) = (texts(before.errors@), texts(after.errors@));
    assert(x.len() == before.errors@.len() && y.len() == after.errors@.len());
    assert forall|k: int| 0 <= k < before.errors@.len() implies (#[trigger] after.errors@[k])@
        == before.errors@[k]@ by {
        assert(y[k] == x[k]);
        assert(x[k] == before.errors@[k]@);
    }
    if error is Some {
        assert(y[y.len() - 1] == error->0@);
    }
}

/// A run without errors succeeded, and no other one. The number of errors is told.
pub proof fn law_outcome_tells_the_number_of_errors(run: SyncRun, r: Result<(), String>)
    requires
        is_outcome(run, r),
    ensures
        r is Ok <==> run.errors@.len() == 0,
        r matches Err(e) ==> exists|digits: Seq<char>|
            {
                &&& #[trigger] encloses(e@, digits, " error(s) occurred."@, seq![])
                &&& is_numeral(digits)
                &&& numeral(digits) == run.errors@.len()
            },
{
    if let Err(e) = r {
        let digits = decimal(run.errors@.len());
        law_decimal_denotes(run.errors@.len());
        lemma_encloses(digits, " error(s) occurred."@, seq![]);
        assert(digits + " error(s) occurred."@ + seq![] =~= e@);
        assert(encloses(e@, digits, " error(s) occurred."@, seq![]));
    }
}

/// What is told of the errors are their number and each of them, in order, on a line of its own.
pub proof fn law_report_tells_all_errors(
    errors: Seq<Seq<char>>,
    more: Seq<Seq<char>>,
    e: Seq<char>,
)
    ensures
        exists|digits: Seq<char>|
            {
                &&& #[trigger] encloses(
                    report_text(errors),
                    "Running... (encountered "@,
                    digits,
                    " error(s))\n"@ + error_lines(errors),
                )
                &&& is_numeral(digits)
                &&& numeral(digits) == errors.len()
            },
        error_lines(errors + more) == error_lines(errors) + error_lines(more),
        encloses(error_lines(seq![e]), "\n* "@, e, seq![]),
        error_lines(Seq::<Seq<char>>::empty()).len() == 0,
{
    let digits = decimal(errors.len());
    law_decimal_denotes(errors.len());
    lemma_encloses(
        "Running... (encountered "@,
        digits,
        " error(s))\n"@ + error_lines(errors),
    );
    assert("Running... (encountered "@ + digits + (" error(s))\n"@ + error_lines(errors))
        =~= report_text(errors));
    assert(encloses(
        report_text(errors),
        "Running... (encountered "@,
        digits,
        " error(s))\n"@ + error_lines(errors),
    ));
    lemma_error_lines_concat(errors, more);
    reveal_with_fuel(error_lines, 2);
    assert(seq![e].drop_last() =~= seq![]);
    lemma_encloses("\n* "@, e, seq![]);
    assert(error_lines(seq![e]) =~= "\n* "@ + e + seq![]);
}

proof fn lemma_error_lines_concat(s: Seq<Seq<char>>, t: Seq<Seq<char>>)
    ensures
        error_lines(s + t) == error_lines(s) + error_lines(t),
    decreases t.len(),
{
    if t.len() == 0 {
        assert(s + t =~= s);
        assert(error_lines(s) + error_lines(t) =~= error_lines(s));
    } else {
        assert((s + t).drop_last() =~= s + t.drop_last());
        lemma_error_lines_concat(s, t.drop_last());
        assert(error_lines(s + t) =~= error_lines(s) + error_lines(t));
    }
}

/// What is told of a failed command names its path and keeps the error.
pub proof fn law_failures_name_the_path(c: Command, p: String, e: Seq<char>)
    requires
        match c {
            Command::Delete { path, item: _ } => path == p,
            Command::CreateDir { path } => path == p,
            Command::Transfer { path, metadata: _ } => path == p,
        },
    ensures
        c is Delete ==> encloses(c.refused_text(e), "Failed to delete item at '"@, p@, "': "@ + e)
            && encloses(
            c.unsent_text(e),
            "Failed to send deletion request for item '"@,
            p@,
            "': "@ + e,
        ),
        c is CreateDir ==> encloses(
            c.refused_text(e),
            "Failed to create directory '"@,
            p@,
            "': "@ + e,
        ) && encloses(
            c.unsent_text(e),
            "Failed to send directory creation request '"@,
            p@,
            "': "@ + e,
        ),
        c is Transfer ==> encloses(
            c.refused_text(e),
            "Failed to transfer file '"@,
            p@,
            "': "@ + e,
        ) && encloses(
            c.unsent_text(e),
            "Failed to complete request for file '"@,
            p@,
            "': "@ + e,
        ),
        encloses(unopened_text(p@, e), "Failed to open file '"@, p@, "' for transfer: "@ + e),
{
    let end = "': "@ + e;
    let (refused, unsent) = match c {
        Command::Delete { path: _, item: _ } => (
            "Failed to delete item at '"@,
            "Failed to send deletion request for item '"@,
        ),
        Command::CreateDir { path: _ } => (
            "Failed to create directory '"@,
            "Failed to send directory creation request '"@,
        ),
        Command::Transfer { path: _, metadata: _ } => (
            "Failed to transfer file '"@,
            "Failed to complete request for file '"@,
        ),
    };
    lemma_encloses(refused, p@, end);
    lemma_encloses(unsent, p@, end);
    assert(refused + p@ + end =~= c.refused_text(e));
    assert(unsent + p@ + end =~= c.unsent_text(e));
    lemma_encloses("Failed to open file '"@, p@, "' for transfer: "@ + e);
    assert("Failed to open file '"@ + p@ + ("' for transfer: "@ + e) =~= unopened_text(p@, e));
}

/// A run that begins has started nothing, runs nothing, and has met no error.
pub proof fn law_fresh_run_is_untouched(run: SyncRun, plan: SyncPlan, max: usize)
    requires
        is_fresh(run, plan, max),
    ensures
        run.started().len() == 0,
        run.running == 0,
        run.errors@.len() == 0,
        run.plan == plan,
        run.max_parallel_transfers == max,
{
}

} // verus!

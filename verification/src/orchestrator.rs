//! The import orchestrator: which file is replayed next, when to wait, and
//! what is done once every file has been tried. It decides and counts; the
//! caller launches the client, waits for it and removes the directory, and
//! tells the orchestrator what has happened.

use crate::batches::batch_start;
use vstd::arithmetic::div_mod::lemma_fundamental_div_mod;
use vstd::prelude::*;

verus! {

/// What the caller is to do next.
#[derive(Clone, Copy, PartialEq, Eq, Structural, Debug)]
pub enum Action {
    /// Launch the client on the file with this number, counted from zero.
    Launch(usize),
    /// Wait until a client that runs has ended.
    Wait,
    /// Report that the import is complete.
    Report,
    /// Remove the directory that held the files.
    RemoveDirectory,
    /// Nothing is left to do.
    Stop,
}

/// What has happened since the orchestrator was last told.
#[derive(Clone, Copy, PartialEq, Eq, Structural, Debug)]
pub enum Event {
    /// The client was launched on the file that `Action::Launch` named.
    Launched,
    /// A client that ran has ended.
    JobFinished { succeeded: bool },
    /// The completion of the import was reported.
    Reported,
    /// The removal of the directory was tried.
    DirectoryRemoved { succeeded: bool },
}

impl Event {
    /// The same event, but that the client, if it is one that ended, ended
    /// in success or in failure as `succeeded` says.
    pub open spec fn with_success(self, succeeded: bool) -> Event {
        match self {
            Event::JobFinished { succeeded: _ } => Event::JobFinished { succeeded },
            _ => self,
        }
    }

    /// Whether the two events are the same, but for the success of a client.
    pub open spec fn same_but_success(self, other: Event) -> bool {
        self.with_success(true) == other.with_success(true)
    }
}

/// Whether the directory was removed.
#[derive(Clone, Copy, PartialEq, Eq, Structural, Debug)]
pub enum Removal {
    NotTried,
    Removed,
    Failed,
}

/// Why an import as a whole has failed.
#[derive(Clone, Copy, PartialEq, Eq, Structural, Debug)]
pub enum ImportError {
    /// The directory that held the files could not be removed.
    DirectoryNotRemoved,
}

/// The state of an import in numbers.
pub struct ImportState {
    /// The number of files to replay.
    pub total: nat,
    /// The greatest number of clients that may run at the same time.
    pub parallel: nat,
    /// The number of clients launched so far.
    pub launched: nat,
    /// The number of clients that have ended.
    pub finished: nat,
    /// The number of clients that have ended in failure.
    pub failed: nat,
    /// Whether the directory is to be removed at the end.
    pub delete: bool,
    /// Whether the completion of the import was reported.
    pub reported: bool,
    /// Whether the directory was removed.
    pub removal: Removal,
}

impl ImportState {
    /// The state before anything was launched.
    pub open spec fn initial(total: nat, parallel: nat, delete: bool) -> ImportState {
        ImportState {
            total,
            parallel,
            launched: 0,
            finished: 0,
            failed: 0,
            delete,
            reported: false,
            removal: Removal::NotTried,
        }
    }

    /// The number of the batch that the file numbered `job` belongs to.
    pub open spec fn batch_of(self, job: nat) -> nat {
        job / self.parallel
    }

    /// Where the batch of the file numbered `job` begins.
    pub open spec fn batch_start(self, job: nat) -> nat {
        batch_start(self.batch_of(job), self.parallel)
    }

    /// What holds of every state that an import goes through: no more
    /// clients have ended than were launched, and every client of a batch
    /// before that of the newest client has ended.
    pub open spec fn inv(self) -> bool {
        &&& self.parallel >= 1
        &&& self.failed <= self.finished <= self.launched <= self.total
        &&& self.launched > 0 ==> self.batch_start((self.launched - 1) as nat) <= self.finished
        &&& self.reported ==> self.finished == self.total
        &&& self.removal != Removal::NotTried ==> self.reported && self.delete
    }

    /// The number of clients that run.
    pub open spec fn outstanding(self) -> nat {
        (self.launched - self.finished) as nat
    }

    /// Whether the next file may be launched: there is one, and every client
    /// of an earlier batch has ended.
    pub open spec fn may_launch(self) -> bool {
        self.launched < self.total && self.batch_start(self.launched) <= self.finished
    }

    /// What the caller is to do next.
    pub open spec fn next_action(self) -> Action {
        if self.may_launch() {
            Action::Launch(self.launched as usize)
        } else if self.finished < self.launched {
            Action::Wait
        } else if !self.reported {
            Action::Report
        } else if self.delete && self.removal == Removal::NotTried {
            Action::RemoveDirectory
        } else {
            Action::Stop
        }
    }

    /// Whether the event can have happened in this state.
    pub open spec fn accepts(self, event: Event) -> bool {
        match event {
            Event::Launched => self.may_launch(),
            Event::JobFinished { succeeded } => self.finished < self.launched,
            Event::Reported => self.next_action() == Action::Report,
            Event::DirectoryRemoved { succeeded } => self.next_action() == Action::RemoveDirectory,
        }
    }

    /// The state after the event. An event that cannot have happened changes
    /// nothing.
    pub open spec fn after(self, event: Event) -> ImportState {
        if !self.accepts(event) {
            self
        } else {
            match event {
                Event::Launched => ImportState { launched: self.launched + 1, ..self },
                Event::JobFinished { succeeded } => ImportState {
                    finished: self.finished + 1,
                    failed: if succeeded {
                        self.failed
                    } else {
                        self.failed + 1
                    },
                    ..self
                },
                Event::Reported => ImportState { reported: true, ..self },
                Event::DirectoryRemoved { succeeded } => ImportState {
                    removal: if succeeded {
                        Removal::Removed
                    } else {
                        Removal::Failed
                    },
                    ..self
                },
            }
        }
    }

    /// The state after the events, in their order.
    pub open spec fn after_all(self, events: Seq<Event>) -> ImportState
        decreases events.len(),
    {
        if events.len() == 0 {
            self
        } else {
            self.after_all(events.drop_last()).after(events.last())
        }
    }

    /// Whether the two states differ in the count of failures at most.
    pub open spec fn same_but_failures(self, other: ImportState) -> bool {
        self == (ImportState { failed: self.failed, ..other })
    }

    /// How the import has ended: in failure if the directory could not be
    /// removed, and in no other case.
    pub open spec fn outcome(self) -> Result<(), ImportError> {
        if self.removal == Removal::Failed {
            Err(ImportError::DirectoryNotRemoved)
        } else {
            Ok(())
        }
    }

    /// The number of events that can still happen.
    pub open spec fn events_left(self) -> nat {
        ((self.total - self.launched) + (self.total - self.finished) + (if self.reported {
            0int
        } else {
            1int
        }) + (if self.delete && self.removal == Removal::NotTried {
            1int
        } else {
            0int
        })) as nat
    }
}

/// A batch begins at or before each of its files, and less than `parallel`
/// files before it.
pub proof fn lemma_batch_start_bounds(state: ImportState, job: nat)
    requires
        state.parallel >= 1,
    ensures
        state.batch_start(job) <= job < state.batch_start(job) + state.parallel,
{
    lemma_fundamental_div_mod(job as int, state.parallel as int);
    assert((job / state.parallel) * state.parallel == state.parallel * (job / state.parallel))
        by (nonlinear_arith);
}

/// The batch of a later file begins no earlier.
pub proof fn lemma_batch_start_monotonic(state: ImportState, job: nat, later: nat)
    requires
        state.parallel >= 1,
        job <= later,
    ensures
        state.batch_start(job) <= state.batch_start(later),
{
    lemma_fundamental_div_mod(job as int, state.parallel as int);
    lemma_fundamental_div_mod(later as int, state.parallel as int);
    let parallel = state.parallel;
    let first = job / parallel;
    let second = later / parallel;
    assert(first * parallel <= second * parallel) by (nonlinear_arith)
        requires
            parallel >= 1,
            job <= later,
            job == parallel * first + job % parallel,
            later == parallel * second + later % parallel,
            0 <= job % parallel < parallel,
            0 <= later % parallel < parallel,
    {
        if first > second {
            assert(parallel * first >= parallel * (second + 1));
        }
    }
}

/// An import begins in a state of which the invariant holds.
pub proof fn lemma_initial_inv(total: nat, parallel: nat, delete: bool)
    requires
        parallel >= 1,
    ensures
        ImportState::initial(total, parallel, delete).inv(),
{
}

/// No event leads out of the states of which the invariant holds.
pub proof fn lemma_after_inv(state: ImportState, event: Event)
    requires
        state.inv(),
    ensures
        state.after(event).inv(),
{
    if state.accepts(event) {
        match event {
            Event::Launched => {},
            Event::JobFinished { succeeded } => {},
            Event::Reported => {
                lemma_batch_start_bounds(state, state.launched);
            },
            Event::DirectoryRemoved { succeeded } => {},
        }
    }
}

/// At no time do more than `parallel` clients run, and a file is launched
/// only while fewer run. With `parallel` at one, the files are replayed one
/// at a time.
pub proof fn lemma_bounded_concurrency(state: ImportState)
    requires
        state.inv(),
    ensures
        state.outstanding() <= state.parallel,
        state.may_launch() ==> state.outstanding() < state.parallel,
        state.parallel == 1 ==> state.outstanding() <= 1 && (state.may_launch()
            ==> state.outstanding() == 0),
{
    if state.launched > 0 {
        lemma_batch_start_bounds(state, (state.launched - 1) as nat);
    }
    lemma_batch_start_bounds(state, state.launched);
}

/// Every file that was launched and is not yet counted among those that
/// have ended belongs to one batch, of which no earlier batch has a client
/// left; and the next file is launched into that same batch.
pub proof fn lemma_batch_barrier(state: ImportState, job: nat)
    requires
        state.inv(),
        state.finished <= job < state.launched,
    ensures
        state.batch_start(job) <= state.finished,
        state.may_launch() ==> state.batch_start(job) == state.batch_start(state.launched),
{
    lemma_batch_start_monotonic(state, job, (state.launched - 1) as nat);
    lemma_batch_start_monotonic(state, state.finished, job);
    lemma_batch_start_monotonic(state, job, state.launched);
    lemma_batch_start_bounds(state, state.finished);
    lemma_batch_start_bounds(state, job);
    lemma_batch_start_bounds(state, state.launched);
    let parallel = state.parallel;
    if state.may_launch() {
        let low = job / parallel;
        let high = state.launched / parallel;
        assert(low * parallel == high * parallel) by (nonlinear_arith)
            requires
                parallel >= 1,
                low * parallel <= high * parallel,
                high * parallel <= state.finished,
                state.finished <= job,
                job < low * parallel + parallel,
        {
            if low < high {
                assert((low + 1) * parallel <= high * parallel);
            }
        }
    }
}

/// Whether a client succeeded or failed changes nothing but the count of
/// failures, and no decision reads that count: what is done after a failure
/// is what is done after a success.
pub proof fn lemma_failure_is_not_fatal(state: ImportState)
    ensures
        state.after(Event::JobFinished { succeeded: false }).same_but_failures(
            state.after(Event::JobFinished { succeeded: true }),
        ),
        state.after(Event::JobFinished { succeeded: false }).next_action() == state.after(
            Event::JobFinished { succeeded: true },
        ).next_action(),
{
}

/// States that differ in the count of failures alone call for the same
/// action and accept the same events.
pub proof fn lemma_failures_are_not_read(state: ImportState, other: ImportState, event: Event)
    requires
        state.same_but_failures(other),
    ensures
        state.next_action() == other.next_action(),
        state.accepts(event) == other.accepts(event),
        state.after(event).same_but_failures(other.after(event.with_success(true))),
        state.after(event).same_but_failures(other.after(event.with_success(false))),
        state.outcome() == other.outcome(),
{
}

/// However the clients end, the same files are launched at the same
/// points: two runs in which the same things happen, but for the success
/// of the clients, lead to states that differ in the count of failures
/// alone. A failure keeps no file, of its own batch or of a later one, from
/// being tried.
pub proof fn lemma_failures_change_no_decision(
    state: ImportState,
    events: Seq<Event>,
    others: Seq<Event>,
)
    requires
        events.len() == others.len(),
        forall|i: int|
            0 <= i < events.len() ==> (#[trigger] events[i]).same_but_success(others[i]),
    ensures
        state.after_all(events).same_but_failures(state.after_all(others)),
        state.after_all(events).next_action() == state.after_all(others).next_action(),
    decreases events.len(),
{
    if events.len() > 0 {
        let event = events.last();
        let other = others.last();
        assert(event.same_but_success(other));
        assert forall|i: int| 0 <= i < events.drop_last().len() implies (
        #[trigger] events.drop_last()[i]).same_but_success(others.drop_last()[i]) by {
            assert(events[i].same_but_success(others[i]));
        }
        lemma_failures_change_no_decision(state, events.drop_last(), others.drop_last());
        lemma_failures_are_not_read(
            state.after_all(events.drop_last()),
            state.after_all(others.drop_last()),
            event,
        );
    }
}

/// The import is reported as complete, the directory is removed and the
/// work stops only when every file has been tried and every client has
/// ended; and while a file is left or a client runs there is something to
/// launch or to wait for.
pub proof fn lemma_every_file_is_tried(state: ImportState)
    requires
        state.inv(),
    ensures
        state.next_action() == Action::Report || state.next_action() == Action::RemoveDirectory
            || state.next_action() == Action::Stop ==> state.launched == state.total
            && state.finished == state.total,
        state.next_action() == Action::Wait ==> state.outstanding() > 0,
        state.next_action() is Launch ==> state.next_action() == Action::Launch(
            state.launched as usize,
        ) && state.launched < state.total,
{
    lemma_batch_start_bounds(state, state.launched);
}

/// Every event that can happen brings the end nearer, and as long as the
/// work has not stopped an event can happen.
pub proof fn lemma_progress(state: ImportState, event: Event)
    requires
        state.inv(),
    ensures
        state.accepts(event) ==> state.after(event).events_left() < state.events_left(),
        state.next_action() != Action::Stop ==> exists|next: Event| state.accepts(next),
        state.next_action() == Action::Stop ==> state.events_left() == 0,
{
    lemma_batch_start_bounds(state, state.launched);
    match state.next_action() {
        Action::Launch(job) => {
            assert(state.accepts(Event::Launched));
        },
        Action::Wait => {
            assert(state.accepts(Event::JobFinished { succeeded: true }));
        },
        Action::Report => {
            assert(state.accepts(Event::Reported));
        },
        Action::RemoveDirectory => {
            assert(state.accepts(Event::DirectoryRemoved { succeeded: true }));
        },
        Action::Stop => {},
    }
}

/// Once every file has been tried and the completion was reported, the
/// directory is removed if that was asked for, whatever became of the
/// clients; and the import has failed exactly if the removal did.
pub proof fn lemma_removal(state: ImportState)
    requires
        state.inv(),
    ensures
        state.next_action() == Action::RemoveDirectory <==> state.delete && state.reported
            && state.removal == Removal::NotTried,
        state.after(Event::DirectoryRemoved { succeeded: false }).outcome() is Err
            <==> state.next_action() == Action::RemoveDirectory || state.outcome() is Err,
        state.after(Event::DirectoryRemoved { succeeded: true }).outcome() == state.outcome(),
{
    lemma_batch_start_bounds(state, state.launched);
}

/// The orchestrator of one import.
pub struct Orchestrator {
    total: usize,
    parallel: usize,
    launched: usize,
    finished: usize,
    failed: usize,
    delete: bool,
    reported: bool,
    removal: Removal,
}

impl View for Orchestrator {
    type V = ImportState;

    closed spec fn view(&self) -> ImportState {
        ImportState {
            total: self.total as nat,
            parallel: self.parallel as nat,
            launched: self.launched as nat,
            finished: self.finished as nat,
            failed: self.failed as nat,
            delete: self.delete,
            reported: self.reported,
            removal: self.removal,
        }
    }
}

impl Orchestrator {
    #[verifier::type_invariant]
    spec fn consistent(self) -> bool {
        self@.inv()
    }

    /// The orchestrator of the import of `total` files, of which up to
    /// `parallel` are replayed at the same time.
    pub fn new(total: usize, parallel: usize, delete: bool) -> (orchestrator: Orchestrator)
        requires
            parallel >= 1,
        ensures
            orchestrator@ == ImportState::initial(total as nat, parallel as nat, delete),
            orchestrator@.inv(),
    {
        Orchestrator {
            total,
            parallel,
            launched: 0,
            finished: 0,
            failed: 0,
            delete,
            reported: false,
            removal: Removal::NotTried,
        }
    }

    /// Whether the next file may be launched.
    fn may_launch(&self) -> (may: bool)
        ensures
            may == self@.may_launch(),
            self@.inv(),
    {
        proof {
            use_type_invariant(self);
            lemma_batch_start_bounds(self@, self.launched as nat);
        }
        self.launched < self.total && (self.launched / self.parallel) * self.parallel
            <= self.finished
    }

    /// What the caller is to do next.
    pub fn next_action(&self) -> (action: Action)
        ensures
            action == self@.next_action(),
            self@.inv(),
    {
        let removal_pending = match self.removal {
            Removal::NotTried => true,
            _ => false,
        };
        if self.may_launch() {
            Action::Launch(self.launched)
        } else if self.finished < self.launched {
            Action::Wait
        } else if !self.reported {
            Action::Report
        } else if self.delete && removal_pending {
            Action::RemoveDirectory
        } else {
            Action::Stop
        }
    }

    /// Takes note of what has happened. An event that cannot have happened
    /// is refused, and changes nothing.
    pub fn record(&mut self, event: Event) -> (accepted: bool)
        ensures
            accepted == old(self)@.accepts(event),
            final(self)@ == old(self)@.after(event),
            final(self)@.inv(),
    {
        proof {
            use_type_invariant(&*self);
            lemma_after_inv(self@, event);
        }
        let action = self.next_action();
        match event {
            Event::Launched => {
                if self.may_launch() {
                    self.launched = self.launched + 1;
                    true
                } else {
                    false
                }
            },
            Event::JobFinished { succeeded } => {
                if self.finished < self.launched {
                    let failed = if succeeded {
                        self.failed
                    } else {
                        self.failed + 1
                    };
                    *self = Orchestrator { finished: self.finished + 1, failed, ..*self };
                    true
                } else {
                    false
                }
            },
            Event::Reported => {
                match action {
                    Action::Report => {
                        self.reported = true;
                        true
                    },
                    _ => false,
                }
            },
            Event::DirectoryRemoved { succeeded } => {
                match action {
                    Action::RemoveDirectory => {
                        self.removal = if succeeded {
                            Removal::Removed
                        } else {
                            Removal::Failed
                        };
                        true
                    },
                    _ => false,
                }
            },
        }
    }

    /// The number of clients that run.
    pub fn outstanding(&self) -> (running: usize)
        ensures
            running == self@.outstanding(),
            running <= self@.parallel,
    {
        proof {
            use_type_invariant(self);
            lemma_bounded_concurrency(self@);
        }
        self.launched - self.finished
    }

    /// The number of clients that have ended in failure.
    pub fn failures(&self) -> (failed: usize)
        ensures
            failed == self@.failed,
    {
        self.failed
    }

    /// How the import has ended.
    pub fn outcome(&self) -> (outcome: Result<(), ImportError>)
        ensures
            outcome == self@.outcome(),
    {
        match self.removal {
            Removal::Failed => Err(ImportError::DirectoryNotRemoved),
            _ => Ok(()),
        }
    }
}

} // verus!

//! Cooperative scheduling of tasks.
//!
//! Futures, clocks and the wake flag live outside. This module decides which
//! task is polled next, what becomes of it, and when a tick is over.

use crate::error::{copy_error, ErrorView, WieError};
use crate::id_map::{IdMap, IdValues};
use crate::time::Instant;
use vstd::prelude::*;

verus! {

/// The host milliseconds after which a tick gives control back.
pub const TICK_BUDGET: u64 = 8;

/// A slot whose future rests in it.
const RESTING: u64 = 1;

/// A slot whose future was taken out to be polled.
const TAKEN: u64 = 0;

/// The state of an executor.
pub struct ExecutorInner {
    /// The tasks that are being polled. The last is the current one; those
    /// before it wait for a nested tick, or are polled by another one.
    polling: Vec<usize>,
    /// For each task, whether its future rests in its slot.
    tasks: IdMap,
    /// For each sleeping task, when it wakes.
    sleeping_tasks: IdMap,
    /// Storage for the numbers of a step's tasks, between steps.
    task_ids: Vec<usize>,
    last_task_id: usize,
    last_now: u64,
    stopped: bool,
}

/// The meaning of an [`ExecutorInner`].
#[verifier::ext_equal]
pub struct Schedule {
    /// The tasks that are being polled, the current one last.
    pub polling: Seq<usize>,
    /// All tasks.
    pub tasks: Set<usize>,
    /// The tasks whose future rests in its slot.
    pub resting: Set<usize>,
    /// When the sleeping tasks wake.
    pub sleeping: IdValues,
    pub last_task_id: usize,
    pub last_now: u64,
    pub stopped: bool,
}

impl Schedule {
    /// Every sleeping or polled task exists; a task that is not being polled
    /// rests; task numbers were given out; a stopped executor has no task.
    pub open spec fn wf(self) -> bool {
        &&& self.sleeping.dom().subset_of(self.tasks)
        &&& self.resting.subset_of(self.tasks)
        &&& forall|id: usize| #[trigger] self.tasks.contains(id) ==> 1 <= id <= self.last_task_id
        &&& self.polling.no_duplicates()
        &&& !self.stopped ==> forall|id: usize| #[trigger]
            self.tasks.contains(id) ==> self.resting.contains(id) != self.polling.contains(id)
        &&& !self.stopped ==> forall|i: int|
            0 <= i < self.polling.len() ==> self.tasks.contains(#[trigger] self.polling[i])
        &&& self.stopped ==> self.tasks == Set::<usize>::empty()
    }

    /// Whether a task may run at `now`.
    pub open spec fn is_ready(self, id: usize, now: u64) -> bool {
        self.tasks.contains(id) && !(self.sleeping.dom().contains(id) && self.sleeping[id] > now)
    }

    /// Whether there are tasks and all of them sleep beyond `now`.
    pub open spec fn all_asleep(self, now: u64) -> bool {
        &&& exists|id: usize| #[trigger] self.tasks.contains(id)
        &&& forall|id: usize| #[trigger] self.tasks.contains(id) ==> !self.is_ready(id, now)
    }

    /// Whether a task may run at `now`.
    pub open spec fn any_ready(self, now: u64) -> bool {
        exists|id: usize| #[trigger] self.tasks.contains(id) && self.is_ready(id, now)
    }

    /// With a new task.
    pub open spec fn spawned(self) -> Schedule {
        let id = (self.last_task_id + 1) as usize;
        Schedule {
            tasks: self.tasks.insert(id),
            resting: self.resting.insert(id),
            last_task_id: id,
            ..self
        }
    }

    /// With the current task asleep for `timeout`.
    pub open spec fn asleep(self, timeout: u64) -> Schedule {
        Schedule {
            sleeping: self.sleeping.insert(self.polling.last(), (self.last_now + timeout) as u64),
            ..self
        }
    }

    /// Without tasks, and for good.
    pub open spec fn shut_down(self) -> Schedule {
        Schedule {
            tasks: Set::empty(),
            resting: Set::empty(),
            sleeping: IdValues::empty(),
            stopped: true,
            ..self
        }
    }

    /// With a task that was asleep awake.
    pub open spec fn awake(self, id: usize) -> Schedule {
        Schedule { sleeping: self.sleeping.remove(id), ..self }
    }

    /// With a task taken out to be polled.
    pub open spec fn taken(self, id: usize) -> Schedule {
        Schedule { resting: self.resting.remove(id), polling: self.polling.push(id), ..self }
    }

    /// After a task was polled. It rests again if it is pending and the executor
    /// still runs; otherwise it is gone.
    pub open spec fn settled(self, id: usize, pending: bool) -> Schedule {
        let polling = self.polling.remove(self.polling.index_of(id));
        if pending && !self.stopped {
            Schedule { resting: self.resting.insert(id), polling, ..self }
        } else {
            Schedule {
                tasks: self.tasks.remove(id),
                resting: self.resting.remove(id),
                sleeping: self.sleeping.remove(id),
                polling,
                ..self
            }
        }
    }

    /// Whether a task has its turn in a step at `now`: its future rests in its
    /// slot, and it does not sleep longer.
    pub open spec fn has_turn(self, id: usize, now: u64) -> bool {
        self.resting.contains(id) && !(self.sleeping.dom().contains(id) && self.sleeping[id] > now)
    }
}

impl ExecutorInner {
    /// The meaning of the state.
    pub closed spec fn schedule(&self) -> Schedule {
        Schedule {
            polling: self.polling@,
            tasks: self.tasks@.dom(),
            resting: Set::new(
                |id: usize| self.tasks@.dom().contains(id) && self.tasks@[id] == RESTING,
            ),
            sleeping: self.sleeping_tasks@,
            last_task_id: self.last_task_id,
            last_now: self.last_now,
            stopped: self.stopped,
        }
    }

    /// An executor without tasks.
    pub fn new() -> (inner: ExecutorInner)
        ensures
            inner.schedule().wf(),
            inner.schedule() == (Schedule {
                polling: Seq::empty(),
                tasks: Set::empty(),
                resting: Set::empty(),
                sleeping: IdValues::empty(),
                last_task_id: 0,
                last_now: 0,
                stopped: false,
            }),
    {
        let inner = ExecutorInner {
            polling: Vec::new(),
            tasks: IdMap::new(),
            sleeping_tasks: IdMap::new(),
            task_ids: Vec::new(),
            last_task_id: 0,
            last_now: 0,
            stopped: false,
        };
        assert(inner.schedule().resting =~= Set::empty());
        assert(inner.schedule().tasks =~= Set::empty());
        inner
    }

    /// Adds a task and gives its number, which no task had before. The executor
    /// is to be woken then. A stopped executor takes no task and gives zero.
    pub fn spawn(&mut self) -> (id: usize)
        requires
            old(self).schedule().wf(),
            old(self).schedule().stopped || old(self).schedule().last_task_id < usize::MAX,
        ensures
            final(self).schedule().wf(),
            old(self).schedule().stopped ==> {
                &&& id == 0
                &&& final(self).schedule() == old(self).schedule()
            },
            !old(self).schedule().stopped ==> {
                &&& id == old(self).schedule().last_task_id + 1
                &&& final(self).schedule() == old(self).schedule().spawned()
            },
    {
        if self.stopped {
            return 0;
        }
        let ghost before = self.schedule();
        self.last_task_id = self.last_task_id + 1;
        let id: usize = self.last_task_id;
        self.tasks.insert(id, RESTING);
        proof {
            let after = self.schedule();
            assert(after.tasks =~= before.spawned().tasks);
            assert(after.resting =~= before.spawned().resting);
            assert(!before.tasks.contains(id));
            assert(!before.polling.contains(id)) by {
                if before.polling.contains(id) {
                    let i = choose|i: int| 0 <= i < before.polling.len() && before.polling[i] == id;
                    assert(before.tasks.contains(before.polling[i]));
                }
            }
            assert(after =~= before.spawned());
        }
        id
    }

    /// Lets the current task sleep. Says whether the executor is to be woken:
    /// not once it was stopped.
    pub fn sleep(&mut self, timeout: u64) -> (wake: bool)
        requires
            old(self).schedule().wf(),
            old(self).schedule().stopped || old(self).schedule().polling.len() > 0,
            old(self).schedule().stopped || old(self).schedule().last_now + timeout <= u64::MAX,
        ensures
            final(self).schedule().wf(),
            wake == !old(self).schedule().stopped,
            final(self).schedule() == (if old(self).schedule().stopped {
                old(self).schedule()
            } else {
                old(self).schedule().asleep(timeout)
            }),
    {
        if self.stopped {
            return false;
        }
        let ghost before = self.schedule();
        let id: usize = self.polling[self.polling.len() - 1];
        self.sleeping_tasks.insert(id, self.last_now + timeout);
        proof {
            assert(before.tasks.contains(before.polling[before.polling.len() - 1]));
            assert(self.schedule() =~= before.asleep(timeout));
        }
        true
    }

    /// Drops all tasks, for good. Their futures are to be dropped outside.
    pub fn shutdown(&mut self)
        requires
            old(self).schedule().wf(),
        ensures
            final(self).schedule().wf(),
            final(self).schedule() == old(self).schedule().shut_down(),
    {
        let ghost before = self.schedule();
        self.stopped = true;
        self.sleeping_tasks.clear();
        self.tasks.clear();
        assert(self.schedule().tasks =~= Set::empty());
        assert(self.schedule().resting =~= Set::empty());
        assert(self.schedule() =~= before.shut_down());
    }

    /// The number of the current task.
    pub fn current_task_id(&self) -> (id: u64)
        requires
            self.schedule().polling.len() > 0,
        ensures
            id == self.schedule().polling.last(),
    {
        self.polling[self.polling.len() - 1] as u64
    }

    /// Whether the executor was stopped.
    pub fn is_stopped(&self) -> (stopped: bool)
        ensures
            stopped == self.schedule().stopped,
    {
        self.stopped
    }

    /// Whether a task can be added: the executor was stopped, which refuses it, or
    /// has a number left for it.
    pub fn may_spawn(&self) -> (may: bool)
        ensures
            may == (self.schedule().stopped || self.schedule().last_task_id < usize::MAX),
    {
        self.stopped || self.last_task_id < usize::MAX
    }

    /// Whether the current task can sleep: the executor was stopped, which makes
    /// it nothing, or there is such a task and its time to wake can be told.
    pub fn may_sleep(&self, timeout: u64) -> (may: bool)
        ensures
            may == (self.schedule().stopped || self.schedule().polling.len() > 0
                && self.schedule().last_now + timeout <= u64::MAX),
    {
        self.stopped || self.polling.len() > 0 && timeout <= u64::MAX - self.last_now
    }

    /// Whether a task is being polled.
    pub fn is_polling(&self) -> (polling: bool)
        ensures
            polling == (self.schedule().polling.len() > 0),
    {
        self.polling.len() > 0
    }

    /// The numbers of all tasks, in no particular order.
    pub fn task_ids(&self) -> (ids: Vec<usize>)
        ensures
            ids@.no_duplicates(),
            ids@.to_set() == self.schedule().tasks,
    {
        let mut ids: Vec<usize> = Vec::new();
        self.tasks.keys_into(&mut ids);
        ids
    }

    /// The number of tasks that there is room for without more storage.
    pub fn task_capacity(&self) -> (capacity: usize)
        ensures
            capacity >= self.schedule().tasks.len(),
    {
        self.tasks.capacity()
    }

    /// The storage that the next step keeps its tasks in.
    pub fn task_storage(&self) -> (storage: &Vec<usize>)
        ensures
            *storage == self.storage(),
    {
        &self.task_ids
    }

    /// The storage that the next step keeps its tasks in.
    pub closed spec fn storage(&self) -> Vec<usize> {
        self.task_ids
    }

    /// Whether a task may run at `now`.
    fn ready(&self, id: usize, now: u64) -> (ready: bool)
        requires
            self.schedule().tasks.contains(id),
        ensures
            ready == self.schedule().is_ready(id, now),
    {
        match self.sleeping_tasks.get(id) {
            Some(until) => until <= now,
            None => true,
        }
    }

    /// Whether some task may run at `now`.
    fn any_ready(&self, now: u64) -> (found: bool)
        ensures
            found == self.schedule().any_ready(now),
    {
        let ids = self.task_ids();
        let mut i: usize = 0;
        while i < ids.len()
            invariant
                i <= ids.len(),
                ids@.to_set() == self.schedule().tasks,
                forall|k: int| 0 <= k < i ==> !self.schedule().is_ready(#[trigger] ids@[k], now),
            decreases ids.len() - i,
        {
            assert(ids@.contains(ids@[i as int]));
            assert(ids@.to_set().contains(ids@[i as int]));
            if self.ready(ids[i], now) {
                assert(self.schedule().tasks.contains(ids@[i as int]));
                return true;
            }
            i += 1;
        }
        proof {
            assert forall|id: usize| #[trigger]
                self.schedule().tasks.contains(id) implies !self.schedule().is_ready(id, now) by {
                assert(ids@.to_set().contains(id));
                let k = choose|k: int| 0 <= k < ids@.len() && ids@[k] == id;
                assert(!self.schedule().is_ready(ids@[k], now));
            }
        }
        false
    }

    /// Whether there are tasks and all of them sleep beyond `now`.
    fn all_asleep(&self, now: u64) -> (asleep: bool)
        ensures
            asleep == self.schedule().all_asleep(now),
    {
        let ids = self.task_ids();
        if ids.len() == 0 {
            proof {
                if exists|id: usize| #[trigger] self.schedule().tasks.contains(id) {
                    let id = choose|id: usize| #[trigger] self.schedule().tasks.contains(id);
                    assert(ids@.to_set().contains(id));
                }
            }
            return false;
        }
        proof {
            assert(ids@.contains(ids@[0]));
            assert(ids@.to_set().contains(ids@[0]));
            assert(self.schedule().tasks.contains(ids@[0]));
        }
        !self.any_ready(now)
    }
}

/// What a tick waits for.
#[derive(Clone, Copy, PartialEq, Eq, Structural)]
pub enum TickPhase {
    /// To begin.
    Start,
    /// For the budget clock at the beginning.
    Started,
    /// For the budget clock before a step.
    Budget,
    /// For the clock, once the budget is used up.
    LastClock,
    /// For the wake flag, once the budget is used up.
    LastWake,
    /// For the clock before a step.
    Clock,
    /// For the wake flag to be cleared before a step.
    Clear,
    /// For a task to be polled.
    Poll,
    /// For a polled task to be put back or dropped.
    Settle,
    /// For the wake flag after a step.
    Wake,
    /// For nothing: the tick is over.
    Over,
}

/// What a tick asks for.
pub enum TickAction {
    /// Read the host's budget clock.
    ReadBudget,
    /// Read the guest's clock.
    ReadClock,
    /// Read the wake flag.
    ReadWake,
    /// Clear the wake flag.
    ClearWake,
    /// Poll the task of the number.
    Poll(usize),
    /// Put the future of the task back.
    Keep(usize),
    /// Drop the future of the task, with no lock held.
    Release(usize),
    /// The tick is over. `true` asks for another tick at once.
    Finish(Result<bool, WieError>),
}

/// The answer to a [`TickAction`].
pub enum TickEvent {
    /// What was asked for was done.
    Done,
    /// The budget clock, in milliseconds.
    Budget(u64),
    /// The guest's clock.
    Clock(Instant),
    /// The wake flag.
    Woken(bool),
    /// The task is pending.
    Pending,
    /// The task is complete.
    Ready,
    /// The task failed.
    Failed(WieError),
}

/// The meaning of a [`TickAction`].
pub enum TickActionView {
    ReadBudget,
    ReadClock,
    ReadWake,
    ClearWake,
    Poll(usize),
    Keep(usize),
    Release(usize),
    Finish(Result<bool, ErrorView>),
}

impl View for TickAction {
    type V = TickActionView;

    open spec fn view(&self) -> TickActionView {
        match self {
            TickAction::ReadBudget => TickActionView::ReadBudget,
            TickAction::ReadClock => TickActionView::ReadClock,
            TickAction::ReadWake => TickActionView::ReadWake,
            TickAction::ClearWake => TickActionView::ClearWake,
            TickAction::Poll(id) => TickActionView::Poll(*id),
            TickAction::Keep(id) => TickActionView::Keep(*id),
            TickAction::Release(id) => TickActionView::Release(*id),
            TickAction::Finish(Ok(again)) => TickActionView::Finish(Ok(*again)),
            TickAction::Finish(Err(error)) => TickActionView::Finish(Err(error@)),
        }
    }
}

/// A tick on its way.
pub struct Tick {
    phase: TickPhase,
    started: u64,
    now: u64,
    ids: Vec<usize>,
    index: usize,
    error: Option<WieError>,
}

/// The meaning of a [`Tick`].
#[verifier::ext_equal]
pub struct TickState {
    pub phase: TickPhase,
    /// The budget clock at the beginning.
    pub started: u64,
    /// The guest's clock at the current step.
    pub now: u64,
    /// The tasks of the current step.
    pub ids: Seq<usize>,
    /// How many of them had their turn.
    pub index: int,
    /// The first failure of the current step.
    pub error: Option<ErrorView>,
}

impl TickState {
    /// The tasks of a step are different from each other.
    pub open spec fn wf(self) -> bool {
        0 <= self.index <= self.ids.len() && self.ids.no_duplicates()
    }
}

/// A schedule, a tick and what it asks for.
#[verifier::ext_equal]
pub struct Turn {
    pub schedule: Schedule,
    pub tick: TickState,
    pub action: TickActionView,
}

/// What an answer may be in a phase, and with it the schedule: a polled task is
/// one of those that are being polled.
pub open spec fn tick_event_fits(schedule: Schedule, tick: TickState, event: TickEvent) -> bool {
    match event {
        TickEvent::Done => tick.phase == TickPhase::Start || tick.phase == TickPhase::Clear
            || tick.phase == TickPhase::Settle,
        TickEvent::Budget(_) => tick.phase == TickPhase::Started || tick.phase == TickPhase::Budget,
        TickEvent::Clock(_) => tick.phase == TickPhase::LastClock || tick.phase == TickPhase::Clock,
        TickEvent::Woken(_) => tick.phase == TickPhase::LastWake || tick.phase == TickPhase::Wake,
        _ => {
            &&& tick.phase == TickPhase::Poll
            &&& tick.index > 0
            &&& schedule.polling.contains(tick.ids[tick.index - 1])
        },
    }
}

/// The end of a step: its first failure ends the tick, otherwise the wake flag
/// decides.
pub open spec fn step_over(schedule: Schedule, tick: TickState) -> Turn {
    let done = TickState { ids: Seq::empty(), index: 0, ..tick };
    match tick.error {
        Some(error) => Turn {
            schedule,
            tick: TickState { phase: TickPhase::Over, ..done },
            action: TickActionView::Finish(Err(error)),
        },
        None => Turn {
            schedule,
            tick: TickState { phase: TickPhase::Wake, ..done },
            action: TickActionView::ReadWake,
        },
    }
}

/// The next task of a step that may run, from the current index on. Tasks that
/// sleep longer are passed over, and so are those without a future at rest.
pub open spec fn next_task(schedule: Schedule, tick: TickState) -> Turn
    decreases tick.ids.len() - tick.index,
{
    if schedule.stopped || tick.index < 0 || tick.index >= tick.ids.len() {
        step_over(schedule, tick)
    } else {
        let id = tick.ids[tick.index];
        let later = TickState { index: tick.index + 1, ..tick };
        if schedule.sleeping.dom().contains(id) && schedule.sleeping[id] > tick.now {
            next_task(schedule, later)
        } else if schedule.resting.contains(id) {
            Turn {
                schedule: schedule.awake(id).taken(id),
                tick: TickState { phase: TickPhase::Poll, ..later },
                action: TickActionView::Poll(id),
            }
        } else {
            next_task(schedule.awake(id), later)
        }
    }
}

/// The next turn of a tick. `ids` is the order in which the tasks of a step have
/// their turn, where a step begins.
pub open spec fn next_turn(
    schedule: Schedule,
    tick: TickState,
    event: TickEvent,
    ids: Seq<usize>,
) -> Turn {
    let over = |schedule: Schedule, again: bool|
        Turn {
            schedule,
            tick: TickState { phase: TickPhase::Over, ..tick },
            action: TickActionView::Finish(Ok(again)),
        };
    let wait = |tick: TickState, phase: TickPhase, action: TickActionView|
        Turn { schedule, tick: TickState { phase, ..tick }, action };
    let polled = tick.ids[tick.index - 1];
    match event {
        TickEvent::Done => match tick.phase {
            TickPhase::Start => wait(tick, TickPhase::Started, TickActionView::ReadBudget),
            TickPhase::Clear => next_task(
                Schedule { last_now: tick.now, ..schedule },
                TickState { ids, index: 0, error: None, ..tick },
            ),
            _ => next_task(schedule, tick),
        },
        TickEvent::Budget(budget) => if tick.phase == TickPhase::Started {
            wait(
                TickState { started: budget, ..tick },
                TickPhase::Budget,
                TickActionView::ReadBudget,
            )
        } else if budget >= tick.started + TICK_BUDGET {
            wait(tick, TickPhase::LastClock, TickActionView::ReadClock)
        } else {
            wait(tick, TickPhase::Clock, TickActionView::ReadClock)
        },
        TickEvent::Clock(now) => if schedule.stopped {
            over(schedule, false)
        } else if tick.phase == TickPhase::LastClock {
            wait(
                TickState { now: now.at(), ..tick },
                TickPhase::LastWake,
                TickActionView::ReadWake,
            )
        } else if schedule.all_asleep(now.at()) {
            over(schedule, false)
        } else {
            wait(TickState { now: now.at(), ..tick }, TickPhase::Clear, TickActionView::ClearWake)
        },
        TickEvent::Woken(woken) => if tick.phase == TickPhase::LastWake {
            over(schedule, !schedule.stopped && woken && schedule.any_ready(tick.now))
        } else if woken {
            wait(tick, TickPhase::Budget, TickActionView::ReadBudget)
        } else {
            over(schedule, false)
        },
        TickEvent::Pending => Turn {
            schedule: schedule.settled(polled, true),
            tick: TickState { phase: TickPhase::Settle, ..tick },
            action: if schedule.stopped {
                TickActionView::Release(polled)
            } else {
                TickActionView::Keep(polled)
            },
        },
        TickEvent::Ready => Turn {
            schedule: schedule.settled(polled, false),
            tick: TickState { phase: TickPhase::Settle, ..tick },
            action: TickActionView::Release(polled),
        },
        TickEvent::Failed(error) => Turn {
            schedule: schedule.settled(polled, false),
            tick: TickState {
                phase: TickPhase::Settle,
                error: if tick.error is Some {
                    tick.error
                } else {
                    Some(error@)
                },
                ..tick
            },
            action: TickActionView::Release(polled),
        },
    }
}

/// Whether `ids` may be the order of a step's tasks: each task once.
pub open spec fn is_order(schedule: Schedule, ids: Seq<usize>) -> bool {
    ids.no_duplicates() && ids.to_set() == schedule.tasks
}

impl ExecutorInner {
    /// Takes a task out to be polled.
    fn take_task(&mut self, id: usize)
        requires
            old(self).schedule().wf(),
            !old(self).schedule().stopped,
            old(self).schedule().resting.contains(id),
        ensures
            final(self).schedule().wf(),
            final(self).schedule() == old(self).schedule().taken(id),
    {
        let ghost before = self.schedule();
        self.tasks.insert(id, TAKEN);
        self.polling.push(id);
        proof {
            let after = self.schedule();
            assert(after.tasks =~= before.tasks);
            assert(after.resting =~= before.resting.remove(id));
            assert(!before.polling.contains(id));
            assert(after.polling.no_duplicates()) by {
                assert forall|i: int, j: int|
                    0 <= i < after.polling.len() && 0 <= j < after.polling.len() && i
                        != j implies after.polling[i] != after.polling[j] by {
                    if i == before.polling.len() {
                        assert(before.polling.contains(before.polling[j]));
                    } else if j == before.polling.len() {
                        assert(before.polling.contains(before.polling[i]));
                    }
                }
            }
            assert forall|other: usize| #[trigger]
                after.tasks.contains(other) implies after.resting.contains(other)
                != after.polling.contains(other) by {
                assert(before.tasks.contains(other));
                if other == id {
                    assert(after.polling[after.polling.len() - 1] == id);
                } else {
                    if before.polling.contains(other) {
                        let i = choose|i: int|
                            0 <= i < before.polling.len() && before.polling[i] == other;
                        assert(after.polling[i] == other);
                    }
                    if after.polling.contains(other) {
                        let i = choose|i: int|
                            0 <= i < after.polling.len() && after.polling[i] == other;
                        assert(before.polling[i] == other);
                    }
                }
            }
            assert forall|i: int| 0 <= i < after.polling.len() implies after.tasks.contains(
                #[trigger] after.polling[i],
            ) by {
                if i < before.polling.len() {
                    assert(before.tasks.contains(before.polling[i]));
                }
            }
            assert(after =~= before.taken(id));
        }
    }

    /// Settles a task after it was polled. Says whether it rests again.
    fn settle_task(&mut self, id: usize, pending: bool) -> (kept: bool)
        requires
            old(self).schedule().wf(),
            old(self).schedule().polling.contains(id),
        ensures
            final(self).schedule().wf(),
            final(self).schedule() == old(self).schedule().settled(id, pending),
            kept == (pending && !old(self).schedule().stopped),
    {
        let ghost before = self.schedule();
        let ghost place = before.polling.index_of(id);
        let mut i: usize = self.polling.len() - 1;
        while self.polling[i] != id
            invariant
                i < self.polling@.len(),
                self.schedule() == before,
                before.polling == self.polling@,
                before.polling.contains(id),
                forall|k: int| i < k < self.polling@.len() ==> #[trigger] self.polling@[k] != id,
            decreases i,
        {
            proof {
                if i == 0 {
                    let k = choose|k: int| 0 <= k < before.polling.len() && before.polling[k] == id;
                    assert(self.polling@[k] != id);
                }
            }
            i -= 1;
        }
        assert(i == place);
        self.polling.remove(i);
        let kept: bool = pending && !self.stopped;
        if kept {
            assert(before.tasks.contains(before.polling[place]));
            self.tasks.insert(id, RESTING);
        } else {
            self.tasks.remove(id);
            self.sleeping_tasks.remove(id);
        }
        proof {
            let after = self.schedule();
            assert(after.polling =~= before.polling.remove(place));
            assert(after.tasks =~= before.settled(id, pending).tasks);
            assert(after.resting =~= before.settled(id, pending).resting);
            assert(after.sleeping =~= before.settled(id, pending).sleeping);
            assert(after =~= before.settled(id, pending));
            lemma_settled_wf(before, id, pending);
        }
        kept
    }
}

/// Settling a task keeps a schedule in order.
proof fn lemma_settled_wf(before: Schedule, id: usize, pending: bool)
    requires
        before.wf(),
        before.polling.contains(id),
    ensures
        before.settled(id, pending).wf(),
{
    let after = before.settled(id, pending);
    let place = before.polling.index_of(id);
    assert(before.polling[place] == id);
    assert(after.polling =~= before.polling.remove(place));
    assert forall|i: int| 0 <= i < after.polling.len() implies #[trigger] after.polling[i]
        == before.polling[if i < place {
        i
    } else {
        i + 1
    }] && after.polling[i] != id by {}
    assert(after.polling.no_duplicates());
    if after.stopped {
        assert(after.tasks =~= Set::empty());
    } else {
        assert(before.tasks.contains(before.polling[place]));
        assert forall|other: usize| #[trigger]
            after.tasks.contains(other) implies after.resting.contains(other)
            != after.polling.contains(other) by {
            assert(before.tasks.contains(other));
            if after.polling.contains(other) {
                let i = choose|i: int| 0 <= i < after.polling.len() && after.polling[i] == other;
                assert(after.polling[i] != id);
                assert(before.polling.contains(other));
            }
            if before.polling.contains(other) && other != id {
                let i = choose|i: int| 0 <= i < before.polling.len() && before.polling[i] == other;
                assert(after.polling[if i < place {
                    i
                } else {
                    i - 1
                }] == other);
            }
        }
        assert forall|i: int| 0 <= i < after.polling.len() implies after.tasks.contains(
            #[trigger] after.polling[i],
        ) by {
            assert(after.polling[i] != id);
            let k = if i < place {
                i
            } else {
                i + 1
            };
            assert(before.tasks.contains(before.polling[k]));
        }
    }
}

impl Tick {
    /// The meaning of the tick.
    pub closed spec fn state(&self) -> TickState {
        TickState {
            phase: self.phase,
            started: self.started,
            now: self.now,
            ids: self.ids@,
            index: self.index as int,
            error: match self.error {
                Some(error) => Some(error@),
                None => None,
            },
        }
    }

    /// A tick that has not begun: it knows no task, no time and no failure.
    pub fn new() -> (tick: Tick)
        ensures
            tick.state().wf(),
            tick.state() == (TickState {
                phase: TickPhase::Start,
                started: 0,
                now: 0,
                ids: Seq::empty(),
                index: 0,
                error: None,
            }),
    {
        let tick = Tick {
            phase: TickPhase::Start,
            started: 0,
            now: 0,
            ids: Vec::new(),
            index: 0,
            error: None,
        };
        assert(tick.state().ids =~= Seq::empty());
        tick
    }

    /// Goes on to the next task of the step that may run.
    fn advance(&mut self, inner: &mut ExecutorInner) -> (action: TickAction)
        requires
            old(inner).schedule().wf(),
            old(self).state().wf(),
        ensures
            final(inner).schedule().wf(),
            final(self).state().wf(),
            (Turn {
                schedule: final(inner).schedule(),
                tick: final(self).state(),
                action: action@,
            }) == next_task(old(inner).schedule(), old(self).state()),
    {
        let ghost target = next_task(inner.schedule(), self.state());
        while !inner.stopped && self.index < self.ids.len()
            invariant
                inner.schedule().wf(),
                self.state().wf(),
                target == next_task(inner.schedule(), self.state()),
                target == next_task(old(inner).schedule(), old(self).state()),
            decreases self.ids.len() - self.index,
        {
            let id: usize = self.ids[self.index];
            let ghost before = inner.schedule();
            let ghost was = self.state();
            self.index = self.index + 1;
            assert(self.state() =~= TickState { index: was.index + 1, ..was });
            let asleep: bool = match inner.sleeping_tasks.get(id) {
                Some(until) => until > self.now,
                None => false,
            };
            if asleep {
                continue;
            }
            inner.sleeping_tasks.remove(id);
            assert(inner.schedule() =~= before.awake(id));
            match inner.tasks.get(id) {
                Some(slot) => {
                    if slot == RESTING {
                        inner.take_task(id);
                        self.phase = TickPhase::Poll;
                        let action = TickAction::Poll(id);
                        assert(Turn {
                            schedule: inner.schedule(),
                            tick: self.state(),
                            action: action@,
                        } =~= target);
                        return action;
                    }
                },
                None => {},
            }
        }
        let ghost schedule = inner.schedule();
        let ghost was = self.state();
        self.ids.clear();
        self.index = 0;
        std::mem::swap(&mut self.ids, &mut inner.task_ids);
        self.ids = Vec::new();
        assert(inner.schedule() =~= schedule);
        assert(self.ids@ =~= Seq::empty());
        match self.error.take() {
            Some(error) => {
                let reported = copy_error(&error);
                self.error = Some(error);
                self.phase = TickPhase::Over;
                assert(self.state() =~= step_over(schedule, was).tick);
                TickAction::Finish(Err(reported))
            },
            None => {
                self.phase = TickPhase::Wake;
                assert(self.state() =~= step_over(schedule, was).tick);
                TickAction::ReadWake
            },
        }
    }

    /// The next thing to do, after the answer to the one before. The first call
    /// answers to nothing and takes [`TickEvent::Done`].
    pub fn step(&mut self, inner: &mut ExecutorInner, event: TickEvent) -> (action: TickAction)
        requires
            old(inner).schedule().wf(),
            old(self).state().wf(),
            tick_event_fits(old(inner).schedule(), old(self).state(), event),
        ensures
            final(inner).schedule().wf(),
            final(self).state().wf(),
            exists|ids: Seq<usize>|
                (Turn {
                    schedule: final(inner).schedule(),
                    tick: final(self).state(),
                    action: action@,
                }) == #[trigger] next_turn(old(inner).schedule(), old(self).state(), event, ids) && (
                old(self).state().phase == TickPhase::Clear ==> is_order(
                    old(inner).schedule(),
                    ids,
                )),
    {
        let ghost schedule = inner.schedule();
        let ghost tick = self.state();
        let ghost order = self.ids@;
        match event {
            TickEvent::Done => {
                match self.phase {
                    TickPhase::Start => {
                        self.phase = TickPhase::Started;
                        let action = TickAction::ReadBudget;
                        assert(Turn {
                            schedule: inner.schedule(),
                            tick: self.state(),
                            action: action@,
                        } =~= next_turn(schedule, tick, event, order));
                        action
                    },
                    TickPhase::Clear => {
                        inner.last_now = self.now;
                        std::mem::swap(&mut self.ids, &mut inner.task_ids);
                        self.ids.clear();
                        inner.tasks.keys_into(&mut self.ids);
                        self.index = 0;
                        self.error = None;
                        assert(inner.schedule() =~= Schedule { last_now: tick.now, ..schedule });
                        assert(self.state() =~= TickState {
                            ids: self.ids@,
                            index: 0,
                            error: None,
                            ..tick
                        });
                        let ghost ids = self.ids@;
                        assert(is_order(schedule, ids));
                        let action = self.advance(inner);
                        assert(Turn {
                            schedule: inner.schedule(),
                            tick: self.state(),
                            action: action@,
                        } =~= next_turn(schedule, tick, event, ids));
                        action
                    },
                    _ => {
                        let action = self.advance(inner);
                        assert(Turn {
                            schedule: inner.schedule(),
                            tick: self.state(),
                            action: action@,
                        } =~= next_turn(schedule, tick, event, order));
                        action
                    },
                }
            },
            TickEvent::Budget(budget) => {
                let action;
                if self.phase == TickPhase::Started {
                    self.started = budget;
                    self.phase = TickPhase::Budget;
                    action = TickAction::ReadBudget;
                } else {
                    if budget >= self.started && budget - self.started >= TICK_BUDGET {
                        self.phase = TickPhase::LastClock;
                    } else {
                        self.phase = TickPhase::Clock;
                    }
                    action = TickAction::ReadClock;
                }
                assert(Turn {
                    schedule: inner.schedule(),
                    tick: self.state(),
                    action: action@,
                } =~= next_turn(schedule, tick, event, order));
                action
            },
            TickEvent::Clock(now) => {
                let action;
                if inner.stopped {
                    self.phase = TickPhase::Over;
                    action = TickAction::Finish(Ok(false));
                } else if self.phase == TickPhase::LastClock {
                    self.now = now.raw();
                    self.phase = TickPhase::LastWake;
                    action = TickAction::ReadWake;
                } else if inner.all_asleep(now.raw()) {
                    self.phase = TickPhase::Over;
                    action = TickAction::Finish(Ok(false));
                } else {
                    self.now = now.raw();
                    self.phase = TickPhase::Clear;
                    action = TickAction::ClearWake;
                }
                assert(Turn {
                    schedule: inner.schedule(),
                    tick: self.state(),
                    action: action@,
                } =~= next_turn(schedule, tick, event, order));
                action
            },
            TickEvent::Woken(woken) => {
                let action;
                if self.phase == TickPhase::LastWake {
                    let again: bool = !inner.stopped && woken && inner.any_ready(self.now);
                    self.phase = TickPhase::Over;
                    action = TickAction::Finish(Ok(again));
                } else if woken {
                    self.phase = TickPhase::Budget;
                    action = TickAction::ReadBudget;
                } else {
                    self.phase = TickPhase::Over;
                    action = TickAction::Finish(Ok(false));
                }
                assert(Turn {
                    schedule: inner.schedule(),
                    tick: self.state(),
                    action: action@,
                } =~= next_turn(schedule, tick, event, order));
                action
            },
            TickEvent::Pending => {
                let id: usize = self.ids[self.index - 1];
                let kept: bool = inner.settle_task(id, true);
                self.phase = TickPhase::Settle;
                let action = if kept {
                    TickAction::Keep(id)
                } else {
                    TickAction::Release(id)
                };
                assert(Turn {
                    schedule: inner.schedule(),
                    tick: self.state(),
                    action: action@,
                } =~= next_turn(schedule, tick, TickEvent::Pending, order));
                action
            },
            TickEvent::Ready => {
                let id: usize = self.ids[self.index - 1];
                inner.settle_task(id, false);
                self.phase = TickPhase::Settle;
                let action = TickAction::Release(id);
                assert(Turn {
                    schedule: inner.schedule(),
                    tick: self.state(),
                    action: action@,
                } =~= next_turn(schedule, tick, TickEvent::Ready, order));
                action
            },
            TickEvent::Failed(error) => {
                let id: usize = self.ids[self.index - 1];
                let ghost failed = TickEvent::Failed(error);
                inner.settle_task(id, false);
                self.phase = TickPhase::Settle;
                if self.error.is_none() {
                    self.error = Some(error);
                }
                let action = TickAction::Release(id);
                assert(Turn {
                    schedule: inner.schedule(),
                    tick: self.state(),
                    action: action@,
                } =~= next_turn(schedule, tick, failed, order));
                action
            },
        }
    }
}

/// A task is polled only when it may run: it exists, its future rests in its
/// slot, and it does not sleep beyond the step's time. Each task has at most one
/// turn in a step, because the turn moves on and the tasks of a step differ.
pub proof fn law_only_ready_tasks_are_polled(schedule: Schedule, tick: TickState, id: usize)
    requires
        schedule.wf(),
        tick.wf(),
        next_task(schedule, tick).action == TickActionView::Poll(id),
    ensures
        !schedule.stopped,
        schedule.is_ready(id, tick.now),
        schedule.resting.contains(id),
        tick.index < next_task(schedule, tick).tick.index <= tick.ids.len(),
        tick.ids[next_task(schedule, tick).tick.index - 1] == id,
        next_task(schedule, tick).tick.ids == tick.ids,
    decreases tick.ids.len() - tick.index,
{
    if !schedule.stopped && tick.index < tick.ids.len() {
        let other = tick.ids[tick.index];
        let later = TickState { index: tick.index + 1, ..tick };
        if schedule.sleeping.dom().contains(other) && schedule.sleeping[other] > tick.now {
            law_only_ready_tasks_are_polled(schedule, later, id);
        } else if !schedule.resting.contains(other) {
            let awake = schedule.awake(other);
            assert(awake.wf()) by {
                assert forall|i: int|
                    !awake.stopped && 0 <= i < awake.polling.len() implies awake.tasks.contains(
                    #[trigger] awake.polling[i],
                ) by {
                    assert(schedule.tasks.contains(schedule.polling[i]));
                }
            }
            law_only_ready_tasks_are_polled(awake, later, id);
        }
    }
}

/// What a task does to the schedule while it is polled.
pub enum Deed {
    /// It adds a task, as long as there is a number for it.
    Spawn,
    /// It goes to sleep, as long as its time to wake can be told.
    Sleep(u64),
}

/// What a task does in its turn, and whether it is pending then.
pub struct Turned {
    pub deeds: Seq<Deed>,
    pub pending: bool,
}

impl Schedule {
    /// After the current task did something.
    pub open spec fn after_deed(self, deed: Deed) -> Schedule {
        match deed {
            Deed::Spawn => if self.last_task_id < usize::MAX {
                self.spawned()
            } else {
                self
            },
            Deed::Sleep(timeout) => if self.last_now + timeout <= u64::MAX {
                self.asleep(timeout)
            } else {
                self
            },
        }
    }

    /// After the current task did several things, in order.
    pub open spec fn after_deeds(self, deeds: Seq<Deed>) -> Schedule
        decreases deeds.len(),
    {
        if deeds.len() == 0 {
            self
        } else {
            self.after_deeds(deeds.drop_last()).after_deed(deeds.last())
        }
    }
}

/// The tasks that a step polls from the current index on, in order, where each
/// task adds tasks and sleeps as `turned` says before it answers. `turns` bounds
/// their number.
pub open spec fn polled_in_step(
    schedule: Schedule,
    tick: TickState,
    turned: spec_fn(usize) -> Turned,
    turns: nat,
) -> Seq<usize>
    decreases turns,
{
    let turn = next_task(schedule, tick);
    match turn.action {
        TickActionView::Poll(id) => if turns == 0 {
            Seq::empty()
        } else {
            seq![id] + polled_in_step(
                turn.schedule.after_deeds(turned(id).deeds).settled(id, turned(id).pending),
                turn.tick,
                turned,
                (turns - 1) as nat,
            )
        },
        _ => Seq::empty(),
    }
}

/// What the current task does touches no other task that there was: it may add new
/// ones and put itself to sleep.
proof fn lemma_deeds_touch_no_other(schedule: Schedule, deeds: Seq<Deed>)
    requires
        schedule.polling.len() > 0,
    ensures
        ({
            let after = schedule.after_deeds(deeds);
            &&& after.polling == schedule.polling
            &&& after.stopped == schedule.stopped
            &&& after.last_now == schedule.last_now
            &&& after.last_task_id >= schedule.last_task_id
            &&& forall|other: usize, now: u64|
                other <= schedule.last_task_id && other != schedule.polling.last()
                    ==> #[trigger] after.has_turn(other, now) == schedule.has_turn(other, now)
        }),
    decreases deeds.len(),
{
    if deeds.len() > 0 {
        lemma_deeds_touch_no_other(schedule, deeds.drop_last());
        let before = schedule.after_deeds(deeds.drop_last());
        let after = schedule.after_deeds(deeds);
        assert forall|other: usize, now: u64|
            other <= schedule.last_task_id && other
                != schedule.polling.last() implies #[trigger] after.has_turn(other, now)
            == schedule.has_turn(other, now) by {
            assert(before.has_turn(other, now) == schedule.has_turn(other, now));
        }
    }
}

/// A step polls every task whose future rests and whose time has come, each
/// once and in order, and no other, whatever tasks are added and whichever task
/// goes to sleep in its turn, and whatever the tasks answer.
pub proof fn law_every_ready_task_is_polled(
    schedule: Schedule,
    tick: TickState,
    turned: spec_fn(usize) -> Turned,
    turns: nat,
)
    requires
        tick.wf(),
        !schedule.stopped,
        forall|i: int| 0 <= i < tick.ids.len() ==> #[trigger] tick.ids[i] <= schedule.last_task_id,
        turns >= tick.ids.len() - tick.index,
    ensures
        polled_in_step(schedule, tick, turned, turns) == tick.ids.skip(tick.index).filter(
            |id: usize| schedule.has_turn(id, tick.now),
        ),
    decreases tick.ids.len() - tick.index,
{
    let runs = |id: usize| schedule.has_turn(id, tick.now);
    let left = tick.ids.skip(tick.index);
    reveal(Seq::filter);
    if tick.index < tick.ids.len() {
        let id = tick.ids[tick.index];
        let later = TickState { index: tick.index + 1, ..tick };
        let rest = tick.ids.skip(tick.index + 1);
        let one = seq![id];
        assert(left =~= one + rest);
        Seq::filter_distributes_over_add(one, rest, runs);
        assert(one.drop_last() =~= Seq::empty());
        assert(one.last() == id);
        assert(one.drop_last().filter(runs) =~= Seq::empty());
        assert(one.filter(runs) =~= if runs(id) {
            one
        } else {
            Seq::empty()
        });
        let begun = schedule.awake(id).taken(id);
        let (after, next, fewer) = if schedule.sleeping.dom().contains(id) && schedule.sleeping[id]
            > tick.now {
            (schedule, later, turns)
        } else if schedule.resting.contains(id) {
            (
                begun.after_deeds(turned(id).deeds).settled(id, turned(id).pending),
                TickState { phase: TickPhase::Poll, ..later },
                (turns - 1) as nat,
            )
        } else {
            (schedule.awake(id), later, turns)
        };
        lemma_deeds_touch_no_other(begun, turned(id).deeds);
        law_every_ready_task_is_polled(after, next, turned, fewer);
        let runs_after = |id: usize| after.has_turn(id, tick.now);
        assert forall|i: int| 0 <= i < rest.len() implies #[trigger] runs(rest[i]) == runs_after(
            rest[i],
        ) by {
            let other = rest[i];
            assert(other == tick.ids[tick.index + 1 + i]);
            assert(other != id);
            assert(begun.has_turn(other, tick.now) == schedule.has_turn(other, tick.now));
            assert(begun.after_deeds(turned(id).deeds).has_turn(other, tick.now)
                == begun.has_turn(other, tick.now));
        }
        lemma_filter_agrees(rest, runs, runs_after);
        assert(polled_in_step(schedule, tick, turned, turns) =~= one.filter(runs) + rest.filter(
            runs,
        ));
    } else {
        assert(left =~= Seq::empty());
    }
}

/// A step that begins polls every task whose future rests and whose time has
/// come, each once, and no other.
pub proof fn law_a_step_polls_the_ready_tasks(
    schedule: Schedule,
    tick: TickState,
    turned: spec_fn(usize) -> Turned,
    id: usize,
)
    requires
        schedule.wf(),
        !schedule.stopped,
        tick.wf(),
        tick.index == 0,
        is_order(schedule, tick.ids),
    ensures
        polled_in_step(schedule, tick, turned, tick.ids.len()).no_duplicates(),
        polled_in_step(schedule, tick, turned, tick.ids.len()).contains(id) == schedule.has_turn(
            id,
            tick.now,
        ),
{
    let runs = |id: usize| schedule.has_turn(id, tick.now);
    assert forall|i: int| 0 <= i < tick.ids.len() implies #[trigger] tick.ids[i]
        <= schedule.last_task_id by {
        assert(tick.ids.to_set().contains(tick.ids[i]));
    }
    law_every_ready_task_is_polled(schedule, tick, turned, tick.ids.len());
    assert(tick.ids.skip(0) =~= tick.ids);
    let polled = tick.ids.filter(runs);
    lemma_filter_keeps_distinct(tick.ids, runs);
    if polled.contains(id) {
        let k = choose|k: int| 0 <= k < polled.len() && polled[k] == id;
        tick.ids.lemma_filter_pred(runs, k);
    }
    if schedule.has_turn(id, tick.now) {
        assert(tick.ids.to_set().contains(id));
        let k = choose|k: int| 0 <= k < tick.ids.len() && tick.ids[k] == id;
        assert(runs(tick.ids[k]));
        tick.ids.lemma_filter_contains(runs, k);
    }
}

proof fn lemma_filter_keeps_distinct(ids: Seq<usize>, keep: spec_fn(usize) -> bool)
    requires
        ids.no_duplicates(),
    ensures
        ids.filter(keep).no_duplicates(),
    decreases ids.len(),
{
    reveal(Seq::filter);
    if ids.len() > 0 {
        let front = ids.drop_last();
        lemma_filter_keeps_distinct(front, keep);
        let kept = front.filter(keep);
        if kept.contains(ids.last()) {
            front.lemma_filter_contains_rev(keep, ids.last());
            let k = choose|k: int| 0 <= k < front.len() && front[k] == ids.last();
            assert(ids[k] == ids[ids.len() - 1]);
        }
    }
}

proof fn lemma_filter_agrees(
    ids: Seq<usize>,
    a: spec_fn(usize) -> bool,
    b: spec_fn(usize) -> bool,
)
    requires
        forall|i: int| 0 <= i < ids.len() ==> #[trigger] a(ids[i]) == b(ids[i]),
    ensures
        ids.filter(a) == ids.filter(b),
    decreases ids.len(),
{
    reveal(Seq::filter);
    if ids.len() > 0 {
        let front = ids.drop_last();
        assert forall|i: int| 0 <= i < front.len() implies #[trigger] a(front[i]) == b(front[i]) by {
            assert(front[i] == ids[i]);
        }
        lemma_filter_agrees(front, a, b);
        assert(a(ids[ids.len() - 1]) == b(ids[ids.len() - 1]));
    }
}

/// Looking for the next task adds no task, removes none and fails none.
pub proof fn law_search_keeps_the_tasks(schedule: Schedule, tick: TickState)
    ensures
        next_task(schedule, tick).schedule.tasks == schedule.tasks,
        next_task(schedule, tick).schedule.stopped == schedule.stopped,
        next_task(schedule, tick).tick.error == tick.error,
    decreases tick.ids.len() - tick.index,
{
    if !schedule.stopped && 0 <= tick.index < tick.ids.len() {
        let id = tick.ids[tick.index];
        let later = TickState { index: tick.index + 1, ..tick };
        if schedule.sleeping.dom().contains(id) && schedule.sleeping[id] > tick.now {
            law_search_keeps_the_tasks(schedule, later);
        } else if !schedule.resting.contains(id) {
            law_search_keeps_the_tasks(schedule.awake(id), later);
        }
    }
}

/// A task that completes or fails takes no other task with it: every other task
/// keeps its place and its sleep.
pub proof fn law_a_task_ends_alone(schedule: Schedule, id: usize, other: usize)
    requires
        schedule.wf(),
        schedule.polling.contains(id),
        other != id,
    ensures
        schedule.settled(id, false).tasks.contains(other) == schedule.tasks.contains(other),
        schedule.settled(id, false).resting.contains(other) == schedule.resting.contains(other),
        schedule.settled(id, false).polling.contains(other) == schedule.polling.contains(other),
        schedule.settled(id, false).sleeping.dom().contains(other)
            == schedule.sleeping.dom().contains(other),
        schedule.sleeping.dom().contains(other) ==> schedule.settled(id, false).sleeping[other]
            == schedule.sleeping[other],
        !schedule.settled(id, false).tasks.contains(id),
        !schedule.settled(id, false).polling.contains(id),
{
    let place = schedule.polling.index_of(id);
    let after = schedule.settled(id, false).polling;
    assert(after =~= schedule.polling.remove(place));
    if schedule.polling.contains(other) {
        let i = choose|i: int| 0 <= i < schedule.polling.len() && schedule.polling[i] == other;
        assert(after[if i < place {
            i
        } else {
            i - 1
        }] == other);
    }
}

/// A task that was polled alone leaves the tasks that were being polled as they
/// were before: the one before it is the current one again.
pub proof fn law_polling_is_nested(schedule: Schedule, id: usize, pending: bool)
    requires
        schedule.wf(),
        !schedule.polling.contains(id),
    ensures
        schedule.taken(id).polling.last() == id,
        schedule.taken(id).settled(id, pending).polling == schedule.polling,
{
    let polling = schedule.taken(id).polling;
    assert(polling[polling.len() - 1] == id);
    let place = polling.index_of(id);
    if place < schedule.polling.len() {
        assert(schedule.polling[place] == id);
    }
    assert(polling.remove(place) =~= schedule.polling);
}

/// The failure that a tick ends with is the first of its step.
pub proof fn law_the_first_failure_is_reported(
    schedule: Schedule,
    tick: TickState,
    error: WieError,
    ids: Seq<usize>,
)
    ensures
        tick.error is Some ==> next_turn(schedule, tick, TickEvent::Failed(error), ids).tick.error
            == tick.error,
        tick.error is None ==> next_turn(schedule, tick, TickEvent::Failed(error), ids).tick.error
            == Some(error@),
        tick.error is Some ==> step_over(schedule, tick).action == TickActionView::Finish(
            Err(tick.error->0),
        ),
{
}

/// A stopped executor polls nothing, keeps nothing and takes nothing.
pub proof fn law_a_stopped_executor_stays_stopped(
    schedule: Schedule,
    tick: TickState,
    event: TickEvent,
    ids: Seq<usize>,
)
    requires
        schedule.wf(),
        schedule.stopped,
    ensures
        next_turn(schedule, tick, event, ids).schedule.stopped,
        next_turn(schedule, tick, event, ids).schedule.tasks == Set::<usize>::empty(),
        !(next_turn(schedule, tick, event, ids).action matches TickActionView::Poll(_)),
        !(next_turn(schedule, tick, event, ids).action matches TickActionView::Keep(_)),
{
    assert(schedule.tasks.remove(tick.ids[tick.index - 1]) =~= Set::empty());
}

/// A new task has a number that no task had before.
pub proof fn law_task_numbers_are_new(schedule: Schedule)
    requires
        schedule.wf(),
        !schedule.stopped,
        schedule.last_task_id < usize::MAX,
    ensures
        !schedule.tasks.contains(schedule.spawned().last_task_id),
        schedule.spawned().last_task_id > schedule.last_task_id,
        schedule.spawned().last_task_id != 0,
        schedule.spawned().tasks.contains(schedule.spawned().last_task_id),
{
}

/// Once the budget is used up, no task is polled before the tick is over, however
/// the guest's clock and the wake flag answer. Another tick is asked for only
/// when the executor was woken and a task may run.
pub proof fn law_the_budget_ends_a_tick(
    schedule: Schedule,
    tick: TickState,
    budget: u64,
    now: Instant,
    woken: bool,
    ids: Seq<usize>,
)
    requires
        tick.phase == TickPhase::Budget,
        budget >= tick.started + TICK_BUDGET,
        !schedule.stopped,
    ensures
        ({
            let first = next_turn(schedule, tick, TickEvent::Budget(budget), ids);
            let second = next_turn(first.schedule, first.tick, TickEvent::Clock(now), ids);
            let third = next_turn(second.schedule, second.tick, TickEvent::Woken(woken), ids);
            &&& first.action == TickActionView::ReadClock
            &&& second.action == TickActionView::ReadWake
            &&& third.action == TickActionView::Finish(Ok(woken && schedule.any_ready(now.at())))
            &&& third.schedule == schedule
        }),
{
}

/// A task that sleeps is not polled in a step before its time has come.
pub proof fn law_a_sleeping_task_is_not_polled(
    schedule: Schedule,
    tick: TickState,
    timeout: u64,
)
    requires
        schedule.wf(),
        !schedule.stopped,
        schedule.polling.len() > 0,
        schedule.last_now + timeout <= u64::MAX,
        tick.now < schedule.last_now + timeout,
        tick.wf(),
    ensures
        next_task(
            schedule.asleep(timeout).settled(schedule.polling.last(), true),
            tick,
        ).action != TickActionView::Poll(schedule.polling.last()),
{
    let asleep = schedule.asleep(timeout);
    let id = schedule.polling.last();
    let after = asleep.settled(id, true);
    assert(asleep.polling[asleep.polling.len() - 1] == id);
    assert(asleep.wf()) by {
        assert(schedule.tasks.contains(schedule.polling[schedule.polling.len() - 1]));
        assert forall|i: int| 0 <= i < asleep.polling.len() implies asleep.tasks.contains(
            #[trigger] asleep.polling[i],
        ) by {
            assert(schedule.tasks.contains(schedule.polling[i]));
        }
    }
    lemma_settled_wf(asleep, id, true);
    if next_task(after, tick).action == TickActionView::Poll(id) {
        law_only_ready_tasks_are_polled(after, tick, id);
    }
}

/// What a task does in its turn and how it answers.
pub struct Performance {
    pub deeds: Seq<Deed>,
    pub answer: TickEvent,
}

/// The tasks that were polled in a step, in order, and the turn that it ended with.
pub struct StepRun {
    pub polled: Seq<usize>,
    pub end: Turn,
}

/// The rest of a step from an event on, with the tasks of the step in the order
/// `ids`, where each task does and answers what `performed` says. `turns` bounds its
/// turns.
pub open spec fn step_run(
    schedule: Schedule,
    tick: TickState,
    event: TickEvent,
    ids: Seq<usize>,
    performed: spec_fn(usize) -> Performance,
    turns: nat,
) -> StepRun
    decreases turns,
{
    let turn = next_turn(schedule, tick, event, ids);
    if turns == 0 {
        StepRun { polled: Seq::empty(), end: turn }
    } else {
        match turn.action {
            TickActionView::Poll(id) => {
                let rest = step_run(
                    turn.schedule.after_deeds(performed(id).deeds),
                    turn.tick,
                    performed(id).answer,
                    ids,
                    performed,
                    (turns - 1) as nat,
                );
                StepRun { polled: seq![id] + rest.polled, end: rest.end }
            },
            TickActionView::Keep(_) | TickActionView::Release(_) => step_run(
                turn.schedule,
                turn.tick,
                TickEvent::Done,
                ids,
                performed,
                (turns - 1) as nat,
            ),
            _ => StepRun { polled: Seq::empty(), end: turn },
        }
    }
}

/// The first failure among `error`, which came before, and those of `polled`.
pub open spec fn first_failure(
    error: Option<ErrorView>,
    polled: Seq<usize>,
    performed: spec_fn(usize) -> Performance,
) -> Option<ErrorView>
    decreases polled.len(),
{
    if error is Some || polled.len() == 0 {
        error
    } else {
        first_failure(
            match performed(polled[0]).answer {
                TickEvent::Failed(failure) => Some(failure@),
                _ => None,
            },
            polled.drop_first(),
            performed,
        )
    }
}

/// Whether every task answers as a polled task does.
pub open spec fn tasks_answer(performed: spec_fn(usize) -> Performance) -> bool {
    forall|id: usize|
        (#[trigger] performed(id)).answer is Pending || performed(id).answer is Ready || performed(
            id,
        ).answer is Failed
}

proof fn lemma_search_ignores_the_phase(schedule: Schedule, tick: TickState, phase: TickPhase)
    ensures
        next_task(schedule, TickState { phase, ..tick }) == next_task(schedule, tick),
    decreases tick.ids.len() - tick.index,
{
    if !schedule.stopped && 0 <= tick.index < tick.ids.len() {
        let id = tick.ids[tick.index];
        let later = TickState { index: tick.index + 1, ..tick };
        lemma_search_ignores_the_phase(schedule, later, phase);
        lemma_search_ignores_the_phase(schedule.awake(id), later, phase);
    }
}

/// The rest of a step polls the ready tasks that are left, and ends with the first
/// failure.
proof fn lemma_step_run(
    schedule: Schedule,
    tick: TickState,
    ids: Seq<usize>,
    performed: spec_fn(usize) -> Performance,
    turns: nat,
)
    requires
        tick.wf(),
        tick.phase == TickPhase::Settle,
        !schedule.stopped,
        tasks_answer(performed),
        forall|i: int| 0 <= i < tick.ids.len() ==> #[trigger] tick.ids[i] <= schedule.last_task_id,
        turns >= 2 * (tick.ids.len() - tick.index),
    ensures
        ({
            let run = step_run(schedule, tick, TickEvent::Done, ids, performed, turns);
            &&& run.polled == tick.ids.skip(tick.index).filter(
                |id: usize| schedule.has_turn(id, tick.now),
            )
            &&& run.end.action == match first_failure(tick.error, run.polled, performed) {
                Some(error) => TickActionView::Finish(Err(error)),
                None => TickActionView::ReadWake,
            }
            &&& run.end.schedule.last_now == schedule.last_now
        }),
    decreases tick.ids.len() - tick.index,
{
    let runs = |id: usize| schedule.has_turn(id, tick.now);
    let left = tick.ids.skip(tick.index);
    reveal(Seq::filter);
    if tick.index < tick.ids.len() {
        let id = tick.ids[tick.index];
        let later = TickState { index: tick.index + 1, ..tick };
        let rest = tick.ids.skip(tick.index + 1);
        let one = seq![id];
        assert(left =~= one + rest);
        Seq::filter_distributes_over_add(one, rest, runs);
        assert(one.drop_last() =~= Seq::empty());
        assert(one.last() == id);
        assert(one.drop_last().filter(runs) =~= Seq::empty());
        assert(one.filter(runs) =~= if runs(id) {
            one
        } else {
            Seq::empty()
        });
        let begun = schedule.awake(id).taken(id);
        let answer = performed(id).answer;
        assert(answer is Pending || answer is Ready || answer is Failed);
        let done = begun.after_deeds(performed(id).deeds);
        lemma_deeds_touch_no_other(begun, performed(id).deeds);
        let asleep = schedule.sleeping.dom().contains(id) && schedule.sleeping[id] > tick.now;
        let after = if asleep {
            schedule
        } else if schedule.resting.contains(id) {
            done.settled(id, answer is Pending)
        } else {
            schedule.awake(id)
        };
        let runs_after = |id: usize| after.has_turn(id, tick.now);
        assert forall|i: int| 0 <= i < rest.len() implies #[trigger] runs(rest[i]) == runs_after(
            rest[i],
        ) by {
            let other = rest[i];
            assert(other == tick.ids[tick.index + 1 + i]);
            assert(other != id);
            assert(begun.has_turn(other, tick.now) == schedule.has_turn(other, tick.now));
            assert(done.has_turn(other, tick.now) == begun.has_turn(other, tick.now));
        }
        lemma_filter_agrees(rest, runs, runs_after);
        if !asleep && schedule.resting.contains(id) {
            let error = if tick.error is Some {
                tick.error
            } else {
                match answer {
                    TickEvent::Failed(failure) => Some(failure@),
                    _ => None,
                }
            };
            let polling = TickState { phase: TickPhase::Poll, ..later };
            let settled = TickState { error, ..later };
            lemma_step_run(after, settled, ids, performed, (turns - 2) as nat);
            assert(next_turn(schedule, tick, TickEvent::Done, ids) == next_task(schedule, tick));
            let turn = next_turn(done, polling, answer, ids);
            assert(turn.schedule == after);
            assert(turn.tick =~= settled);
            let inner = step_run(done, polling, answer, ids, performed, (turns - 1) as nat);
            let tail = step_run(after, settled, TickEvent::Done, ids, performed, (turns - 2) as nat);
            assert(inner == tail);
            let run = step_run(schedule, tick, TickEvent::Done, ids, performed, turns);
            assert(run.polled =~= one + tail.polled);
            assert(run.end == tail.end);
            assert(run.polled.drop_first() =~= tail.polled);
            assert(run.polled[0] == id);
            assert(first_failure(tick.error, run.polled, performed) == first_failure(
                error,
                tail.polled,
                performed,
            ));
            assert(run.polled =~= one.filter(runs) + rest.filter(runs));
        } else {
            lemma_step_run(after, later, ids, performed, turns);
            assert(next_turn(schedule, tick, TickEvent::Done, ids) == next_turn(
                after,
                later,
                TickEvent::Done,
                ids,
            ));
            assert(step_run(schedule, tick, TickEvent::Done, ids, performed, turns) == step_run(
                after,
                later,
                TickEvent::Done,
                ids,
                performed,
                turns,
            ));
            assert(one.filter(runs) + rest.filter(runs) =~= rest.filter(runs));
        }
    } else {
        assert(left =~= Seq::empty());
        assert(left.filter(runs) =~= Seq::empty());
    }
}

/// A step, from the moment the wake flag is cleared to its end, polls every task
/// whose future rests in its slot and whose time to wake, if it sleeps, has come. It
/// polls each of them once, in the order of the step, and no other task, whatever
/// the tasks do and answer. It ends with the first failure among them, or else asks
/// for the wake flag. All of it happens at the time that the tick read for it.
pub proof fn law_a_step_runs_the_ready_tasks(
    schedule: Schedule,
    tick: TickState,
    ids: Seq<usize>,
    performed: spec_fn(usize) -> Performance,
)
    requires
        schedule.wf(),
        !schedule.stopped,
        tick.phase == TickPhase::Clear,
        is_order(schedule, ids),
        tasks_answer(performed),
    ensures
        ({
            let run = step_run(
                schedule,
                tick,
                TickEvent::Done,
                ids,
                performed,
                2 * ids.len() as nat,
            );
            &&& run.polled.no_duplicates()
            &&& forall|id: usize| #[trigger]
                run.polled.contains(id) == (schedule.resting.contains(id) && (
                schedule.sleeping.dom().contains(id) ==> schedule.sleeping[id] <= tick.now))
            &&& run.end.action == match first_failure(None, run.polled, performed) {
                Some(error) => TickActionView::Finish(Err(error)),
                None => TickActionView::ReadWake,
            }
            &&& run.end.schedule.last_now == tick.now
        }),
{
    let begun = Schedule { last_now: tick.now, ..schedule };
    let first = TickState { phase: TickPhase::Settle, ids, index: 0, error: None, ..tick };
    let turns = (2 * ids.len()) as nat;
    let runs = |id: usize| begun.has_turn(id, tick.now);
    assert forall|i: int| 0 <= i < ids.len() implies #[trigger] ids[i] <= begun.last_task_id by {
        assert(ids.to_set().contains(ids[i]));
        assert(schedule.tasks.contains(ids[i]));
    }
    lemma_step_run(begun, first, ids, performed, turns);
    lemma_search_ignores_the_phase(
        begun,
        TickState { ids, index: 0, error: None, ..tick },
        TickPhase::Settle,
    );
    assert(next_turn(schedule, tick, TickEvent::Done, ids) == next_turn(
        begun,
        first,
        TickEvent::Done,
        ids,
    ));
    let run = step_run(schedule, tick, TickEvent::Done, ids, performed, turns);
    assert(run == step_run(begun, first, TickEvent::Done, ids, performed, turns));
    assert(ids.skip(0) =~= ids);
    lemma_filter_keeps_distinct(ids, runs);
    assert forall|id: usize| #[trigger]
        run.polled.contains(id) == (schedule.resting.contains(id) && (
        schedule.sleeping.dom().contains(id) ==> schedule.sleeping[id] <= tick.now)) by {
        if run.polled.contains(id) {
            let k = choose|k: int| 0 <= k < run.polled.len() && run.polled[k] == id;
            ids.lemma_filter_pred(runs, k);
        }
        if begun.has_turn(id, tick.now) {
            assert(schedule.tasks.contains(id));
            assert(ids.to_set().contains(id));
            let k = choose|k: int| 0 <= k < ids.len() && ids[k] == id;
            assert(runs(ids[k]));
            ids.lemma_filter_contains(runs, k);
        }
    }
}

/// Every step runs at the time that the tick read for it: that time is the
/// schedule's once the step begins, whatever it was before, and nothing else sets it.
pub proof fn law_a_step_takes_the_time(
    schedule: Schedule,
    tick: TickState,
    now: Instant,
    at_step: Schedule,
    ids: Seq<usize>,
)
    requires
        tick.phase == TickPhase::Clock,
        next_turn(schedule, tick, TickEvent::Clock(now), ids).action == TickActionView::ClearWake,
    ensures
        ({
            let read = next_turn(schedule, tick, TickEvent::Clock(now), ids);
            next_turn(at_step, read.tick, TickEvent::Done, ids).schedule.last_now == now.at()
        }),
{
    let read = next_turn(schedule, tick, TickEvent::Clock(now), ids);
    lemma_search_keeps_the_time(
        Schedule { last_now: now.at(), ..at_step },
        TickState { ids, index: 0, error: None, ..read.tick },
    );
}

proof fn lemma_search_keeps_the_time(schedule: Schedule, tick: TickState)
    ensures
        next_task(schedule, tick).schedule.last_now == schedule.last_now,
        next_task(schedule, tick).schedule.last_task_id == schedule.last_task_id,
    decreases tick.ids.len() - tick.index,
{
    if !schedule.stopped && 0 <= tick.index < tick.ids.len() {
        let id = tick.ids[tick.index];
        let later = TickState { index: tick.index + 1, ..tick };
        lemma_search_keeps_the_time(schedule, later);
        lemma_search_keeps_the_time(schedule.awake(id), later);
    }
}

/// The time of a schedule stays from the beginning of one step to that of the next:
/// no other turn moves it, nor does a task that is added, sleeps or ends, nor the
/// shutdown.
pub proof fn law_only_steps_move_the_time(
    schedule: Schedule,
    tick: TickState,
    event: TickEvent,
    ids: Seq<usize>,
    id: usize,
    pending: bool,
    timeout: u64,
)
    requires
        tick.phase != TickPhase::Clear || !(event is Done),
    ensures
        next_turn(schedule, tick, event, ids).schedule.last_now == schedule.last_now,
        schedule.spawned().last_now == schedule.last_now,
        schedule.asleep(timeout).last_now == schedule.last_now,
        schedule.settled(id, pending).last_now == schedule.last_now,
        schedule.shut_down().last_now == schedule.last_now,
{
    lemma_search_keeps_the_time(schedule, tick);
}

/// A task that sleeps in a step at one time wakes just when its timeout has passed:
/// a later step polls it if and only if its own time is that much later.
pub proof fn law_a_sleep_lasts_its_time(
    schedule: Schedule,
    id: usize,
    timeout: u64,
    tick: TickState,
    ids: Seq<usize>,
    performed: spec_fn(usize) -> Performance,
)
    requires
        schedule.wf(),
        !schedule.stopped,
        schedule.polling.len() > 0,
        schedule.polling.last() == id,
        schedule.last_now + timeout <= u64::MAX,
        tick.phase == TickPhase::Clear,
        is_order(schedule.asleep(timeout).settled(id, true), ids),
        tasks_answer(performed),
    ensures
        step_run(
            schedule.asleep(timeout).settled(id, true),
            tick,
            TickEvent::Done,
            ids,
            performed,
            2 * ids.len() as nat,
        ).polled.contains(id) == (tick.now >= schedule.last_now + timeout),
{
    let asleep = schedule.asleep(timeout);
    let after = asleep.settled(id, true);
    assert(asleep.polling[asleep.polling.len() - 1] == id);
    assert(asleep.wf()) by {
        assert(schedule.tasks.contains(schedule.polling[schedule.polling.len() - 1]));
        assert forall|i: int| 0 <= i < asleep.polling.len() implies asleep.tasks.contains(
            #[trigger] asleep.polling[i],
        ) by {
            assert(schedule.tasks.contains(schedule.polling[i]));
        }
    }
    lemma_settled_wf(asleep, id, true);
    law_a_step_runs_the_ready_tasks(after, tick, ids, performed);
}

/// A task that is pending stays as it was, with its sleep, and rests again: its
/// future is kept. Once the executor was stopped, it is released instead. A task that
/// completes or fails is released.
pub proof fn law_pending_tasks_are_kept(
    schedule: Schedule,
    tick: TickState,
    event: TickEvent,
    ids: Seq<usize>,
)
    requires
        schedule.wf(),
        event is Pending || event is Ready || event is Failed,
        tick_event_fits(schedule, tick, event),
    ensures
        ({
            let id = tick.ids[tick.index - 1];
            let turn = next_turn(schedule, tick, event, ids);
            let kept = event is Pending && !schedule.stopped;
            &&& turn.action == if kept {
                TickActionView::Keep(id)
            } else {
                TickActionView::Release(id)
            }
            &&& turn.schedule.tasks == if kept {
                schedule.tasks
            } else {
                schedule.tasks.remove(id)
            }
            &&& turn.schedule.resting.contains(id) == kept
            &&& kept ==> turn.schedule.sleeping == schedule.sleeping
            &&& !kept ==> !turn.schedule.sleeping.dom().contains(id)
            &&& forall|other: usize|
                other != id ==> #[trigger] turn.schedule.resting.contains(other)
                    == schedule.resting.contains(other)
            &&& turn.schedule.polling.len() == schedule.polling.len() - 1
            &&& turn.schedule.last_task_id == schedule.last_task_id
            &&& turn.schedule.stopped == schedule.stopped
        }),
{
}

/// Before a step the tick ends exactly where the executor was stopped, or where there
/// are tasks and each of them sleeps beyond the time. Nothing is changed by looking.
pub proof fn law_a_tick_waits_for_sleepers(
    schedule: Schedule,
    tick: TickState,
    now: Instant,
    ids: Seq<usize>,
)
    requires
        schedule.wf(),
        tick.phase == TickPhase::Clock,
    ensures
        ({
            let turn = next_turn(schedule, tick, TickEvent::Clock(now), ids);
            let none_runs = (exists|id: usize| #[trigger] schedule.tasks.contains(id)) && (forall|
                id: usize,
            | #[trigger]
                schedule.tasks.contains(id) ==> schedule.sleeping.dom().contains(id)
                    && schedule.sleeping[id] > now.at());
            &&& turn.schedule == schedule
            &&& schedule.stopped || none_runs ==> turn.action == TickActionView::Finish(Ok(false))
            &&& !(schedule.stopped || none_runs) ==> turn.action == TickActionView::ClearWake
                && turn.tick.phase == TickPhase::Clear && turn.tick.now == now.at()
        }),
{
}

/// A tick asks for another one exactly where its budget of eight milliseconds was
/// used up, the executor was woken and still runs, and some task does not sleep beyond
/// the time. The budget is looked at before each step, and a budget clock that goes
/// backwards does not use it up.
pub proof fn law_a_tick_keeps_its_budget(
    schedule: Schedule,
    tick: TickState,
    budget: u64,
    now: Instant,
    woken: bool,
    ids: Seq<usize>,
)
    requires
        tick.phase == TickPhase::Budget,
        !schedule.stopped,
    ensures
        ({
            let looked = next_turn(schedule, tick, TickEvent::Budget(budget), ids);
            let read = next_turn(schedule, looked.tick, TickEvent::Clock(now), ids);
            let last = next_turn(schedule, read.tick, TickEvent::Woken(woken), ids);
            &&& looked.action == TickActionView::ReadClock
            &&& looked.schedule == schedule
            &&& budget - tick.started < 8 ==> looked.tick.phase == TickPhase::Clock
            &&& budget - tick.started >= 8 ==> {
                &&& read.action == TickActionView::ReadWake
                &&& last.schedule == schedule
                &&& last.action == TickActionView::Finish(
                    Ok(
                        woken && exists|id: usize| #[trigger]
                            schedule.tasks.contains(id) && (schedule.sleeping.dom().contains(id)
                                ==> schedule.sleeping[id] <= now.at()),
                    ),
                )
            }
        }),
{
    let ready = exists|id: usize| #[trigger]
        schedule.tasks.contains(id) && (schedule.sleeping.dom().contains(id)
            ==> schedule.sleeping[id] <= now.at());
    if schedule.any_ready(now.at()) {
        let id = choose|id: usize| #[trigger]
            schedule.tasks.contains(id) && schedule.is_ready(id, now.at());
        assert(schedule.tasks.contains(id));
    }
    if ready {
        let id = choose|id: usize| #[trigger]
            schedule.tasks.contains(id) && (schedule.sleeping.dom().contains(id)
                ==> schedule.sleeping[id] <= now.at());
        assert(schedule.tasks.contains(id) && schedule.is_ready(id, now.at()));
    }
}

/// A tick begins by reading the budget clock, which its budget counts from. After a
/// step it goes on exactly where it was woken meanwhile.
pub proof fn law_a_tick_goes_on_while_woken(
    schedule: Schedule,
    tick: TickState,
    budget: u64,
    woken: bool,
    ids: Seq<usize>,
)
    ensures
        tick.phase == TickPhase::Start ==> {
            let begun = next_turn(schedule, tick, TickEvent::Done, ids);
            let started = next_turn(schedule, begun.tick, TickEvent::Budget(budget), ids);
            &&& begun.action == TickActionView::ReadBudget
            &&& started.action == TickActionView::ReadBudget
            &&& started.tick.phase == TickPhase::Budget
            &&& started.tick.started == budget
            &&& started.schedule == schedule
        },
        tick.phase == TickPhase::Wake ==> {
            let turn = next_turn(schedule, tick, TickEvent::Woken(woken), ids);
            &&& turn.schedule == schedule
            &&& woken ==> turn.action == TickActionView::ReadBudget && turn.tick.phase
                == TickPhase::Budget && turn.tick.started == tick.started
            &&& !woken ==> turn.action == TickActionView::Finish(Ok(false))
        },
{
}

/// A task that is added rests, does not sleep and leaves all others as they were; one
/// that sleeps leaves all others as they were; a shutdown leaves no task at all.
pub proof fn law_tasks_are_added_and_dropped_alone(
    schedule: Schedule,
    timeout: u64,
    other: usize,
)
    requires
        schedule.wf(),
        !schedule.stopped,
        schedule.last_task_id < usize::MAX,
        schedule.polling.len() > 0,
        schedule.last_now + timeout <= u64::MAX,
    ensures
        ({
            let new = schedule.spawned();
            let id = (schedule.last_task_id + 1) as usize;
            &&& new.resting.contains(id) && !new.sleeping.dom().contains(id)
            &&& new.tasks.contains(other) == (other == id || schedule.tasks.contains(other))
            &&& new.resting.contains(other) == (other == id || schedule.resting.contains(other))
            &&& new.sleeping == schedule.sleeping
            &&& new.polling == schedule.polling
            &&& new.last_task_id == id
            &&& !new.stopped
        }),
        ({
            let slept = schedule.asleep(timeout);
            let id = schedule.polling.last();
            &&& slept.tasks == schedule.tasks && slept.resting == schedule.resting
            &&& slept.polling == schedule.polling
            &&& slept.sleeping.dom().contains(other) == (other == id
                || schedule.sleeping.dom().contains(other))
            &&& slept.sleeping[id] == schedule.last_now + timeout
            &&& other != id && schedule.sleeping.dom().contains(other) ==> slept.sleeping[other]
                == schedule.sleeping[other]
        }),
        ({
            let end = schedule.shut_down();
            &&& end.stopped
            &&& !end.tasks.contains(other)
            &&& !end.resting.contains(other)
            &&& !end.sleeping.dom().contains(other)
        }),
{
    let id = (schedule.last_task_id + 1) as usize;
    assert(!schedule.tasks.contains(id));
}

/// A step begins at the time that the tick has read for it, whatever step came before,
/// and no other turn moves the time.
pub proof fn law_stepping_takes_the_time(
    tick: &mut Tick,
    inner: &mut ExecutorInner,
    event: TickEvent,
    action: TickAction,
)
    requires
        old(inner).schedule().wf(),
        old(tick).state().wf(),
        tick_event_fits(old(inner).schedule(), old(tick).state(), event),
        call_ensures(Tick::step, (tick, inner, event), action),
    ensures
        ({
            let begins = old(tick).state().phase == TickPhase::Clear;
            final(inner).schedule().last_now == (if begins {
                old(tick).state().now
            } else {
                old(inner).schedule().last_now
            })
        }),
        old(tick).state().phase == TickPhase::Clock && (action@ is ClearWake) ==> (event matches
            TickEvent::Clock(now) && final(tick).state().now == now.at()),
{
    let schedule = old(inner).schedule();
    let state = old(tick).state();
    let ids = choose|ids: Seq<usize>|
        (Turn { schedule: final(inner).schedule(), tick: final(tick).state(), action: action@ })
            == #[trigger] next_turn(schedule, state, event, ids) && (state.phase
            == TickPhase::Clear ==> is_order(schedule, ids));
    if state.phase == TickPhase::Clear {
        lemma_search_keeps_the_time(
            Schedule { last_now: state.now, ..schedule },
            TickState { ids, index: 0, error: None, ..state },
        );
    } else {
        law_only_steps_move_the_time(schedule, state, event, ids, 0, true, 0);
    }
}

/// A task that sleeps wakes when its timeout has passed since the time of its step. No
/// other task's sleep is touched, and a stopped executor lets nothing sleep.
pub proof fn law_sleeping_counts_from_the_step(
    inner: &mut ExecutorInner,
    timeout: u64,
    wake: bool,
)
    requires
        old(inner).schedule().wf(),
        old(inner).schedule().stopped || old(inner).schedule().polling.len() > 0,
        old(inner).schedule().stopped || old(inner).schedule().last_now + timeout <= u64::MAX,
        call_ensures(ExecutorInner::sleep, (inner, timeout), wake),
    ensures
        wake == !old(inner).schedule().stopped,
        !wake ==> final(inner).schedule() == old(inner).schedule(),
        wake ==> {
            let id = old(inner).schedule().polling.last();
            let sleeping = final(inner).schedule().sleeping;
            &&& sleeping.dom().contains(id)
            &&& sleeping[id] == old(inner).schedule().last_now + timeout
            &&& forall|other: usize|
                #![trigger sleeping.dom().contains(other)]
                other != id ==> sleeping.dom().contains(other)
                    == old(inner).schedule().sleeping.dom().contains(other)
            &&& forall|other: usize|
                #![trigger sleeping[other]]
                other != id && sleeping.dom().contains(other) ==> sleeping[other]
                    == old(inner).schedule().sleeping[other]
            &&& final(inner).schedule().tasks == old(inner).schedule().tasks
            &&& final(inner).schedule().resting == old(inner).schedule().resting
        },
{
}

/// A task that is added gets a number that no task ever had, other than zero, rests and
/// does not sleep; all other tasks are as they were. A stopped executor adds none and gives
/// zero.
pub proof fn law_spawning_adds_one_task(inner: &mut ExecutorInner, id: usize)
    requires
        old(inner).schedule().wf(),
        old(inner).schedule().stopped || old(inner).schedule().last_task_id < usize::MAX,
        call_ensures(ExecutorInner::spawn, (inner,), id),
    ensures
        ({
            let before = old(inner).schedule();
            let after = final(inner).schedule();
            &&& before.stopped ==> id == 0 && after == before
            &&& !before.stopped ==> {
                &&& id > before.last_task_id
                &&& id == after.last_task_id
                &&& !before.tasks.contains(id)
                &&& after.resting.contains(id)
                &&& !after.sleeping.dom().contains(id)
                &&& forall|other: usize|
                    other != id ==> #[trigger] after.tasks.contains(other)
                        == before.tasks.contains(other)
                &&& forall|other: usize|
                    other != id ==> #[trigger] after.resting.contains(other)
                        == before.resting.contains(other)
                &&& after.sleeping == before.sleeping
                &&& after.last_now == before.last_now
            }
        }),
{
}

/// A shutdown is for good: no task is left, none sleeps, and none is taken any more.
pub proof fn law_shutting_down_leaves_no_task(inner: &mut ExecutorInner)
    requires
        old(inner).schedule().wf(),
        call_ensures(ExecutorInner::shutdown, (inner,), ()),
    ensures
        final(inner).schedule().stopped,
        forall|id: usize| !(#[trigger] final(inner).schedule().tasks.contains(id)),
        forall|id: usize| !(#[trigger] final(inner).schedule().resting.contains(id)),
        forall|id: usize| !(#[trigger] final(inner).schedule().sleeping.dom().contains(id)),
{
}

/// The current task is the one that was taken out to be polled last.
pub proof fn law_the_current_task_is_polled_last(inner: &ExecutorInner, id: u64)
    requires
        inner.schedule().polling.len() > 0,
        call_ensures(ExecutorInner::current_task_id, (inner,), id),
    ensures
        id == inner.schedule().polling[inner.schedule().polling.len() - 1],
{
}

/// A tick that polls a task polls one that rests and whose time has come, makes it the
/// current one, and lets no sleep of it go on. A tick that has nothing to poll changes no
/// task.
pub proof fn law_stepping_polls_a_ready_task(
    tick: &mut Tick,
    inner: &mut ExecutorInner,
    action: TickAction,
)
    requires
        old(inner).schedule().wf(),
        old(tick).state().wf(),
        old(tick).state().phase == TickPhase::Clear || old(tick).state().phase == TickPhase::Settle,
        call_ensures(Tick::step, (tick, inner, TickEvent::Done), action),
    ensures
        final(inner).schedule().tasks == old(inner).schedule().tasks,
        final(inner).schedule().stopped == old(inner).schedule().stopped,
        action matches TickAction::Poll(id) ==> {
            &&& !old(inner).schedule().stopped
            &&& old(inner).schedule().resting.contains(id)
            &&& old(inner).schedule().sleeping.dom().contains(id)
                ==> old(inner).schedule().sleeping[id] <= old(tick).state().now
            &&& final(inner).schedule().polling.len() > 0
            &&& final(inner).schedule().polling.last() == id
            &&& !final(inner).schedule().resting.contains(id)
            &&& !final(inner).schedule().sleeping.dom().contains(id)
        },
{
    let schedule = old(inner).schedule();
    let state = old(tick).state();
    let ids = choose|ids: Seq<usize>|
        (Turn { schedule: final(inner).schedule(), tick: final(tick).state(), action: action@ })
            == #[trigger] next_turn(schedule, state, TickEvent::Done, ids) && (state.phase
            == TickPhase::Clear ==> is_order(schedule, ids));
    let (from, at) = if state.phase == TickPhase::Clear {
        (
            Schedule { last_now: state.now, ..schedule },
            TickState { ids, index: 0, error: None, ..state },
        )
    } else {
        (schedule, state)
    };
    law_search_keeps_the_tasks(from, at);
    if let TickAction::Poll(id) = action {
        assert(from.wf()) by {
            assert forall|i: int|
                !from.stopped && 0 <= i < from.polling.len() implies from.tasks.contains(
                #[trigger] from.polling[i],
            ) by {
                assert(schedule.tasks.contains(schedule.polling[i]));
            }
        }
        law_only_ready_tasks_are_polled(from, at, id);
        lemma_polled_task_is_current(from, at, id);
    }
}

proof fn lemma_polled_task_is_current(schedule: Schedule, tick: TickState, id: usize)
    requires
        next_task(schedule, tick).action == TickActionView::Poll(id),
    ensures
        ({
            let after = next_task(schedule, tick).schedule;
            &&& after.polling.len() > 0
            &&& after.polling.last() == id
            &&& !after.resting.contains(id)
            &&& !after.sleeping.dom().contains(id)
        }),
    decreases tick.ids.len() - tick.index,
{
    if !schedule.stopped && 0 <= tick.index < tick.ids.len() {
        let other = tick.ids[tick.index];
        let later = TickState { index: tick.index + 1, ..tick };
        if schedule.sleeping.dom().contains(other) && schedule.sleeping[other] > tick.now {
            lemma_polled_task_is_current(schedule, later, id);
        } else if !schedule.resting.contains(other) {
            lemma_polled_task_is_current(schedule.awake(other), later, id);
        }
    }
}

/// An executor begins running, without a task, and a tick begins with nothing done.
pub proof fn law_executors_begin_without_tasks(inner: ExecutorInner, tick: Tick)
    requires
        call_ensures(ExecutorInner::new, (), inner),
        call_ensures(Tick::new, (), tick),
    ensures
        inner.schedule().wf(),
        !inner.schedule().stopped,
        forall|id: usize| !(#[trigger] inner.schedule().tasks.contains(id)),
        inner.schedule().polling.len() == 0,
        inner.schedule().last_task_id == 0,
        tick.state().wf(),
        tick.state().phase == TickPhase::Start,
        tick.state().error is None,
{
}

/// What is told of an executor agrees with what it holds: a task can be added as long as a
/// number is left, one can sleep as long as its time to wake can be told, and the numbers of
/// all tasks are listed once.
pub proof fn law_executors_tell_what_they_hold(
    inner: &ExecutorInner,
    timeout: u64,
    spawns: bool,
    sleeps: bool,
    polls: bool,
    stopped: bool,
    ids: Vec<usize>,
)
    requires
        call_ensures(ExecutorInner::may_spawn, (inner,), spawns),
        call_ensures(ExecutorInner::may_sleep, (inner, timeout), sleeps),
        call_ensures(ExecutorInner::is_polling, (inner,), polls),
        call_ensures(ExecutorInner::is_stopped, (inner,), stopped),
        call_ensures(ExecutorInner::task_ids, (inner,), ids),
    ensures
        stopped == inner.schedule().stopped,
        stopped ==> spawns && sleeps,
        !stopped ==> spawns == (inner.schedule().last_task_id < usize::MAX),
        !stopped ==> sleeps == (polls && inner.schedule().last_now + timeout <= u64::MAX),
        polls == (inner.schedule().polling.len() > 0),
        forall|id: usize| #[trigger] ids@.contains(id) == inner.schedule().tasks.contains(id),
        forall|i: int, j: int| 0 <= i < j < ids@.len() ==> ids@[i] != ids@[j],
{
    assert forall|id: usize| #[trigger] ids@.contains(id) == inner.schedule().tasks.contains(id) by {
        assert(ids@.to_set().contains(id) == ids@.contains(id));
    }
}

} // verus!

//! The concurrency budget: an executable counting permit pool, and a ghost
//! model of the whole engine's scheduling that shows the parallelism cap is
//! never exceeded at any instant of any admissible run.

use crate::multiplexer::TaskStatus;
use crate::multiplexer::TaskStatusCompleted;
use vstd::prelude::*;

verus! {

/// A counting permit pool of fixed capacity. A worker must hold one permit
/// for as long as its child process is live.
pub struct PermitPool {
    /// The parallelism cap the pool was created with.
    pub capacity: usize,
    /// Permits not currently held.
    pub available: usize,
}

impl PermitPool {
    /// Never more permits available than the pool was created with.
    pub open spec fn wf(self) -> bool {
        self.available <= self.capacity
    }

    /// How many permits are held at this instant.
    pub open spec fn held(self) -> int {
        self.capacity - self.available
    }

    pub fn new(capacity: usize) -> (r: Self)
        ensures
            r.wf(),
            r.capacity == capacity,
            r.available == capacity,
    {
        Self { capacity, available: capacity }
    }

    /// Takes one permit when one is free; reports whether it did. The number
    /// of held permits can never pass the capacity.
    pub fn try_acquire(&mut self) -> (r: bool)
        requires
            old(self).wf(),
        ensures
            final(self).wf(),
            final(self).capacity == old(self).capacity,
            r == (old(self).available > 0),
            r ==> final(self).available == old(self).available - 1,
            !r ==> final(self).available == old(self).available,
            final(self).held() <= final(self).capacity,
    {
        if self.available > 0 {
            self.available = self.available - 1;
            true
        } else {
            false
        }
    }

    /// Gives a held permit back.
    pub fn release(&mut self)
        requires
            old(self).wf(),
            old(self).held() > 0,
        ensures
            final(self).wf(),
            final(self).capacity == old(self).capacity,
            final(self).available == old(self).available + 1,
    {
        self.available = self.available + 1;
    }
}

/// How many tasks hold `Running` status.
pub open spec fn count_running(statuses: Seq<TaskStatus>) -> int
    decreases statuses.len(),
{
    if statuses.len() == 0 {
        0
    } else {
        count_running(statuses.drop_last()) + if statuses.last() is Running {
            1int
        } else {
            0int
        }
    }
}

proof fn lemma_count_running_update(statuses: Seq<TaskStatus>, i: int, s: TaskStatus)
    requires
        0 <= i < statuses.len(),
    ensures
        count_running(statuses.update(i, s)) == count_running(statuses) + (if s is Running {
            1int
        } else {
            0int
        }) - (if statuses[i] is Running {
            1int
        } else {
            0int
        }),
    decreases statuses.len(),
{
    let upd = statuses.update(i, s);
    if i == statuses.len() - 1 {
        assert(upd.drop_last() =~= statuses.drop_last());
        assert(upd.last() == s);
    } else {
        assert(upd.drop_last() =~= statuses.drop_last().update(i, s));
        assert(upd.last() == statuses.last());
        lemma_count_running_update(statuses.drop_last(), i, s);
    }
}

proof fn lemma_count_running_all_pending(statuses: Seq<TaskStatus>)
    requires
        forall|i: int| 0 <= i < statuses.len() ==> statuses[i] is Pending,
    ensures
        count_running(statuses) == 0,
    decreases statuses.len(),
{
    if statuses.len() > 0 {
        lemma_count_running_all_pending(statuses.drop_last());
    }
}

/// One scheduling step of the engine, as observed on the task statuses:
/// a worker takes a permit and its task starts running; a worker's spawn
/// fails while it holds a permit, which it gives straight back; or a running
/// task's process exits and the permit is given back.
pub enum EngineEvent {
    Start { id: int },
    FailSpawn { id: int },
    Finish { id: int, outcome: TaskStatusCompleted },
}

/// The ghost scheduling state: every task's status, and how many permits are
/// free at this instant.
pub struct EngineState {
    pub capacity: int,
    pub available: int,
    pub statuses: Seq<TaskStatus>,
}

/// The engine before any worker has moved: `n` pending tasks and the whole
/// budget free.
pub open spec fn engine_init(capacity: int, n: nat) -> EngineState {
    EngineState { capacity, available: capacity, statuses: Seq::new(n, |i: int| TaskStatus::Pending) }
}

/// The scheduling invariant: free permits plus live (running) tasks account
/// exactly for the whole budget.
pub open spec fn engine_inv(s: EngineState) -> bool {
    &&& s.available >= 0
    &&& s.available + count_running(s.statuses) == s.capacity
}

/// When an event can happen: a task starts only from `Pending` with a free
/// permit in hand, and finishes only from `Running`. A spawn failure also
/// needs the permit the worker had just taken.
pub open spec fn event_enabled(s: EngineState, e: EngineEvent) -> bool {
    match e {
        EngineEvent::Start { id } => {
            &&& 0 <= id < s.statuses.len()
            &&& s.statuses[id] is Pending
            &&& s.available > 0
        },
        EngineEvent::FailSpawn { id } => {
            &&& 0 <= id < s.statuses.len()
            &&& s.statuses[id] is Pending
            &&& s.available > 0
        },
        EngineEvent::Finish { id, outcome } => {
            &&& 0 <= id < s.statuses.len()
            &&& s.statuses[id] is Running
        },
    }
}

/// The state after one event.
pub open spec fn engine_step(s: EngineState, e: EngineEvent) -> EngineState {
    match e {
        EngineEvent::Start { id } => EngineState {
            available: s.available - 1,
            statuses: s.statuses.update(id, TaskStatus::Running),
            ..s
        },
        EngineEvent::FailSpawn { id } => EngineState {
            statuses: s.statuses.update(
                id,
                TaskStatus::Completed(TaskStatusCompleted::Failed(None)),
            ),
            ..s
        },
        EngineEvent::Finish { id, outcome } => EngineState {
            available: s.available + 1,
            statuses: s.statuses.update(id, TaskStatus::Completed(outcome)),
            ..s
        },
    }
}

proof fn lemma_step_preserves_inv(s: EngineState, e: EngineEvent)
    requires
        engine_inv(s),
        event_enabled(s, e),
    ensures
        engine_inv(engine_step(s, e)),
{
    match e {
        EngineEvent::Start { id } => {
            lemma_count_running_update(s.statuses, id, TaskStatus::Running);
        },
        EngineEvent::FailSpawn { id } => {
            lemma_count_running_update(
                s.statuses,
                id,
                TaskStatus::Completed(TaskStatusCompleted::Failed(None)),
            );
        },
        EngineEvent::Finish { id, outcome } => {
            lemma_count_running_update(s.statuses, id, TaskStatus::Completed(outcome));
        },
    }
}

/// The state after a whole sequence of events.
pub open spec fn engine_run(s: EngineState, events: Seq<EngineEvent>) -> EngineState
    decreases events.len(),
{
    if events.len() == 0 {
        s
    } else {
        engine_run(engine_step(s, events[0]), events.drop_first())
    }
}

/// A trace is admissible when every event is enabled in the state it meets.
pub open spec fn trace_ok(s: EngineState, events: Seq<EngineEvent>) -> bool
    decreases events.len(),
{
    events.len() == 0 || (event_enabled(s, events[0]) && trace_ok(
        engine_step(s, events[0]),
        events.drop_first(),
    ))
}

proof fn lemma_run_preserves_inv(s: EngineState, events: Seq<EngineEvent>)
    requires
        engine_inv(s),
        trace_ok(s, events),
    ensures
        engine_inv(engine_run(s, events)),
        engine_run(s, events).capacity == s.capacity,
    decreases events.len(),
{
    if events.len() > 0 {
        lemma_step_preserves_inv(s, events[0]);
        lemma_run_preserves_inv(engine_step(s, events[0]), events.drop_first());
    }
}

proof fn lemma_trace_ok_take(s: EngineState, events: Seq<EngineEvent>, k: int)
    requires
        trace_ok(s, events),
        0 <= k <= events.len(),
    ensures
        trace_ok(s, events.take(k)),
    decreases events.len(),
{
    if events.len() > 0 && k > 0 {
        assert(events.take(k)[0] == events[0]);
        lemma_trace_ok_take(engine_step(s, events[0]), events.drop_first(), k - 1);
        assert(events.take(k).drop_first() =~= events.drop_first().take(k - 1));
    }
}

/// The parallelism cap holds at every instant: along any admissible trace of
/// a run of `n` tasks under a budget of `capacity` permits, after any prefix
/// of the trace, at most `capacity` tasks hold `Running` status.
pub proof fn lemma_parallelism_cap(capacity: int, n: nat, events: Seq<EngineEvent>)
    requires
        capacity >= 0,
        trace_ok(engine_init(capacity, n), events),
    ensures
        forall|k: int|
            0 <= k <= events.len() ==> count_running(
                #[trigger] engine_run(engine_init(capacity, n), events.take(k)).statuses,
            ) <= capacity,
{
    let init = engine_init(capacity, n);
    assert(engine_inv(init)) by {
        lemma_count_running_all_pending(init.statuses);
    }
    assert forall|k: int| 0 <= k <= events.len() implies count_running(
        #[trigger] engine_run(init, events.take(k)).statuses,
    ) <= capacity by {
        lemma_trace_ok_take(init, events, k);
        lemma_run_preserves_inv(init, events.take(k));
    }
}

} // verus!

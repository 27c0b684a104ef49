//! The task registry and the engine's decision logic: task records, status
//! transitions, exit-status classification, event application by the single
//! reporter, and assembly of the final result.

use std::collections::VecDeque;
use vstd::prelude::*;

verus! {

/// Terminal outcome of one task's process.
#[derive(Debug, Eq, PartialEq)]
pub enum TaskStatusCompleted {
    Success,
    /// The process exited with the given non-zero code, or was terminated by
    /// a signal and has no exit code (`None`).
    Failed(Option<i32>),
}

/// Lifecycle state of one task. Transitions only move forward:
/// `Pending -> Running -> Completed`, with `Pending -> Completed(Failed)`
/// allowed when the process could not be spawned at all.
#[derive(Debug, Eq, PartialEq)]
pub enum TaskStatus {
    Pending,
    Running,
    Completed(TaskStatusCompleted),
}

impl TaskStatus {
    /// A task in this state still counts towards the run's remaining work.
    pub open spec fn is_incomplete(self) -> bool {
        !(self is Completed)
    }

    /// The forward-only transition relation on task status.
    pub open spec fn can_step_to(self, next: TaskStatus) -> bool {
        match (self, next) {
            (TaskStatus::Pending, TaskStatus::Running) => true,
            (TaskStatus::Pending, TaskStatus::Completed(TaskStatusCompleted::Failed(_))) => true,
            (TaskStatus::Running, TaskStatus::Completed(_)) => true,
            _ => false,
        }
    }
}

/// Classifies a process exit code. `code` is `Some(c)` when the process
/// exited normally with code `c`, and `None` when it was terminated by a
/// signal (or could not be spawned or awaited at all).
pub fn classify_exit(code: Option<i32>) -> (r: TaskStatusCompleted)
    ensures
        r == TaskStatusCompleted::Success <==> code == Some(0i32),
        code != Some(0i32) ==> r == TaskStatusCompleted::Failed(code),
{
    match code {
        Some(0) => TaskStatusCompleted::Success,
        _ => TaskStatusCompleted::Failed(code),
    }
}

/// A message from a worker to the reporter, describing one state change or
/// one piece of captured output of the task with the given id.
pub enum TaskEvent {
    Update { id: usize, status: TaskStatus },
    Stderr { id: usize, line: String },
    Stdout { id: usize, content: String },
}

/// One registry entry: the command to run, its current status, the bounded
/// tail of its recent stderr lines, and its full captured stdout.
pub struct Task {
    pub command: String,
    pub status: TaskStatus,
    pub stderr: VecDeque<String>,
    pub stdout: String,
}

/// Appending one line to a bounded FIFO of recent lines: the new line goes to
/// the back, and the oldest line is evicted once the capacity is exceeded.
pub open spec fn push_evict(q: Seq<String>, line: String, cap: nat) -> Seq<String> {
    let grown = q.push(line);
    if grown.len() > cap {
        grown.subrange(1, grown.len() as int)
    } else {
        grown
    }
}

/// The last `cap` elements of `s` (all of `s` when it is shorter).
pub open spec fn take_last(s: Seq<String>, cap: nat) -> Seq<String> {
    if s.len() <= cap {
        s
    } else {
        s.subrange(s.len() - cap, s.len() as int)
    }
}

/// The recent-lines queue after feeding every element of `lines`, in order,
/// into a queue that starts as `q`.
pub open spec fn recent_after(q: Seq<String>, lines: Seq<String>, cap: nat) -> Seq<String>
    decreases lines.len(),
{
    if lines.len() == 0 {
        q
    } else {
        recent_after(push_evict(q, lines[0], cap), lines.drop_first(), cap)
    }
}

/// Feeding lines into a bounded queue keeps exactly the last `cap` of
/// everything seen so far, in order.
proof fn lemma_recent_after_general(q: Seq<String>, lines: Seq<String>, cap: nat)
    requires
        q.len() <= cap,
    ensures
        recent_after(q, lines, cap) == take_last(q + lines, cap),
    decreases lines.len(),
{
    if lines.len() == 0 {
        assert(q + lines =~= q);
    } else {
        let q1 = push_evict(q, lines[0], cap);
        assert(q1 =~= take_last(q.push(lines[0]), cap));
        assert(q1.len() <= cap);
        lemma_recent_after_general(q1, lines.drop_first(), cap);
        assert(q1 + lines.drop_first() =~= take_last(q.push(lines[0]), cap) + lines.drop_first());
        assert(take_last(q1 + lines.drop_first(), cap) =~= take_last(q + lines, cap)) by {
            assert(q.push(lines[0]) + lines.drop_first() =~= q + lines);
            if q.push(lines[0]).len() > cap {
                assert(q1 + lines.drop_first() =~= (q + lines).subrange(
                    1,
                    (q + lines).len() as int,
                ));
            }
        }
    }
}

/// A task that writes more lines to stderr than the configured capacity ends
/// up with exactly the last `cap` lines, in their original order: starting
/// from an empty queue, feeding all `lines` leaves `take_last(lines, cap)`.
pub proof fn lemma_recent_stderr_is_tail(lines: Seq<String>, cap: nat)
    ensures
        recent_after(Seq::empty(), lines, cap) == take_last(lines, cap),
{
    lemma_recent_after_general(Seq::empty(), lines, cap);
    assert(Seq::<String>::empty() + lines =~= lines);
}

/// How many tasks are not yet `Completed`.
pub open spec fn count_incomplete(tasks: Seq<Task>) -> int
    decreases tasks.len(),
{
    if tasks.len() == 0 {
        0
    } else {
        count_incomplete(tasks.drop_last()) + if tasks.last().status.is_incomplete() {
            1int
        } else {
            0int
        }
    }
}

proof fn lemma_count_incomplete_bounds(tasks: Seq<Task>)
    ensures
        0 <= count_incomplete(tasks) <= tasks.len(),
    decreases tasks.len(),
{
    if tasks.len() > 0 {
        lemma_count_incomplete_bounds(tasks.drop_last());
    }
}

proof fn lemma_count_incomplete_update(tasks: Seq<Task>, i: int, t: Task)
    requires
        0 <= i < tasks.len(),
    ensures
        count_incomplete(tasks.update(i, t)) == count_incomplete(tasks) + (if t.status.is_incomplete() {
            1int
        } else {
            0int
        }) - (if tasks[i].status.is_incomplete() {
            1int
        } else {
            0int
        }),
    decreases tasks.len(),
{
    let upd = tasks.update(i, t);
    if i == tasks.len() - 1 {
        assert(upd.drop_last() =~= tasks.drop_last());
        assert(upd.last() == t);
    } else {
        assert(upd.drop_last() =~= tasks.drop_last().update(i, t));
        assert(upd.last() == tasks.last());
        lemma_count_incomplete_update(tasks.drop_last(), i, t);
    }
}

proof fn lemma_count_incomplete_pos(tasks: Seq<Task>, i: int)
    requires
        0 <= i < tasks.len(),
        tasks[i].status.is_incomplete(),
    ensures
        count_incomplete(tasks) >= 1,
    decreases tasks.len(),
{
    if i == tasks.len() - 1 {
        lemma_count_incomplete_bounds(tasks.drop_last());
    } else {
        lemma_count_incomplete_pos(tasks.drop_last(), i);
    }
}

proof fn lemma_count_incomplete_all_pending(tasks: Seq<Task>)
    requires
        forall|i: int| 0 <= i < tasks.len() ==> (#[trigger] tasks[i].status).is_incomplete(),
    ensures
        count_incomplete(tasks) == tasks.len(),
    decreases tasks.len(),
{
    if tasks.len() > 0 {
        lemma_count_incomplete_all_pending(tasks.drop_last());
    }
}

/// The ordered task registry, plus the engine configuration it was built
/// with. The index of a task in `tasks` is its id: ids are therefore dense
/// `0..N` in input order, with no gaps and no duplicates.
pub struct Multiplexer {
    /// The program-invocation prefix: interpreter and its fixed arguments.
    pub program: Vec<String>,
    /// Capacity of each task's recent-stderr tail.
    pub stderr: usize,
    /// The registry, indexed by task id.
    pub tasks: Vec<Task>,
    /// The parallelism cap: how many processes may be live at once.
    pub parallelism: usize,
}

impl Multiplexer {
    /// Builds the registry: one `Pending` task per command, in input order,
    /// so that task ids are exactly the dense range `0..commands.len()`.
    pub fn new(program: Vec<String>, stderr: usize, tasks: Vec<String>, processes: usize) -> (r:
        Self)
        ensures
            r.program == program,
            r.stderr == stderr,
            r.parallelism == processes,
            r.tasks@.len() == tasks@.len(),
            forall|i: int|
                0 <= i < tasks@.len() ==> {
                    &&& (#[trigger] r.tasks@[i]).command@ == tasks@[i]@
                    &&& r.tasks@[i].status == TaskStatus::Pending
                    &&& r.tasks@[i].stderr@ == Seq::<String>::empty()
                    &&& r.tasks@[i].stdout@ == Seq::<char>::empty()
                },
    {
        let mut task_list: Vec<Task> = Vec::new();
        let n = tasks.len();
        let mut i: usize = 0;
        while i < n
            invariant
                i <= n,
                n == tasks@.len(),
                task_list@.len() == i,
                forall|j: int|
                    0 <= j < i ==> {
                        &&& (#[trigger] task_list@[j]).command@ == tasks@[j]@
                        &&& task_list@[j].status == TaskStatus::Pending
                        &&& task_list@[j].stderr@ == Seq::<String>::empty()
                        &&& task_list@[j].stdout@ == Seq::<char>::empty()
                    },
            decreases n - i,
        {
            task_list.push(
                Task {
                    command: tasks[i].clone(),
                    status: TaskStatus::Pending,
                    stderr: VecDeque::new(),
                    stdout: String::new(),
                },
            );
            i += 1;
        }
        Self { program, stderr, tasks: task_list, parallelism: processes }
    }
}

/// A point in civil time (UTC), broken down as an RFC3339-style timestamp
/// carries it, with nanosecond precision.
#[derive(Debug, Clone, Copy, PartialEq, Eq, Structural)]
pub struct Timestamp {
    pub year: u16,
    pub month: u8,
    pub day: u8,
    pub hour: u8,
    pub minute: u8,
    pub second: u8,
    pub nanos: u32,
}

impl Timestamp {
    /// Field ranges a broken-down timestamp must respect (what a four-digit
    /// RFC3339-style rendering can carry).
    pub open spec fn valid(self) -> bool {
        &&& self.year <= 9999
        &&& 1 <= self.month <= 12
        &&& 1 <= self.day <= 31
        &&& self.hour < 24
        &&& self.minute < 60
        &&& self.second < 60
        &&& self.nanos < 1_000_000_000
    }
}

/// The run's start and end instants, captured when the run begins and when
/// the completion race resolves.
#[derive(Debug, Clone, Copy, PartialEq, Eq, Structural)]
pub struct MultiplexerResultMetadata {
    pub started: Timestamp,
    pub ended: Timestamp,
}

/// The externally visible record of one task: its full captured stdout.
/// Status and recent stderr are dashboard-only and are not exported.
#[derive(Debug)]
pub struct MultiplexerResultDataTask {
    pub stdout: String,
}

/// The immutable snapshot produced once, after a non-aborted run: the run's
/// timestamps and, for every task id, that task's stdout. The index of an
/// entry in `tasks` is the task id, so the mapping is dense `0..N`.
#[derive(Debug)]
pub struct MultiplexerResult {
    pub metadata: MultiplexerResultMetadata,
    pub tasks: Vec<MultiplexerResultDataTask>,
}

/// Snapshots the final registry into the exported result: one entry per task
/// id, in id order, each holding that task's complete captured stdout.
pub fn assemble_result(tasks: &Vec<Task>, started: Timestamp, ended: Timestamp) -> (r:
    MultiplexerResult)
    ensures
        r.metadata.started == started,
        r.metadata.ended == ended,
        r.tasks@.len() == tasks@.len(),
        forall|i: int|
            0 <= i < tasks@.len() ==> (#[trigger] r.tasks@[i]).stdout@ == tasks@[i].stdout@,
{
    let mut out: Vec<MultiplexerResultDataTask> = Vec::new();
    let n = tasks.len();
    let mut i: usize = 0;
    while i < n
        invariant
            i <= n,
            n == tasks@.len(),
            out@.len() == i,
            forall|j: int|
                0 <= j < i ==> (#[trigger] out@[j]).stdout@ == tasks@[j].stdout@,
        decreases n - i,
    {
        out.push(MultiplexerResultDataTask { stdout: tasks[i].stdout.clone() });
        i += 1;
    }
    MultiplexerResult {
        metadata: MultiplexerResultMetadata { started, ended },
        tasks: out,
    }
}

/// The run-level error: the completion race was won by an external
/// interrupt, so no result is produced.
#[derive(Debug, Eq, PartialEq, Clone, Copy)]
pub enum RunError {
    Interrupted,
}

impl RunError {
    /// The single-line diagnostic the caller prints for this error.
    pub fn message(&self) -> (r: &'static str)
        ensures
            r@ == "user interrupt"@,
    {
        "user interrupt"
    }
}

/// A run as a whole: live, or resolved one of two ways. Both resolved states
/// are terminal.
#[derive(Debug, Eq, PartialEq, Clone, Copy)]
pub enum RunPhase {
    Running,
    Aborted,
    Completed,
}

/// The run's state machine: a live run may resolve to `Aborted` or to
/// `Completed`, and nothing moves after that.
pub open spec fn phase_step_ok(from: RunPhase, to: RunPhase) -> bool {
    from is Running && (to is Aborted || to is Completed)
}

/// Both resolved phases are terminal: no step leaves them.
pub proof fn lemma_resolved_phase_is_terminal(from: RunPhase, to: RunPhase)
    requires
        !(from is Running),
    ensures
        !phase_step_ok(from, to),
{
}

/// Resolves the completion race: an interrupt aborts the run and yields the
/// interruption error without a result; otherwise the run completed, and the
/// final registry is snapshotted into the full result (there is no partial
/// result on abort).
pub fn conclude_run(interrupted: bool, tasks: &Vec<Task>, started: Timestamp, ended: Timestamp)
    -> (r: Result<MultiplexerResult, RunError>)
    ensures
        r is Err <==> interrupted,
        interrupted ==> r == Result::<MultiplexerResult, RunError>::Err(RunError::Interrupted),
        !interrupted ==> {
            &&& r is Ok
            &&& r->Ok_0.metadata.started == started
            &&& r->Ok_0.metadata.ended == ended
            &&& r->Ok_0.tasks@.len() == tasks@.len()
            &&& forall|i: int|
                0 <= i < tasks@.len() ==> (#[trigger] r->Ok_0.tasks@[i]).stdout@
                    == tasks@[i].stdout@
        },
        phase_step_ok(
            RunPhase::Running,
            if interrupted {
                RunPhase::Aborted
            } else {
                RunPhase::Completed
            },
        ),
{
    if interrupted {
        Err(RunError::Interrupted)
    } else {
        Ok(assemble_result(tasks, started, ended))
    }
}

/// The single consumer of worker events. It owns the registry while the run
/// is live, applies every event to it, and tracks how many tasks have not
/// yet completed. No worker ever touches the registry directly.
pub struct TaskEventReporter {
    /// Capacity of each task's recent-stderr tail.
    pub stderr: usize,
    /// The registry, indexed by task id.
    pub tasks: Vec<Task>,
    /// How many tasks are not yet `Completed`; the run is over at zero.
    pub remaining: usize,
}

impl TaskEventReporter {
    /// Well-formedness: the remaining count is exactly the number of
    /// not-yet-completed tasks, and no recent-stderr tail exceeds its
    /// capacity.
    pub open spec fn wf(self) -> bool {
        &&& self.remaining == count_incomplete(self.tasks@)
        &&& forall|i: int|
            0 <= i < self.tasks@.len() ==> (#[trigger] self.tasks@[i]).stderr@.len()
                <= self.stderr
    }

    /// An event the reporter can accept: it names an existing task, and a
    /// status update follows the forward-only transition relation.
    pub open spec fn event_ok(self, event: TaskEvent) -> bool {
        match event {
            TaskEvent::Update { id, status } => id < self.tasks@.len()
                && self.tasks@[id as int].status.can_step_to(status),
            TaskEvent::Stderr { id, line } => id < self.tasks@.len(),
            TaskEvent::Stdout { id, content } => id < self.tasks@.len(),
        }
    }

    /// Takes over a freshly built registry, in which every task is still
    /// incomplete.
    pub fn new(stderr: usize, tasks: Vec<Task>) -> (r: Self)
        requires
            forall|i: int|
                0 <= i < tasks@.len() ==> {
                    &&& (#[trigger] tasks@[i]).status.is_incomplete()
                    &&& tasks@[i].stderr@.len() <= stderr
                },
        ensures
            r.wf(),
            r.stderr == stderr,
            r.tasks == tasks,
            r.remaining == tasks@.len(),
    {
        proof {
            lemma_count_incomplete_all_pending(tasks@);
        }
        let remaining = tasks.len();
        Self { stderr, tasks, remaining }
    }

    /// The run is complete once every task has reached `Completed`.
    pub fn is_done(&self) -> (r: bool)
        ensures
            r == (self.remaining == 0),
    {
        self.remaining == 0
    }

    /// Whether this event can be accepted: it must name an existing task,
    /// and a status update must follow the forward-only transition relation.
    pub fn accepts(&self, event: &TaskEvent) -> (r: bool)
        ensures
            r == self.event_ok(*event),
    {
        match event {
            TaskEvent::Update { id, status } => {
                *id < self.tasks.len() && (match (&self.tasks[*id].status, status) {
                    (TaskStatus::Pending, TaskStatus::Running) => true,
                    (
                        TaskStatus::Pending,
                        TaskStatus::Completed(TaskStatusCompleted::Failed(_)),
                    ) => true,
                    (TaskStatus::Running, TaskStatus::Completed(_)) => true,
                    _ => false,
                })
            },
            TaskEvent::Stderr { id, .. } => *id < self.tasks.len(),
            TaskEvent::Stdout { id, .. } => *id < self.tasks.len(),
        }
    }

    /// Applies the event when it is acceptable and says whether it did;
    /// anything else leaves the registry untouched. This is the reporter's
    /// whole consumption step: workers may die at any point, so what arrives
    /// on the channel is screened before it reaches the registry. An applied
    /// event changes the registry exactly as `apply_event` describes.
    pub fn try_apply(&mut self, event: TaskEvent) -> (applied: bool)
        requires
            old(self).wf(),
        ensures
            final(self).wf(),
            applied == old(self).event_ok(event),
            !applied ==> *final(self) == *old(self),
            applied ==> final(self).stderr == old(self).stderr && final(self).tasks@.len() == old(
                self,
            ).tasks@.len(),
            applied ==> match event {
                TaskEvent::Update { id, status } => {
                    &&& final(self).tasks@ == old(self).tasks@.update(
                        id as int,
                        (Task { status, ..old(self).tasks@[id as int] }),
                    )
                    &&& final(self).remaining == old(self).remaining - (if status is Completed {
                        1int
                    } else {
                        0int
                    })
                },
                TaskEvent::Stderr { id, line } => {
                    &&& final(self).tasks@[id as int].stderr@ == push_evict(
                        old(self).tasks@[id as int].stderr@,
                        line,
                        old(self).stderr as nat,
                    )
                    &&& final(self).tasks@[id as int].status == old(self).tasks@[id as int].status
                    &&& final(self).tasks@[id as int].command == old(self).tasks@[id as int].command
                    &&& final(self).tasks@[id as int].stdout == old(self).tasks@[id as int].stdout
                    &&& forall|j: int|
                        0 <= j < old(self).tasks@.len() && j != id ==> final(self).tasks@[j] == old(
                            self,
                        ).tasks@[j]
                    &&& final(self).remaining == old(self).remaining
                },
                TaskEvent::Stdout { id, content } => {
                    &&& final(self).tasks@ == old(self).tasks@.update(
                        id as int,
                        (Task { stdout: content, ..old(self).tasks@[id as int] }),
                    )
                    &&& final(self).remaining == old(self).remaining
                },
            },
    {
        if self.accepts(&event) {
            self.apply_event(event);
            true
        } else {
            false
        }
    }

    /// Applies one worker event to the registry: a status update is written
    /// through (and a completion decrements the remaining count), a stderr
    /// line is appended to that task's bounded tail with the oldest line
    /// evicted over capacity, and a stdout event replaces that task's stdout
    /// wholesale. No other task is touched.
    pub fn apply_event(&mut self, event: TaskEvent)
        requires
            old(self).wf(),
            old(self).event_ok(event),
        ensures
            final(self).wf(),
            final(self).stderr == old(self).stderr,
            final(self).tasks@.len() == old(self).tasks@.len(),
            match event {
                TaskEvent::Update { id, status } => {
                    &&& final(self).tasks@ == old(self).tasks@.update(
                        id as int,
                        (Task { status, ..old(self).tasks@[id as int] }),
                    )
                    &&& final(self).remaining == old(self).remaining - (if status is Completed {
                        1int
                    } else {
                        0int
                    })
                },
                TaskEvent::Stderr { id, line } => {
                    &&& final(self).tasks@[id as int].stderr@ == push_evict(
                        old(self).tasks@[id as int].stderr@,
                        line,
                        old(self).stderr as nat,
                    )
                    &&& final(self).tasks@[id as int].status == old(self).tasks@[id as int].status
                    &&& final(self).tasks@[id as int].command == old(self).tasks@[id as int].command
                    &&& final(self).tasks@[id as int].stdout == old(self).tasks@[id as int].stdout
                    &&& forall|j: int|
                        0 <= j < old(self).tasks@.len() && j != id ==> final(self).tasks@[j] == old(
                            self,
                        ).tasks@[j]
                    &&& final(self).remaining == old(self).remaining
                },
                TaskEvent::Stdout { id, content } => {
                    &&& final(self).tasks@ == old(self).tasks@.update(
                        id as int,
                        (Task { stdout: content, ..old(self).tasks@[id as int] }),
                    )
                    &&& final(self).remaining == old(self).remaining
                },
            },
    {
        match event {
            TaskEvent::Update { id, status } => {
                let completed = matches!(status, TaskStatus::Completed(_));
                proof {
                    lemma_count_incomplete_update(
                        self.tasks@,
                        id as int,
                        Task { status, ..self.tasks@[id as int] },
                    );
                    if !status.is_incomplete() {
                        lemma_count_incomplete_pos(self.tasks@, id as int);
                    }
                }
                let task = &mut self.tasks[id];
                task.status = status;
                if completed {
                    self.remaining = self.remaining - 1;
                }
            },
            TaskEvent::Stderr { id, line } => {
                let cap = self.stderr;
                let ghost pre = self.tasks@;
                let task = &mut self.tasks[id];
                task.stderr.push_back(line);
                if task.stderr.len() > cap {
                    task.stderr.pop_front();
                }
                proof {
                    lemma_count_incomplete_update(pre, id as int, self.tasks@[id as int]);
                }
            },
            TaskEvent::Stdout { id, content } => {
                proof {
                    lemma_count_incomplete_update(
                        self.tasks@,
                        id as int,
                        Task { stdout: content, ..self.tasks@[id as int] },
                    );
                }
                let task = &mut self.tasks[id];
                task.stdout = content;
            },
        }
    }
}

} // verus!

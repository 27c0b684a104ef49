//! Live runs: real child processes under the real semaphore, driven by the
//! library's registry, classification and assembly. These check the timing
//! claims — a capped run serializes, an uncapped run overlaps — and the
//! classification of real exit codes. Output capture needs pipes, which
//! this test environment does not allow; the output paths are covered by
//! the model-level tests.

use std::sync::Arc;
use std::time::Instant;

use bobr::multiplexer::{
    assemble_result, classify_exit, Multiplexer, TaskEvent, TaskEventReporter, TaskStatus,
    TaskStatusCompleted, Timestamp,
};
use tokio::sync::Semaphore;
use tokio::task::JoinSet;

fn some_time(second: u8) -> Timestamp {
    Timestamp { year: 2024, month: 5, day: 17, hour: 12, minute: 0, second, nanos: 0 }
}

/// Runs every task of the multiplexer as the engine does: one worker per
/// task gated by the permit pool, events into the single reporter. The
/// children inherit the test's output streams.
fn run_live(multiplexer: Multiplexer) -> TaskEventReporter {
    let runtime = tokio::runtime::Runtime::new().unwrap();
    runtime.block_on(async move {
        let (tx, rx) = flume::unbounded::<TaskEvent>();
        let budget = Arc::new(Semaphore::new(multiplexer.parallelism));
        let mut joins = JoinSet::new();
        for (id, task) in multiplexer.tasks.iter().enumerate() {
            let command = task.command.clone();
            let program = multiplexer.program.clone();
            let budget = budget.clone();
            let tx = tx.clone();
            joins.spawn(async move {
                let _permit = budget.acquire().await;
                let mut cmd = tokio::process::Command::new(&program[0]);
                for arg in &program[1..] {
                    cmd.arg(arg);
                }
                cmd.arg(&command);
                match cmd.spawn() {
                    Ok(mut child) => {
                        let _ = tx.send(TaskEvent::Update { id, status: TaskStatus::Running });
                        let status = match child.wait().await {
                            Ok(exit) => classify_exit(exit.code()),
                            Err(_) => TaskStatusCompleted::Failed(None),
                        };
                        let _ = tx.send(TaskEvent::Update {
                            id,
                            status: TaskStatus::Completed(status),
                        });
                    },
                    Err(_) => {
                        let _ = tx.send(TaskEvent::Update {
                            id,
                            status: TaskStatus::Completed(TaskStatusCompleted::Failed(None)),
                        });
                    },
                }
            });
        }
        drop(tx);
        let mut reporter = TaskEventReporter::new(multiplexer.stderr, multiplexer.tasks);
        while let Ok(event) = rx.recv_async().await {
            assert!(reporter.try_apply(event));
        }
        assert!(reporter.is_done());
        while joins.join_next().await.is_some() {}
        reporter
    })
}

fn shell() -> Vec<String> {
    vec![String::from("/bin/sh"), String::from("-c")]
}

#[test]
fn uncapped_sleeps_overlap() {
    let commands = vec![
        String::from("sleep 1"),
        String::from("sleep 1"),
        String::from("true"),
    ];
    let clock = Instant::now();
    let reporter = run_live(Multiplexer::new(shell(), 3, commands, 3));
    let elapsed = clock.elapsed().as_secs_f64();
    assert!(elapsed >= 1.0, "both sleeps must have finished (took {}s)", elapsed);
    assert!(elapsed < 2.0, "the sleeps must have overlapped (took {}s)", elapsed);
    for task in &reporter.tasks {
        assert_eq!(task.status, TaskStatus::Completed(TaskStatusCompleted::Success));
    }
    let result = assemble_result(&reporter.tasks, some_time(0), some_time(2));
    assert_eq!(result.tasks.len(), 3);
}

#[test]
fn parallelism_of_one_serializes_the_sleeps() {
    let commands = vec![
        String::from("sleep 0.3"),
        String::from("sleep 0.3"),
        String::from("sleep 0.3"),
    ];
    let clock = Instant::now();
    let reporter = run_live(Multiplexer::new(shell(), 3, commands, 1));
    let elapsed = clock.elapsed().as_secs_f64();
    assert!(elapsed >= 0.9, "the sleeps must have run one at a time (took {}s)", elapsed);
    assert_eq!(reporter.tasks.len(), 3);
}

#[test]
fn exit_code_seven_is_recorded_not_propagated() {
    let commands = vec![String::from("exit 7"), String::from("true")];
    let reporter = run_live(Multiplexer::new(shell(), 3, commands, 2));
    assert_eq!(
        reporter.tasks[0].status,
        TaskStatus::Completed(TaskStatusCompleted::Failed(Some(7)))
    );
    assert_eq!(reporter.tasks[1].status, TaskStatus::Completed(TaskStatusCompleted::Success));
    // the run as a whole still completed and yields a full result
    let result = assemble_result(&reporter.tasks, some_time(0), some_time(1));
    assert_eq!(result.tasks.len(), 2);
}

#[test]
fn a_command_that_cannot_spawn_fails_alone() {
    let commands = vec![String::from("true")];
    // a program path that does not exist: the spawn fails, the task is
    // classified, the run still completes
    let program = vec![String::from("/nonexistent-interpreter-for-this-test")];
    let reporter = run_live(Multiplexer::new(program, 3, commands, 1));
    assert_eq!(
        reporter.tasks[0].status,
        TaskStatus::Completed(TaskStatusCompleted::Failed(None))
    );
}

//! The engine's decision logic driven from outside: classification, the
//! registry, event application, the permit pool and the run conclusion.

use std::collections::VecDeque;

use bobr::multiplexer::{
    assemble_result, classify_exit, conclude_run, Multiplexer, RunError, Task, TaskEvent,
    TaskEventReporter, TaskStatus, TaskStatusCompleted, Timestamp,
};
use bobr::pool::PermitPool;

fn ts(hour: u8, minute: u8, second: u8, nanos: u32) -> Timestamp {
    Timestamp { year: 2024, month: 5, day: 17, hour, minute, second, nanos }
}

#[test]
fn classify_zero_exit_is_success() {
    assert_eq!(classify_exit(Some(0)), TaskStatusCompleted::Success);
}

#[test]
fn classify_nonzero_exit_is_failed_with_code() {
    assert_eq!(classify_exit(Some(7)), TaskStatusCompleted::Failed(Some(7)));
    assert_eq!(classify_exit(Some(1)), TaskStatusCompleted::Failed(Some(1)));
    assert_eq!(classify_exit(Some(-9)), TaskStatusCompleted::Failed(Some(-9)));
}

#[test]
fn classify_signal_death_is_failed_without_code() {
    assert_eq!(classify_exit(None), TaskStatusCompleted::Failed(None));
}

#[test]
fn new_registry_has_dense_ids_in_input_order() {
    let commands = vec![
        String::from("sleep 1"),
        String::from("sleep 1"),
        String::from("echo test"),
    ];
    let m = Multiplexer::new(vec![String::from("/bin/sh"), String::from("-c")], 3, commands, 3);
    assert_eq!(m.tasks.len(), 3);
    assert_eq!(m.tasks[0].command, "sleep 1");
    assert_eq!(m.tasks[1].command, "sleep 1");
    assert_eq!(m.tasks[2].command, "echo test");
    for task in &m.tasks {
        assert_eq!(task.status, TaskStatus::Pending);
        assert!(task.stderr.is_empty());
        assert_eq!(task.stdout, "");
    }
    assert_eq!(m.parallelism, 3);
    assert_eq!(m.stderr, 3);
}

#[test]
fn reporter_applies_status_updates_and_counts_down() {
    let m = Multiplexer::new(
        vec![String::from("/bin/sh"), String::from("-c")],
        3,
        vec![String::from("a"), String::from("b")],
        2,
    );
    let mut reporter = TaskEventReporter::new(m.stderr, m.tasks);
    assert_eq!(reporter.remaining, 2);
    assert!(!reporter.is_done());
    reporter.apply_event(TaskEvent::Update { id: 0, status: TaskStatus::Running });
    assert_eq!(reporter.tasks[0].status, TaskStatus::Running);
    assert_eq!(reporter.remaining, 2);
    reporter.apply_event(TaskEvent::Update {
        id: 0,
        status: TaskStatus::Completed(TaskStatusCompleted::Success),
    });
    assert_eq!(reporter.remaining, 1);
    assert!(!reporter.is_done());
    reporter.apply_event(TaskEvent::Update {
        id: 1,
        status: TaskStatus::Completed(TaskStatusCompleted::Failed(None)),
    });
    assert_eq!(reporter.remaining, 0);
    assert!(reporter.is_done());
}

#[test]
fn reporter_keeps_exactly_the_last_cap_stderr_lines_in_order() {
    let m = Multiplexer::new(
        vec![String::from("/bin/sh"), String::from("-c")],
        3,
        vec![String::from("noisy")],
        1,
    );
    let mut reporter = TaskEventReporter::new(m.stderr, m.tasks);
    for line in ["one", "two", "three", "four", "five"] {
        reporter.apply_event(TaskEvent::Stderr { id: 0, line: String::from(line) });
    }
    let got: Vec<&str> = reporter.tasks[0].stderr.iter().map(|s| s.as_str()).collect();
    assert_eq!(got, vec!["three", "four", "five"]);
}

#[test]
fn reporter_with_zero_capacity_keeps_no_stderr() {
    let m = Multiplexer::new(
        vec![String::from("/bin/sh"), String::from("-c")],
        0,
        vec![String::from("noisy")],
        1,
    );
    let mut reporter = TaskEventReporter::new(m.stderr, m.tasks);
    reporter.apply_event(TaskEvent::Stderr { id: 0, line: String::from("gone") });
    assert!(reporter.tasks[0].stderr.is_empty());
}

#[test]
fn reporter_replaces_stdout_wholesale() {
    let m = Multiplexer::new(
        vec![String::from("/bin/sh"), String::from("-c")],
        3,
        vec![String::from("echo test")],
        1,
    );
    let mut reporter = TaskEventReporter::new(m.stderr, m.tasks);
    reporter.apply_event(TaskEvent::Stdout { id: 0, content: String::from("first\n") });
    assert_eq!(reporter.tasks[0].stdout, "first\n");
    reporter.apply_event(TaskEvent::Stdout { id: 0, content: String::from("test\n") });
    assert_eq!(reporter.tasks[0].stdout, "test\n");
}

#[test]
fn three_command_run_collects_stdout_per_task() {
    // the model of a run of ["sleep 1", "sleep 1", "echo test"] at cap 3:
    // all three start, only the third writes stdout, all succeed
    let commands = vec![
        String::from("sleep 1"),
        String::from("sleep 1"),
        String::from("echo test"),
    ];
    let m = Multiplexer::new(vec![String::from("/bin/sh"), String::from("-c")], 3, commands, 3);
    let mut pool = PermitPool::new(m.parallelism);
    let mut reporter = TaskEventReporter::new(m.stderr, m.tasks);
    for id in 0..3 {
        assert!(pool.try_acquire());
        reporter.apply_event(TaskEvent::Update { id, status: TaskStatus::Running });
    }
    assert_eq!(pool.available, 0);
    reporter.apply_event(TaskEvent::Stdout { id: 2, content: String::from("test\n") });
    for id in 0..3 {
        reporter.apply_event(TaskEvent::Update {
            id,
            status: TaskStatus::Completed(TaskStatusCompleted::Success),
        });
        pool.release();
    }
    assert!(reporter.is_done());
    let started = ts(9, 0, 0, 0);
    let ended = ts(9, 0, 1, 50_000_000);
    let result = assemble_result(&reporter.tasks, started, ended);
    assert_eq!(result.tasks.len(), 3);
    assert_eq!(result.tasks[0].stdout, "");
    assert_eq!(result.tasks[1].stdout, "");
    assert_eq!(result.tasks[2].stdout, "test\n");
    assert_eq!(result.metadata.started, started);
    assert_eq!(result.metadata.ended, ended);
}

#[test]
fn reporter_screens_stale_and_malformed_events() {
    let m = Multiplexer::new(
        vec![String::from("/bin/sh"), String::from("-c")],
        3,
        vec![String::from("a")],
        1,
    );
    let mut reporter = TaskEventReporter::new(m.stderr, m.tasks);
    // unknown task id
    assert!(!reporter.try_apply(TaskEvent::Update { id: 5, status: TaskStatus::Running }));
    // a task cannot complete successfully without having run
    assert!(!reporter.try_apply(TaskEvent::Update {
        id: 0,
        status: TaskStatus::Completed(TaskStatusCompleted::Success),
    }));
    assert!(reporter.try_apply(TaskEvent::Update { id: 0, status: TaskStatus::Running }));
    // no transition backwards
    assert!(!reporter.try_apply(TaskEvent::Update { id: 0, status: TaskStatus::Pending }));
    assert!(reporter.try_apply(TaskEvent::Update {
        id: 0,
        status: TaskStatus::Completed(TaskStatusCompleted::Success),
    }));
    // completed is terminal
    assert!(!reporter.try_apply(TaskEvent::Update { id: 0, status: TaskStatus::Running }));
    assert!(reporter.is_done());
}

#[test]
fn permit_pool_never_exceeds_its_cap() {
    let mut pool = PermitPool::new(2);
    assert!(pool.try_acquire());
    assert!(pool.try_acquire());
    assert!(!pool.try_acquire());
    pool.release();
    assert!(pool.try_acquire());
    assert!(!pool.try_acquire());
}

#[test]
fn permit_pool_of_one_serializes_the_workers() {
    // the model of parallelism 1 over three commands: each next worker can
    // only start after the previous one gave its permit back
    let mut pool = PermitPool::new(1);
    for _ in 0..3 {
        assert!(pool.try_acquire());
        assert!(!pool.try_acquire());
        pool.release();
    }
    assert_eq!(pool.available, 1);
}

#[test]
fn interrupted_run_yields_error_and_no_result() {
    let tasks: Vec<Task> = vec![Task {
        command: String::from("sleep 60"),
        status: TaskStatus::Running,
        stderr: VecDeque::new(),
        stdout: String::new(),
    }];
    let outcome = conclude_run(true, &tasks, ts(1, 0, 0, 0), ts(1, 0, 5, 0));
    match outcome {
        Err(err) => {
            assert_eq!(err, RunError::Interrupted);
            assert_eq!(err.message(), "user interrupt");
        },
        Ok(_) => panic!("an interrupted run must not produce a result"),
    }
}

#[test]
fn completed_run_yields_one_entry_per_task() {
    let mut tasks: Vec<Task> = Vec::new();
    for i in 0..4 {
        tasks.push(Task {
            command: format!("job {}", i),
            status: TaskStatus::Completed(TaskStatusCompleted::Success),
            stderr: VecDeque::new(),
            stdout: format!("out {}\n", i),
        });
    }
    let outcome = conclude_run(false, &tasks, ts(2, 0, 0, 0), ts(2, 0, 9, 0));
    let result = outcome.expect("a completed run must produce a result");
    assert_eq!(result.tasks.len(), 4);
    for i in 0..4 {
        assert_eq!(result.tasks[i].stdout, format!("out {}\n", i));
    }
}

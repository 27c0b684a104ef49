//! The dashboard text and the result codec, including the serialize /
//! deserialize round trip checked against an independent JSON reader.

use std::collections::VecDeque;

use bobr::codec::{from_json, to_json};
use bobr::multiplexer::{
    MultiplexerResult, MultiplexerResultDataTask, MultiplexerResultMetadata, Task, TaskStatus,
    TaskStatusCompleted, Timestamp,
};
use bobr::render::{render_dashboard, render_status, render_task};

fn sample_task(command: &str, status: TaskStatus, stderr: &[&str], stdout: &str) -> Task {
    let mut lines = VecDeque::new();
    for line in stderr {
        lines.push_back(String::from(*line));
    }
    Task { command: String::from(command), status, stderr: lines, stdout: String::from(stdout) }
}

fn sample_result(stdouts: &[&str]) -> MultiplexerResult {
    MultiplexerResult {
        metadata: MultiplexerResultMetadata {
            started: Timestamp {
                year: 2024,
                month: 5,
                day: 17,
                hour: 9,
                minute: 30,
                second: 0,
                nanos: 123_456_789,
            },
            ended: Timestamp {
                year: 2024,
                month: 5,
                day: 17,
                hour: 9,
                minute: 30,
                second: 1,
                nanos: 500_000_000,
            },
        },
        tasks: stdouts
            .iter()
            .map(|s| MultiplexerResultDataTask { stdout: String::from(*s) })
            .collect(),
    }
}

#[test]
fn status_labels_match_the_dashboard_format() {
    assert_eq!(render_status(&TaskStatus::Pending), "PENDING");
    assert_eq!(render_status(&TaskStatus::Running), "RUNNING");
    assert_eq!(
        render_status(&TaskStatus::Completed(TaskStatusCompleted::Success)),
        "SUCCESS (0)"
    );
    assert_eq!(
        render_status(&TaskStatus::Completed(TaskStatusCompleted::Failed(Some(7)))),
        "FAILED (7)"
    );
    assert_eq!(
        render_status(&TaskStatus::Completed(TaskStatusCompleted::Failed(Some(-9)))),
        "FAILED (-9)"
    );
    assert_eq!(
        render_status(&TaskStatus::Completed(TaskStatusCompleted::Failed(None))),
        "FAILED (unknown)"
    );
}

#[test]
fn task_entry_shows_id_trimmed_command_status_and_stderr() {
    let task = sample_task(" echo hi \n", TaskStatus::Running, &["warn 1", "warn 2"], "");
    let text = render_task(3, &task);
    assert_eq!(
        text,
        "⇒ (3) echo hi\n ↳ Status: RUNNING\n ↳ Stderr: \n   |> warn 1\n   |> warn 2\n"
    );
}

#[test]
fn task_entry_without_stderr_has_no_stderr_block() {
    let task = sample_task("true", TaskStatus::Pending, &[], "");
    assert_eq!(render_task(0, &task), "⇒ (0) true\n ↳ Status: PENDING\n");
}

#[test]
fn dashboard_lists_every_task_and_marks_completion() {
    let tasks = vec![
        sample_task("true", TaskStatus::Completed(TaskStatusCompleted::Success), &[], ""),
        sample_task("false", TaskStatus::Completed(TaskStatusCompleted::Failed(Some(1))), &[], ""),
    ];
    let live = render_dashboard(&tasks, false);
    assert_eq!(
        live,
        "⇒ (0) true\n ↳ Status: SUCCESS (0)\n⇒ (1) false\n ↳ Status: FAILED (1)\n\nThinking..."
    );
    let done = render_dashboard(&tasks, true);
    assert_eq!(
        done,
        "⇒ (0) true\n ↳ Status: SUCCESS (0)\n⇒ (1) false\n ↳ Status: FAILED (1)\n\nThinking... DONE\n"
    );
}

#[test]
fn to_json_renders_the_exact_document() {
    let result = sample_result(&["", "test\n"]);
    assert_eq!(
        to_json(&result),
        "{\"metadata\":{\"started\":\"2024-05-17T09:30:00.123456789Z\",\"ended\":\"2024-05-17T09:30:01.500000000Z\"},\"tasks\":{\"0\":{\"stdout\":\"\"},\"1\":{\"stdout\":\"test\\n\"}}}"
    );
}

#[test]
fn to_json_of_an_empty_run_has_an_empty_tasks_object() {
    let result = sample_result(&[]);
    assert_eq!(
        to_json(&result),
        "{\"metadata\":{\"started\":\"2024-05-17T09:30:00.123456789Z\",\"ended\":\"2024-05-17T09:30:01.500000000Z\"},\"tasks\":{}}"
    );
}

#[test]
fn json_round_trip_is_byte_for_byte_stable() {
    let result = sample_result(&["", "test\n", "tricky \"quotes\" and \\slashes\\ and\ttabs"]);
    let first = to_json(&result);
    let read_back = from_json(&first).expect("own output must deserialize");
    assert_eq!(read_back.metadata.started, result.metadata.started);
    assert_eq!(read_back.metadata.ended, result.metadata.ended);
    assert_eq!(read_back.tasks.len(), result.tasks.len());
    for (a, b) in read_back.tasks.iter().zip(result.tasks.iter()) {
        assert_eq!(a.stdout, b.stdout);
    }
    let second = to_json(&read_back);
    assert_eq!(first.into_bytes(), second.into_bytes());
}

#[test]
fn json_round_trip_keeps_control_characters() {
    let result = sample_result(&["bel\u{7} esc\u{1b} nul\u{0}", "\r\n"]);
    let text = to_json(&result);
    let read_back = from_json(&text).expect("escaped output must deserialize");
    assert_eq!(read_back.tasks[0].stdout, "bel\u{7} esc\u{1b} nul\u{0}");
    assert_eq!(read_back.tasks[1].stdout, "\r\n");
    assert_eq!(to_json(&read_back), text);
}

#[test]
fn the_document_is_valid_json_to_an_independent_reader() {
    let result = sample_result(&["test\n", "quote \" here"]);
    let text = to_json(&result);
    let value: serde_json::Value = serde_json::from_str(&text).expect("must be valid JSON");
    assert_eq!(
        value["metadata"]["started"].as_str().unwrap(),
        "2024-05-17T09:30:00.123456789Z"
    );
    assert_eq!(value["tasks"]["0"]["stdout"].as_str().unwrap(), "test\n");
    assert_eq!(value["tasks"]["1"]["stdout"].as_str().unwrap(), "quote \" here");
}

#[test]
fn from_json_rejects_malformed_documents() {
    assert!(from_json("").is_none());
    assert!(from_json("{}").is_none());
    assert!(from_json("not json at all").is_none());
    // ids must be dense and in order
    assert!(from_json(
        "{\"metadata\":{\"started\":\"2024-05-17T09:30:00.123456789Z\",\"ended\":\"2024-05-17T09:30:01.500000000Z\"},\"tasks\":{\"1\":{\"stdout\":\"\"}}}"
    )
    .is_none());
    // trailing garbage is rejected
    assert!(from_json(
        "{\"metadata\":{\"started\":\"2024-05-17T09:30:00.123456789Z\",\"ended\":\"2024-05-17T09:30:01.500000000Z\"},\"tasks\":{}} "
    )
    .is_none());
    // timestamps must be in range
    assert!(from_json(
        "{\"metadata\":{\"started\":\"2024-13-17T09:30:00.123456789Z\",\"ended\":\"2024-05-17T09:30:01.500000000Z\"},\"tasks\":{}}"
    )
    .is_none());
}

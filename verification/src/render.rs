//! The dashboard text: what the live view shows after every event. The
//! library produces the full dashboard as plain text; putting it on the
//! terminal (alternate screen, clearing, colours) is presentation and stays
//! outside.

use crate::multiplexer::Task;
use crate::multiplexer::TaskStatus;
use crate::multiplexer::TaskStatusCompleted;
use crate::text::dec_digits;
use crate::text::i32_to_string;
use crate::text::int_digits;
use crate::text::trim;
use crate::text::trim_spec;
use crate::text::u64_to_string;
use vstd::prelude::*;

verus! {

/// The status label of one task: pending and running tasks are marked as
/// such; a completed task shows its exit code, or `unknown` when the process
/// was killed by a signal and has none.
pub open spec fn status_text(s: TaskStatus) -> Seq<char> {
    match s {
        TaskStatus::Pending => "PENDING"@,
        TaskStatus::Running => "RUNNING"@,
        TaskStatus::Completed(TaskStatusCompleted::Success) => "SUCCESS (0)"@,
        TaskStatus::Completed(TaskStatusCompleted::Failed(Some(code))) => "FAILED ("@ + int_digits(
            code as int,
        ) + ")"@,
        TaskStatus::Completed(TaskStatusCompleted::Failed(None)) => "FAILED (unknown)"@,
    }
}

/// Renders one task's status label.
pub fn render_status(s: &TaskStatus) -> (r: String)
    ensures
        r@ == status_text(*s),
{
    match s {
        TaskStatus::Pending => String::from_str("PENDING"),
        TaskStatus::Running => String::from_str("RUNNING"),
        TaskStatus::Completed(TaskStatusCompleted::Success) => String::from_str("SUCCESS (0)"),
        TaskStatus::Completed(TaskStatusCompleted::Failed(Some(code))) => {
            let mut out = String::from_str("FAILED (");
            let digits = i32_to_string(*code);
            out.append(digits.as_str());
            out.append(")");
            assert(out@ =~= status_text(TaskStatus::Completed(
                TaskStatusCompleted::Failed(Some(*code)),
            )));
            out
        },
        TaskStatus::Completed(TaskStatusCompleted::Failed(None)) => String::from_str(
            "FAILED (unknown)",
        ),
    }
}

/// The recent-stderr lines of one task, one dashboard row each.
pub open spec fn stderr_lines_text(lines: Seq<Seq<char>>) -> Seq<char>
    decreases lines.len(),
{
    if lines.len() == 0 {
        Seq::empty()
    } else {
        stderr_lines_text(lines.drop_last()) + "   |> "@ + lines.last() + "\n"@
    }
}

/// The stderr block of one task: nothing when no line was seen, otherwise a
/// header row and the recent lines.
pub open spec fn stderr_block_text(lines: Seq<Seq<char>>) -> Seq<char> {
    if lines.len() == 0 {
        Seq::empty()
    } else {
        " ↳ Stderr: \n"@ + stderr_lines_text(lines)
    }
}

/// One task's dashboard entry: its id and trimmed command, its status row,
/// and its recent stderr, if any.
pub open spec fn task_text(id: nat, t: Task) -> Seq<char> {
    "⇒ ("@ + dec_digits(id) + ") "@ + trim_spec(t.command@) + "\n ↳ Status: "@ + status_text(
        t.status,
    ) + "\n"@ + stderr_block_text(t.stderr@.map_values(|l: String| l@))
}

/// Renders one task's dashboard entry.
pub fn render_task(id: usize, t: &Task) -> (r: String)
    ensures
        r@ == task_text(id as nat, *t),
{
    let mut out = String::from_str("⇒ (");
    let digits = u64_to_string(id as u64);
    out.append(digits.as_str());
    out.append(") ");
    out.append(trim(t.command.as_str()));
    out.append("\n ↳ Status: ");
    let status = render_status(&t.status);
    out.append(status.as_str());
    out.append("\n");
    let n = t.stderr.len();
    if n > 0 {
        out.append(" ↳ Stderr: \n");
        let ghost base = out@;
        let mut i: usize = 0;
        while i < n
            invariant
                i <= n,
                n == t.stderr@.len(),
                out@ == base + stderr_lines_text(
                    t.stderr@.map_values(|l: String| l@).take(i as int),
                ),
            decreases n - i,
        {
            let ghost lines = t.stderr@.map_values(|l: String| l@);
            out.append("   |> ");
            out.append(t.stderr[i].as_str());
            out.append("\n");
            proof {
                assert(lines.take(i as int + 1).drop_last() =~= lines.take(i as int));
                assert(lines.take(i as int + 1).last() == lines[i as int]);
                assert(base + stderr_lines_text(lines.take(i as int + 1)) =~= out@);
            }
            i += 1;
        }
        proof {
            let lines = t.stderr@.map_values(|l: String| l@);
            assert(lines.take(n as int) =~= lines);
            assert(out@ =~= task_text(id as nat, *t));
        }
    } else {
        proof {
            assert(t.stderr@.map_values(|l: String| l@).len() == 0);
            assert(out@ =~= task_text(id as nat, *t));
        }
    }
    out
}

/// Every task's entry, in id order.
pub open spec fn all_tasks_text(tasks: Seq<Task>) -> Seq<char>
    decreases tasks.len(),
{
    if tasks.len() == 0 {
        Seq::empty()
    } else {
        all_tasks_text(tasks.drop_last()) + task_text((tasks.len() - 1) as nat, tasks.last())
    }
}

/// The whole dashboard: every task's entry in id order, then the footer; the
/// footer marks the final draw of a completed run.
pub open spec fn dashboard_text(tasks: Seq<Task>, completed: bool) -> Seq<char> {
    all_tasks_text(tasks) + "\nThinking..."@ + if completed {
        " DONE\n"@
    } else {
        Seq::empty()
    }
}

/// Renders the dashboard, redrawn after every event.
pub fn render_dashboard(tasks: &Vec<Task>, completed: bool) -> (r: String)
    ensures
        r@ == dashboard_text(tasks@, completed),
{
    let mut out = String::new();
    let n = tasks.len();
    let mut i: usize = 0;
    proof {
        assert(out@ =~= all_tasks_text(tasks@.take(0)));
    }
    while i < n
        invariant
            i <= n,
            n == tasks@.len(),
            out@ == all_tasks_text(tasks@.take(i as int)),
        decreases n - i,
    {
        let entry = render_task(i, &tasks[i]);
        out.append(entry.as_str());
        proof {
            assert(tasks@.take(i as int + 1).drop_last() =~= tasks@.take(i as int));
            assert(tasks@.take(i as int + 1).last() == tasks@[i as int]);
        }
        i += 1;
    }
    proof {
        assert(tasks@.take(n as int) =~= tasks@);
    }
    out.append("\nThinking...");
    if completed {
        out.append(" DONE\n");
    } else {
        proof {
            assert(out@ =~= dashboard_text(tasks@, false));
        }
    }
    out
}

} // verus!

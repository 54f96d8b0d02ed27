//! A to-do list: tasks that are added, completed by position, and listed.
use vstd::prelude::*;
use crate::text::{decimal_digits, push_decimal, push_str, str_eq, trim, trimmed};

verus! {

/// A task: its name and whether it is done.
pub struct Task {
    pub name: String,
    pub completed: bool,
}

impl View for Task {
    type V = (Seq<char>, bool);

    open spec fn view(&self) -> (Seq<char>, bool) {
        (self.name@, self.completed)
    }
}

/// The views of a list of tasks.
pub open spec fn task_views(tasks: Seq<Task>) -> Seq<(Seq<char>, bool)> {
    tasks.map_values(|t: Task| t@)
}

/// Adds a task that is not yet done at the end of the list.
pub fn add_task(tasks: &mut Vec<Task>, name: &str)
    ensures
        task_views(final(tasks)@) == task_views(old(tasks)@).push((name@, false)),
{
    let ghost before = tasks@;
    tasks.push(Task { name: name.to_owned(), completed: false });
    assert(task_views(tasks@) =~= task_views(before).push((name@, false)));
}

/// The list after completing the task at `index`: that task is marked
/// done, and an index past the end changes nothing.
pub open spec fn completed_at(tasks: Seq<(Seq<char>, bool)>, index: int) -> Seq<(Seq<char>, bool)> {
    if 0 <= index < tasks.len() {
        tasks.update(index, (tasks[index].0, true))
    } else {
        tasks
    }
}

/// Marks the task at `index` as done; an index past the end is ignored.
pub fn complete_task(tasks: &mut Vec<Task>, index: usize)
    ensures
        task_views(final(tasks)@) == completed_at(task_views(old(tasks)@), index as int),
{
    let ghost before = tasks@;
    if index < tasks.len() {
        tasks[index].completed = true;
        assert(task_views(tasks@) =~= completed_at(task_views(before), index as int));
    }
}

/// Completing a task marks it done whatever it was before, leaves every
/// other task and every name as it was, and keeps the list's length; so
/// completing the same task twice is completing it once.
pub proof fn lemma_complete_marks_done(tasks: Seq<(Seq<char>, bool)>, index: int)
    ensures
        completed_at(tasks, index).len() == tasks.len(),
        0 <= index < tasks.len() ==> completed_at(tasks, index)[index].1,
        forall|j: int|
            0 <= j < tasks.len() ==> #[trigger] completed_at(tasks, index)[j].0 == tasks[j].0,
        forall|j: int|
            0 <= j < tasks.len() && j != index ==> #[trigger] completed_at(tasks, index)[j]
                == tasks[j],
        completed_at(completed_at(tasks, index), index) == completed_at(tasks, index),
{
    if 0 <= index < tasks.len() {
        assert(completed_at(completed_at(tasks, index), index) =~= completed_at(tasks, index));
    }
}

/// The line that lists the task at `index`: its index, its name and
/// whether it is done.
pub open spec fn task_line(index: nat, task: (Seq<char>, bool)) -> Seq<char> {
    decimal_digits(index) + ": "@ + task.0 + " - "@ + if task.1 {
        "Completed"@
    } else {
        "Not Completed"@
    }
}

/// The lines that list the tasks, one per task in order.
pub fn task_lines(tasks: &Vec<Task>) -> (lines: Vec<String>)
    ensures
        lines@.len() == tasks@.len(),
        forall|i: int|
            0 <= i < lines@.len() ==> #[trigger] lines@[i]@ == task_line(i as nat, tasks@[i]@),
{
    let mut lines: Vec<String> = Vec::new();
    let mut i: usize = 0;
    while i < tasks.len()
        invariant
            i <= tasks@.len(),
            lines@.len() == i,
            forall|j: int|
                0 <= j < i ==> #[trigger] lines@[j]@ == task_line(j as nat, tasks@[j]@),
        decreases tasks@.len() - i,
    {
        let mut line = String::new();
        push_decimal(&mut line, i as u64);
        push_str(&mut line, ": ");
        push_str(&mut line, tasks[i].name.as_str());
        push_str(&mut line, " - ");
        if tasks[i].completed {
            push_str(&mut line, "Completed");
        } else {
            push_str(&mut line, "Not Completed");
        }
        assert(Seq::<char>::empty() + decimal_digits(i as nat) == decimal_digits(i as nat));
        lines.push(line);
        i = i + 1;
    }
    lines
}

/// A command of the to-do list's prompt.
#[derive(Debug, PartialEq, Eq, Structural)]
pub enum TodoCommand {
    Add,
    Complete,
    Show,
    Exit,
    Invalid,
}

/// The command that a line typed at the prompt names, once surrounding
/// whitespace is trimmed.
pub open spec fn command_named(input: Seq<char>) -> TodoCommand {
    let t = trimmed(input);
    if t == "add"@ {
        TodoCommand::Add
    } else if t == "complete"@ {
        TodoCommand::Complete
    } else if t == "show"@ {
        TodoCommand::Show
    } else if t == "exit"@ {
        TodoCommand::Exit
    } else {
        TodoCommand::Invalid
    }
}

/// Reads the command typed at the prompt.
pub fn parse_command(input: &str) -> (c: TodoCommand)
    ensures
        c == command_named(input@),
{
    let t = trim(input);
    if str_eq(t.as_str(), "add") {
        TodoCommand::Add
    } else if str_eq(t.as_str(), "complete") {
        TodoCommand::Complete
    } else if str_eq(t.as_str(), "show") {
        TodoCommand::Show
    } else if str_eq(t.as_str(), "exit") {
        TodoCommand::Exit
    } else {
        TodoCommand::Invalid
    }
}

} // verus!

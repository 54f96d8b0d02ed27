use pocket_apps::todo::{add_task, complete_task, parse_command, task_lines, Task, TodoCommand};

#[test]
fn test_add_task() {
    let mut tasks = Vec::new();
    add_task(&mut tasks, "Learn Rust");
    assert_eq!(tasks.len(), 1);
}

#[test]
fn test_complete_task() {
    let mut tasks = vec![Task {
        name: String::from("Learn Rust"),
        completed: false,
    }];
    complete_task(&mut tasks, 0);
    assert!(tasks[0].completed);
}

#[test]
fn added_task_is_pending_and_last() {
    let mut tasks = vec![Task { name: String::from("a"), completed: true }];
    add_task(&mut tasks, "b\n");
    assert_eq!(tasks.len(), 2);
    assert_eq!(tasks[0].name, "a");
    assert!(tasks[0].completed);
    assert_eq!(tasks[1].name, "b\n");
    assert!(!tasks[1].completed);
}

#[test]
fn completing_marks_only_that_task() {
    let mut tasks = Vec::new();
    add_task(&mut tasks, "one");
    add_task(&mut tasks, "two");
    add_task(&mut tasks, "three");
    complete_task(&mut tasks, 1);
    assert!(!tasks[0].completed);
    assert!(tasks[1].completed);
    assert!(!tasks[2].completed);
    assert_eq!(tasks[1].name, "two");
}

#[test]
fn completing_past_the_end_changes_nothing() {
    let mut tasks = Vec::new();
    add_task(&mut tasks, "one");
    complete_task(&mut tasks, 5);
    assert_eq!(tasks.len(), 1);
    assert!(!tasks[0].completed);
}

#[test]
fn task_lines_list_index_name_and_state() {
    let mut tasks = Vec::new();
    add_task(&mut tasks, "Learn Rust");
    add_task(&mut tasks, "Write tests");
    complete_task(&mut tasks, 1);
    let lines = task_lines(&tasks);
    assert_eq!(lines, vec!["0: Learn Rust - Not Completed", "1: Write tests - Completed"]);
}

#[test]
fn prompt_commands_are_trimmed() {
    assert_eq!(parse_command("add\n"), TodoCommand::Add);
    assert_eq!(parse_command("  complete  "), TodoCommand::Complete);
    assert_eq!(parse_command("show"), TodoCommand::Show);
    assert_eq!(parse_command("exit\r\n"), TodoCommand::Exit);
    assert_eq!(parse_command("Add"), TodoCommand::Invalid);
    assert_eq!(parse_command(""), TodoCommand::Invalid);
}

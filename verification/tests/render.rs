use todo_list::render::{render_task_line, render_task_lines};
use todo_list::task::{add_task, Task};

#[test]
fn line_shows_cross_before_pending_task() {
    let t = Task::new(String::from("buy milk"));
    assert_eq!(render_task_line(1, &t), "1. \u{274C} buy milk");
}

#[test]
fn line_shows_check_before_done_task() {
    let mut t = Task::new(String::from("buy milk"));
    t.done = true;
    assert_eq!(render_task_line(1, &t), "1. \u{2705} buy milk");
}

#[test]
fn line_numbers_print_in_decimal() {
    let t = Task::new(String::from("x"));
    assert_eq!(render_task_line(12, &t), "12. \u{274C} x");
    assert_eq!(render_task_line(305, &t), "305. \u{274C} x");
}

#[test]
fn lines_are_numbered_from_one() {
    let mut tasks: Vec<Task> = Vec::new();
    add_task(&mut tasks, String::from("first"));
    add_task(&mut tasks, String::from("second"));
    tasks[1].done = true;
    let lines = render_task_lines(&tasks);
    assert_eq!(lines.len(), 2);
    assert_eq!(lines[0], "1. \u{274C} first");
    assert_eq!(lines[1], "2. \u{2705} second");
}

use todo_list::actions::{mark_done, MarkOutcome};
use todo_list::codec::{decode_tasks, encode_tasks};
use todo_list::render::render_task_lines;
use todo_list::task::{add_task, Task};

#[test]
fn add_then_mark_then_reload_shows_the_same_state() {
    let mut tasks: Vec<Task> = Vec::new();

    add_task(&mut tasks, String::from("buy milk"));
    let lines = render_task_lines(&tasks);
    assert_eq!(lines.len(), 1);
    assert_eq!(lines[0], "1. \u{274C} buy milk");

    let outcome = mark_done(&mut tasks, "1");
    assert_eq!(outcome, MarkOutcome::Marked);
    let lines_after = render_task_lines(&tasks);
    assert_eq!(lines_after.len(), 1);
    assert_eq!(lines_after[0], "1. \u{2705} buy milk");

    let persisted = encode_tasks(&tasks);
    let reloaded = decode_tasks(&persisted).expect("the saved text should load");
    assert_eq!(reloaded.len(), 1);
    assert_eq!(reloaded[0].description, "buy milk");
    assert!(reloaded[0].done);
    let reloaded_lines = render_task_lines(&reloaded);
    assert_eq!(reloaded_lines[0], "1. \u{2705} buy milk");
}

#[test]
fn corrupt_persisted_text_loads_as_an_empty_list() {
    let corrupt = "[{\"description\":\"buy milk\",\"done\":fal";
    let loaded = decode_tasks(corrupt);
    assert!(loaded.is_none());
    let tasks: Vec<Task> = loaded.unwrap_or_default();
    assert!(tasks.is_empty());
}

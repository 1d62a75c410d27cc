use todo_list::actions::{mark_done, parse_choice, parse_index, MarkOutcome, MenuChoice};
use todo_list::task::{add_task, Task};

#[test]
fn choices_map_to_menu_entries() {
    assert_eq!(parse_choice("1"), MenuChoice::AddTask);
    assert_eq!(parse_choice("2"), MenuChoice::ShowTasks);
    assert_eq!(parse_choice("3"), MenuChoice::MarkDone);
    assert_eq!(parse_choice("4"), MenuChoice::Exit);
    assert_eq!(parse_choice("5"), MenuChoice::Invalid);
    assert_eq!(parse_choice(""), MenuChoice::Invalid);
    assert_eq!(parse_choice("12"), MenuChoice::Invalid);
    assert_eq!(parse_choice("exit"), MenuChoice::Invalid);
}

#[test]
fn parse_index_reads_plain_numbers() {
    assert_eq!(parse_index("1"), Some(1));
    assert_eq!(parse_index("42"), Some(42));
    assert_eq!(parse_index("007"), Some(7));
    assert_eq!(parse_index("+3"), Some(3));
    assert_eq!(parse_index("0"), Some(0));
}

#[test]
fn parse_index_rejects_non_numbers() {
    assert_eq!(parse_index(""), None);
    assert_eq!(parse_index("+"), None);
    assert_eq!(parse_index("abc"), None);
    assert_eq!(parse_index("2x"), None);
    assert_eq!(parse_index("-1"), None);
    assert_eq!(parse_index("1 2"), None);
    assert_eq!(parse_index("99999999999999999999999999"), None);
}

#[test]
fn new_task_is_not_done() {
    let t = Task::new(String::from("anything"));
    assert_eq!(t.description, "anything");
    assert!(!t.done);
}

#[test]
fn add_appends_at_end_not_done() {
    let mut tasks: Vec<Task> = Vec::new();
    add_task(&mut tasks, String::from("first"));
    add_task(&mut tasks, String::from("second"));
    tasks[0].done = true;
    add_task(&mut tasks, String::from("third"));
    assert_eq!(tasks.len(), 3);
    assert_eq!(tasks[0].description, "first");
    assert!(tasks[0].done);
    assert_eq!(tasks[1].description, "second");
    assert!(!tasks[1].done);
    assert_eq!(tasks[2].description, "third");
    assert!(!tasks[2].done);
}

#[test]
fn mark_done_valid_index_touches_only_that_task() {
    let mut tasks: Vec<Task> = Vec::new();
    add_task(&mut tasks, String::from("first"));
    add_task(&mut tasks, String::from("second"));
    add_task(&mut tasks, String::from("third"));
    let outcome = mark_done(&mut tasks, "2");
    assert_eq!(outcome, MarkOutcome::Marked);
    assert_eq!(tasks.len(), 3);
    assert!(!tasks[0].done);
    assert!(tasks[1].done);
    assert!(!tasks[2].done);
    assert_eq!(tasks[0].description, "first");
    assert_eq!(tasks[1].description, "second");
    assert_eq!(tasks[2].description, "third");
}

#[test]
fn mark_done_every_valid_index_works() {
    for target in 1..=3usize {
        let mut tasks: Vec<Task> = Vec::new();
        add_task(&mut tasks, String::from("a"));
        add_task(&mut tasks, String::from("b"));
        add_task(&mut tasks, String::from("c"));
        let outcome = mark_done(&mut tasks, &target.to_string());
        assert_eq!(outcome, MarkOutcome::Marked);
        for (pos, task) in tasks.iter().enumerate() {
            assert_eq!(task.done, pos + 1 == target);
        }
    }
}

#[test]
fn mark_done_out_of_range_changes_nothing() {
    let mut tasks: Vec<Task> = Vec::new();
    add_task(&mut tasks, String::from("first"));
    add_task(&mut tasks, String::from("second"));
    let outcome_zero = mark_done(&mut tasks, "0");
    assert_eq!(outcome_zero, MarkOutcome::InvalidIndex);
    let outcome_high = mark_done(&mut tasks, "3");
    assert_eq!(outcome_high, MarkOutcome::InvalidIndex);
    assert_eq!(tasks.len(), 2);
    assert!(!tasks[0].done);
    assert!(!tasks[1].done);
    assert_eq!(tasks[0].description, "first");
    assert_eq!(tasks[1].description, "second");
}

#[test]
fn mark_done_non_number_is_a_silent_no_op() {
    let mut tasks: Vec<Task> = Vec::new();
    add_task(&mut tasks, String::from("only"));
    let outcome = mark_done(&mut tasks, "abc");
    assert_eq!(outcome, MarkOutcome::NotANumber);
    let outcome_empty = mark_done(&mut tasks, "");
    assert_eq!(outcome_empty, MarkOutcome::NotANumber);
    assert_eq!(tasks.len(), 1);
    assert!(!tasks[0].done);
    assert_eq!(tasks[0].description, "only");
}

#[test]
fn mark_done_on_empty_list_never_marks() {
    let mut tasks: Vec<Task> = Vec::new();
    assert_eq!(mark_done(&mut tasks, "1"), MarkOutcome::InvalidIndex);
    assert_eq!(mark_done(&mut tasks, "x"), MarkOutcome::NotANumber);
    assert!(tasks.is_empty());
}

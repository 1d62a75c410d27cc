//! The task record and the operations of the menu that change the list:
//! adding a task and marking one done by its 1-based index.

use vstd::prelude::*;

verus! {

/// A single to-do item: a description and a completion flag.
pub struct Task {
    pub description: String,
    pub done: bool,
}

/// The mathematical value of a [`Task`]: the description's characters and
/// the completion flag.
pub ghost struct TaskView {
    pub description: Seq<char>,
    pub done: bool,
}

impl View for Task {
    type V = TaskView;

    open spec fn view(&self) -> TaskView {
        TaskView { description: self.description@, done: self.done }
    }
}

impl DeepView for Task {
    type V = TaskView;

    open spec fn deep_view(&self) -> TaskView {
        self@
    }
}

impl Task {
    /// A freshly created task keeps the given description and is not done.
    pub fn new(description: String) -> (t: Task)
        ensures
            t@.description == description@,
            !t@.done,
    {
        Task { description, done: false }
    }
}

/// Appends a new, not-yet-done task with the given description at the end
/// of the list; every task already present keeps its place and its value.
pub fn add_task(tasks: &mut Vec<Task>, description: String)
    ensures
        final(tasks).deep_view() == old(tasks).deep_view().push(
            TaskView { description: description@, done: false },
        ),
{
    let t = Task::new(description);
    tasks.push(t);
    proof {
        assert(tasks.deep_view() =~= old(tasks).deep_view().push(
            TaskView { description: description@, done: false },
        ));
    }
}

} // verus!

use vstd::prelude::*;

verus! {

/// One task record as persisted in the data file.
#[derive(Debug)]
pub struct Task {
    pub title: String,
    pub description: String,
    pub completed: bool,
}

/// The mathematical content of a task: both text fields as character
/// sequences, plus the completion flag.
pub ghost struct TaskView {
    pub title: Seq<char>,
    pub description: Seq<char>,
    pub completed: bool,
}

impl View for Task {
    type V = TaskView;

    open spec fn view(&self) -> TaskView {
        TaskView { title: self.title@, description: self.description@, completed: self.completed }
    }
}

/// A fresh task with the given texts; a new task is never completed.
pub open spec fn new_task_view(title: Seq<char>, description: Seq<char>) -> TaskView {
    TaskView { title, description, completed: false }
}

/// The views of the records of a collection, in order.
pub open spec fn views_of(tasks: Seq<Task>) -> Seq<TaskView> {
    tasks.map_values(|t: Task| t@)
}

impl Task {
    /// Builds a fresh task with `completed` set to false.
    pub fn new(title: String, description: String) -> (r: Task)
        ensures
            r@ == new_task_view(title@, description@),
    {
        Task { title, description, completed: false }
    }
}

} // verus!

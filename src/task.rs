//! A task and its mathematical value.
use vstd::prelude::*;

verus! {

/// The mathematical value of a task.
pub struct TaskView {
    pub id: nat,
    pub description: Seq<char>,
    pub done: bool,
}

/// One tracked item: its identifier, its text and whether it is completed.
#[derive(Debug, Clone, PartialEq, Eq)]
pub struct Todo {
    pub id: usize,
    pub description: String,
    pub done: bool,
}

impl View for Todo {
    type V = TaskView;

    open spec fn view(&self) -> TaskView {
        TaskView { id: self.id as nat, description: self.description@, done: self.done }
    }
}

} // verus!

//! Tasks: the units of work of a project.

use vstd::prelude::*;

verus! {

/// The mathematical content of a [`Task`].
pub struct TaskView {
    /// The task's identifier.
    pub id: Seq<char>,
    /// The identifiers of the tasks that must be started before this one.
    pub dependencies: Seq<Seq<char>>,
    /// The least duration of the task, in nanoseconds.
    pub min_time: u128,
    /// The greatest duration of the task, in nanoseconds.
    pub max_time: u128,
}

/// A unit of work with an identifier, a duration range and dependencies.
///
/// Durations are whole nanoseconds.
#[derive(Debug, Clone)]
pub struct Task {
    pub id: String,
    pub dependencies: Vec<String>,
    pub min_time: u128,
    pub max_time: u128,
}

impl View for Task {
    type V = TaskView;

    open spec fn view(&self) -> TaskView {
        TaskView {
            id: self.id@,
            dependencies: self.dependencies@.map_values(|d: String| d@),
            min_time: self.min_time,
            max_time: self.max_time,
        }
    }
}

impl Task {
    /// Builds a task from its identifier, its dependencies and its duration
    /// bounds. Nothing is checked here: a task is judged as part of a
    /// schedule.
    pub fn new(id: &str, dependencies: Vec<String>, min_time: u128, max_time: u128) -> (task: Self)
        ensures
            task.id@ == id@,
            task.dependencies == dependencies,
            task.min_time == min_time,
            task.max_time == max_time,
            task@ == (TaskView {
                id: id@,
                dependencies: dependencies@.map_values(|d: String| d@),
                min_time,
                max_time,
            }),
    {
        Task { id: String::from_str(id), dependencies, min_time, max_time }
    }
}

} // verus!

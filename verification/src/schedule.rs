//! Schedules: a list of tasks, a pool of workers and a confidence level,
//! and the rules that a schedule has to meet before it is simulated.

use crate::graph::{
    acyclic, edges_in_range, find_cycle, first_met_again, graph_of, on_cycle,
};
use crate::task::{Task, TaskView};
use vstd::hash_map::StringHashMap;
use vstd::prelude::*;

verus! {

/// The confidence level that stands for certainty. A schedule's confidence
/// is given in millionths and lies strictly between zero and this.
pub const FULL_CONFIDENCE: u32 = 1_000_000;

/// The mathematical content of a [`Schedule`].
pub struct ScheduleView {
    /// The tasks, in the order in which they were given.
    pub tasks: Seq<TaskView>,
    /// How many workers there are.
    pub num_workers: nat,
    /// The probability, in millionths, that a task's duration lies within
    /// its bounds.
    pub estimate_confidence: nat,
}

/// The index of the task that `name` stands for: the last task of that
/// identifier, or `-1` where no task has it.
pub open spec fn position_of(tasks: Seq<TaskView>, name: Seq<char>) -> int
    decreases tasks.len(),
{
    if tasks.len() == 0 {
        -1
    } else if tasks.last().id == name {
        tasks.len() - 1
    } else {
        position_of(tasks.drop_last(), name)
    }
}

/// The dependency graph of a task list: node `i` is task `i`, with an edge
/// to the task that each of its dependencies stands for.
pub open spec fn dependency_graph(tasks: Seq<TaskView>) -> Seq<Seq<int>> {
    Seq::new(
        tasks.len(),
        |i: int|
            Seq::new(
                tasks[i].dependencies.len(),
                |k: int| position_of(tasks, tasks[i].dependencies[k]),
            ),
    )
}

/// The bounds of a task are in order: `0 < min_time <= max_time`.
pub open spec fn bounds_in_order(task: TaskView) -> bool {
    0 < task.min_time <= task.max_time
}

/// Dependency `k` of task `i` names no task of the list.
pub open spec fn dependency_missing(tasks: Seq<TaskView>, i: int, k: int) -> bool {
    position_of(tasks, tasks[i].dependencies[k]) < 0
}

/// Each dependency of task `i` names a task of the list.
pub open spec fn dependencies_known(tasks: Seq<TaskView>, i: int) -> bool {
    forall|k: int| 0 <= k < tasks[i].dependencies.len() ==> !dependency_missing(tasks, i, k)
}

/// Task `i` is sound: its bounds are in order and each of its dependencies
/// names a task of the list.
pub open spec fn task_sound(tasks: Seq<TaskView>, i: int) -> bool {
    &&& bounds_in_order(tasks[i])
    &&& dependencies_known(tasks, i)
}

/// The message for a task whose least duration exceeds its greatest.
pub open spec fn min_above_max_message(task: Seq<char>) -> Seq<char> {
    "Minimum duration greater than maximum for task "@ + task
}

/// The message for a task with a duration bound that is not positive.
pub open spec fn invalid_duration_message(task: Seq<char>) -> Seq<char> {
    "Invalid task duration for task "@ + task
}

/// The message for a dependency that names no task.
pub open spec fn missing_dependency_message(dependency: Seq<char>, task: Seq<char>) -> Seq<char> {
    "Missing dependency "@ + dependency + " for task "@ + task
}

/// The message for a task that lies on a cycle of dependencies.
pub open spec fn cyclic_dependency_message(task: Seq<char>) -> Seq<char> {
    "Cyclic dependency detected involving task "@ + task
}

/// `message` reports what is wrong with the bounds of a task whose bounds
/// are not in order: that the least duration exceeds the greatest, or else
/// that a bound is not positive.
pub open spec fn bounds_fault(task: TaskView, message: Seq<char>) -> bool {
    if task.min_time > task.max_time {
        message == min_above_max_message(task.id)
    } else {
        message == invalid_duration_message(task.id)
    }
}

/// `message` reports the first dependency of task `i` that names no task.
pub open spec fn dependency_fault(tasks: Seq<TaskView>, i: int, message: Seq<char>) -> bool {
    exists|k: int|
        {
            &&& 0 <= k < tasks[i].dependencies.len()
            &&& #[trigger] dependency_missing(tasks, i, k)
            &&& forall|j: int| 0 <= j < k ==> !dependency_missing(tasks, i, j)
            &&& message == missing_dependency_message(tasks[i].dependencies[k], tasks[i].id)
        }
}

impl ScheduleView {
    /// The bounds of every task are in order.
    pub open spec fn bounds_sound(self) -> bool {
        forall|i: int| 0 <= i < self.tasks.len() ==> bounds_in_order(#[trigger] self.tasks[i])
    }

    /// Every dependency of every task names a task of the list.
    pub open spec fn dependencies_sound(self) -> bool {
        forall|i: int| 0 <= i < self.tasks.len() ==> dependencies_known(self.tasks, i)
    }

    /// Every task is sound.
    pub open spec fn tasks_sound(self) -> bool {
        forall|i: int| 0 <= i < self.tasks.len() ==> task_sound(self.tasks, i)
    }

    /// The confidence lies strictly between zero and one.
    pub open spec fn confidence_in_range(self) -> bool {
        0 < self.estimate_confidence < FULL_CONFIDENCE
    }

    /// What a schedule has to meet before it is simulated: there is a task
    /// and a worker, every task has bounds in order and dependencies that
    /// name tasks, no task depends on itself by any chain of dependencies,
    /// and the confidence is a probability other than zero and one.
    pub open spec fn valid(self) -> bool {
        &&& self.tasks.len() > 0
        &&& self.num_workers >= 1
        &&& self.tasks_sound()
        &&& acyclic(dependency_graph(self.tasks))
        &&& self.confidence_in_range()
    }

    /// `message` is what validation says of this schedule: the message of
    /// the first check that fails, the checks being made in this order.
    /// The task list is not empty. There is a worker. The bounds of every
    /// task are in order: the message is for the first task whose bounds
    /// are not. Every dependency names a task: the message is for the
    /// first task with such a dependency, and for the first such
    /// dependency of it. No task lies on a cycle: the message names the
    /// task that the search for cycles meets again. The confidence is in
    /// range.
    pub open spec fn rejected_with(self, message: Seq<char>) -> bool {
        if self.tasks.len() == 0 {
            message == "Empty task list"@
        } else if self.num_workers == 0 {
            message == "Invalid number of workers (must be 1 or more)"@
        } else if !self.bounds_sound() {
            exists|i: int|
                {
                    &&& 0 <= i < self.tasks.len()
                    &&& !bounds_in_order(#[trigger] self.tasks[i])
                    &&& forall|j: int| 0 <= j < i ==> bounds_in_order(#[trigger] self.tasks[j])
                    &&& bounds_fault(self.tasks[i], message)
                }
        } else if !self.dependencies_sound() {
            exists|i: int|
                {
                    &&& 0 <= i < self.tasks.len()
                    &&& !#[trigger] dependencies_known(self.tasks, i)
                    &&& forall|j: int| 0 <= j < i ==> dependencies_known(self.tasks, j)
                    &&& dependency_fault(self.tasks, i, message)
                }
        } else if !acyclic(dependency_graph(self.tasks)) {
            exists|v: int|
                {
                    &&& 0 <= v < self.tasks.len()
                    &&& #[trigger] on_cycle(dependency_graph(self.tasks), v)
                    &&& first_met_again(dependency_graph(self.tasks)) == Some(v)
                    &&& message == cyclic_dependency_message(self.tasks[v].id)
                }
        } else if !self.confidence_in_range() {
            message == "Invalid estimate confidence (must be between 0 and 1)"@
        } else {
            false
        }
    }
}

/// A project: its tasks, the number of workers and the confidence of the
/// estimates, in millionths.
///
/// The fields are open, so a schedule can be put together by hand;
/// [`Schedule::new`] hands out only schedules that are valid.
#[derive(Debug)]
pub struct Schedule {
    pub tasks: Vec<Task>,
    pub num_workers: usize,
    pub estimate_confidence: u32,
}

impl View for Schedule {
    type V = ScheduleView;

    open spec fn view(&self) -> ScheduleView {
        ScheduleView {
            tasks: task_views(self.tasks@),
            num_workers: self.num_workers as nat,
            estimate_confidence: self.estimate_confidence as nat,
        }
    }
}

/// The views of a list of tasks.
pub open spec fn task_views(tasks: Seq<Task>) -> Seq<TaskView> {
    tasks.map_values(|t: Task| t@)
}

/// `position_of` finds the last task with the identifier, if there is one.
pub proof fn lemma_position_of(tasks: Seq<TaskView>, name: Seq<char>)
    ensures
        -1 <= position_of(tasks, name) < tasks.len(),
        position_of(tasks, name) >= 0 ==> tasks[position_of(tasks, name)].id == name,
        forall|j: int|
            position_of(tasks, name) < j < tasks.len() ==> (#[trigger] tasks[j]).id != name,
    decreases tasks.len(),
{
    if tasks.len() > 0 && tasks.last().id != name {
        lemma_position_of(tasks.drop_last(), name);
        assert forall|j: int| position_of(tasks, name) < j < tasks.len() implies (#[trigger] tasks[j]).id
            != name by {
            if j < tasks.len() - 1 {
                assert(tasks.drop_last()[j].id != name);
            }
        }
    }
}

/// In a list whose tasks are all sound, every dependency edge ends at a
/// task of the list.
pub proof fn lemma_sound_tasks_have_edges_in_range(tasks: Seq<TaskView>)
    requires
        forall|i: int| 0 <= i < tasks.len() ==> task_sound(tasks, i),
    ensures
        edges_in_range(dependency_graph(tasks)),
{
    let g = dependency_graph(tasks);
    assert forall|i: int, k: int| 0 <= i < g.len() && 0 <= k < g[i].len() implies 0 <= #[trigger] g[i][k]
        < g.len() by {
        assert(task_sound(tasks, i));
        assert(!dependency_missing(tasks, i, k));
        lemma_position_of(tasks, tasks[i].dependencies[k]);
    }
}

/// `index` maps each identifier of a task of the list, and no other name,
/// to the index of the task that it stands for.
pub open spec fn is_index_of(index: Map<Seq<char>, usize>, tasks: Seq<TaskView>) -> bool {
    &&& forall|name: Seq<char>|
        (#[trigger] index.contains_key(name)) <==> position_of(tasks, name) >= 0
    &&& forall|name: Seq<char>|
        (#[trigger] index.contains_key(name)) ==> index[name] == position_of(tasks, name)
}

/// Maps each identifier to the index of the task that it stands for.
pub fn index_by_id(tasks: &Vec<Task>) -> (index: StringHashMap<usize>)
    ensures
        is_index_of(index@, task_views(tasks@)),
{
    let ghost views = task_views(tasks@);
    let mut index: StringHashMap<usize> = StringHashMap::new();
    let mut i: usize = 0;
    while i < tasks.len()
        invariant
            i <= tasks.len(),
            views == task_views(tasks@),
            is_index_of(index@, views.take(i as int)),
        decreases tasks.len() - i,
    {
        let ghost before = index@;
        index.insert(tasks[i].id.clone(), i);
        proof {
            let next = views.take(i as int + 1);
            assert(next.drop_last() =~= views.take(i as int));
            assert(next.last().id == tasks@[i as int].id@);
            assert forall|name: Seq<char>|
                (#[trigger] index@.contains_key(name)) <==> position_of(next, name) >= 0 by {
                assert(before.contains_key(name) <==> position_of(views.take(i as int), name) >= 0);
            }
            assert forall|name: Seq<char>| #[trigger] index@.contains_key(name) implies index@[name]
                == position_of(next, name) by {
                if name != tasks@[i as int].id@ {
                    assert(before.contains_key(name));
                }
            }
        }
        i += 1;
    }
    assert(views.take(tasks.len() as int) =~= views);
    index
}

/// Looks up the dependencies of task `i`. `Ok` holds the indices of the
/// tasks that they stand for; `Err` holds the position of the first
/// dependency that names no task.
pub fn resolve_dependencies(
    tasks: &Vec<Task>,
    index: &StringHashMap<usize>,
    i: usize,
) -> (r: Result<Vec<usize>, usize>)
    requires
        i < tasks.len(),
        is_index_of(index@, task_views(tasks@)),
    ensures
        match r {
            Ok(row) => {
                &&& row@.len() == tasks@[i as int].dependencies@.len()
                &&& forall|k: int|
                    0 <= k < row@.len() ==> #[trigger] row@[k] as int == position_of(
                        task_views(tasks@),
                        tasks@[i as int].dependencies@[k]@,
                    )
                &&& forall|k: int|
                    0 <= k < row@.len() ==> !dependency_missing(task_views(tasks@), i as int, k)
            },
            Err(k) => {
                &&& k < tasks@[i as int].dependencies@.len()
                &&& dependency_missing(task_views(tasks@), i as int, k as int)
                &&& forall|j: int|
                    0 <= j < k ==> !dependency_missing(task_views(tasks@), i as int, j)
            },
        },
{
    let ghost views = task_views(tasks@);
    let task = &tasks[i];
    let mut row: Vec<usize> = Vec::new();
    let mut k: usize = 0;
    while k < task.dependencies.len()
        invariant
            i < tasks.len(),
            task == &tasks@[i as int],
            views == task_views(tasks@),
            k <= task.dependencies@.len(),
            row@.len() == k,
            is_index_of(index@, views),
            forall|j: int|
                0 <= j < k ==> #[trigger] row@[j] as int == position_of(
                    views,
                    task.dependencies@[j]@,
                ),
            forall|j: int| 0 <= j < k ==> !dependency_missing(views, i as int, j),
        decreases task.dependencies@.len() - k,
    {
        let ghost name = task.dependencies@[k as int]@;
        assert(views[i as int].dependencies[k as int] == name);
        assert(index@.contains_key(name) <==> position_of(views, name) >= 0);
        match index.get(task.dependencies[k].as_str()) {
            None => {
                return Err(k);
            },
            Some(j) => {
                row.push(*j);
            },
        }
        k += 1;
    }
    Ok(row)
}

/// The text `head` followed by `name`.
fn message_about(head: &str, name: &str) -> (message: String)
    ensures
        message@ == head@ + name@,
{
    let mut message = String::from_str(head);
    message.append(name);
    message
}

/// The message for a dependency that names no task.
fn missing_dependency(dependency: &str, task: &str) -> (message: String)
    ensures
        message@ == missing_dependency_message(dependency@, task@),
{
    let mut message = String::from_str("Missing dependency ");
    message.append(dependency);
    message.append(" for task ");
    message.append(task);
    message
}

impl Schedule {
    /// Builds a schedule and validates it. The schedule is handed out only
    /// if it is valid; otherwise the result is what [`Schedule::validate`]
    /// says of it.
    pub fn new(
        tasks: Vec<Task>,
        num_workers: usize,
        estimate_confidence: u32,
    ) -> (r: Result<Self, String>)
        ensures
            match r {
                Ok(schedule) => {
                    &&& schedule.tasks == tasks
                    &&& schedule.num_workers == num_workers
                    &&& schedule.estimate_confidence == estimate_confidence
                    &&& schedule@.valid()
                },
                Err(message) => (Schedule {
                    tasks,
                    num_workers,
                    estimate_confidence,
                })@.rejected_with(message@),
            },
            r is Ok <==> (Schedule { tasks, num_workers, estimate_confidence })@.valid(),
    {
        let schedule = Schedule { tasks, num_workers, estimate_confidence };
        match schedule.validate() {
            Ok(()) => Ok(schedule),
            Err(message) => Err(message),
        }
    }

    /// The dependencies of each task, as indices into the task list.
    pub fn dependency_lists(&self) -> (adj: Vec<Vec<usize>>)
        requires
            self@.tasks_sound(),
        ensures
            graph_of(adj@) == dependency_graph(self@.tasks),
            edges_in_range(graph_of(adj@)),
    {
        let ghost views = self@.tasks;
        let index = index_by_id(&self.tasks);
        let mut adj: Vec<Vec<usize>> = Vec::new();
        let mut i: usize = 0;
        while i < self.tasks.len()
            invariant
                i <= self.tasks.len(),
                self@.tasks_sound(),
                views == self@.tasks,
                views == task_views(self.tasks@),
                adj@.len() == i,
                is_index_of(index@, views),
                forall|j: int|
                    0 <= j < i ==> (#[trigger] adj@[j])@.len() == views[j].dependencies.len(),
                forall|j: int, k: int|
                    0 <= j < i && 0 <= k < adj@[j]@.len() ==> #[trigger] adj@[j]@[k] as int
                        == position_of(views, views[j].dependencies[k]),
            decreases self.tasks.len() - i,
        {
            assert(task_sound(views, i as int));
            let row = match resolve_dependencies(&self.tasks, &index, i) {
                Ok(row) => row,
                Err(_) => Vec::new(),
            };
            assert forall|k: int| 0 <= k < row@.len() implies #[trigger] row@[k] as int == position_of(
                views,
                views[i as int].dependencies[k],
            ) by {
                assert(views[i as int].dependencies[k] == self.tasks@[i as int].dependencies@[k]@);
            }
            adj.push(row);
            i += 1;
        }
        proof {
            lemma_sound_tasks_have_edges_in_range(views);
            assert(graph_of(adj@) =~~= dependency_graph(views));
        }
        adj
    }

    /// Checks the schedule and reports the first check that fails.
    ///
    /// The result is `Ok` exactly when the schedule is valid. Otherwise
    /// the message is that of the first failing check, in the order given
    /// at [`ScheduleView::rejected_with`].
    pub fn validate(&self) -> (r: Result<(), String>)
        ensures
            r is Ok <==> self@.valid(),
            r matches Err(message) ==> self@.rejected_with(message@),
    {
        let ghost views = self@.tasks;
        if self.tasks.len() == 0 {
            return Err(String::from_str("Empty task list"));
        }
        if self.num_workers == 0 {
            return Err(String::from_str("Invalid number of workers (must be 1 or more)"));
        }
        let mut i: usize = 0;
        while i < self.tasks.len()
            invariant
                i <= self.tasks.len(),
                self.num_workers != 0,
                views == self@.tasks,
                views == task_views(self.tasks@),
                forall|j: int| 0 <= j < i ==> bounds_in_order(#[trigger] views[j]),
            decreases self.tasks.len() - i,
        {
            let task = &self.tasks[i];
            assert(views[i as int] == task@);
            if task.min_time > task.max_time {
                let message = message_about(
                    "Minimum duration greater than maximum for task ",
                    task.id.as_str(),
                );
                assert(!bounds_in_order(views[i as int]));
                assert(!task_sound(views, i as int));
                return Err(message);
            }
            if task.min_time == 0 || task.max_time == 0 {
                let message = message_about("Invalid task duration for task ", task.id.as_str());
                assert(!bounds_in_order(views[i as int]));
                assert(!task_sound(views, i as int));
                return Err(message);
            }
            i += 1;
        }
        assert(self@.bounds_sound());
        let index = index_by_id(&self.tasks);
        let mut adj: Vec<Vec<usize>> = Vec::new();
        let mut i: usize = 0;
        while i < self.tasks.len()
            invariant
                i <= self.tasks.len(),
                self.num_workers != 0,
                self@.bounds_sound(),
                views == self@.tasks,
                views == task_views(self.tasks@),
                adj@.len() == i,
                is_index_of(index@, views),
                forall|j: int| 0 <= j < i ==> dependencies_known(views, j),
                forall|j: int|
                    0 <= j < i ==> (#[trigger] adj@[j])@.len() == views[j].dependencies.len(),
                forall|j: int, k: int|
                    0 <= j < i && 0 <= k < adj@[j]@.len() ==> #[trigger] adj@[j]@[k] as int
                        == position_of(views, views[j].dependencies[k]),
            decreases self.tasks.len() - i,
        {
            let task = &self.tasks[i];
            assert(views[i as int] == task@);
            match resolve_dependencies(&self.tasks, &index, i) {
                Err(k) => {
                    let message = missing_dependency(
                        task.dependencies[k].as_str(),
                        task.id.as_str(),
                    );
                    assert(views[i as int].dependencies[k as int] == task.dependencies@[k as int]@);
                    assert(dependency_fault(views, i as int, message@));
                    assert(!dependencies_known(views, i as int));
                    assert(!task_sound(views, i as int));
                    return Err(message);
                },
                Ok(row) => {
                    assert(dependencies_known(views, i as int));
                    assert forall|k: int| 0 <= k < row@.len() implies #[trigger] row@[k] as int
                        == position_of(views, views[i as int].dependencies[k]) by {
                        assert(views[i as int].dependencies[k] == task.dependencies@[k]@);
                    }
                    adj.push(row);
                },
            }
            i += 1;
        }
        assert(self@.dependencies_sound());
        assert(self@.tasks_sound()) by {
            assert forall|j: int| 0 <= j < views.len() implies task_sound(views, j) by {
                assert(bounds_in_order(views[j]));
                assert(dependencies_known(views, j));
            }
        }
        proof {
            lemma_sound_tasks_have_edges_in_range(views);
            assert(graph_of(adj@) =~~= dependency_graph(views));
        }
        match find_cycle(&adj) {
            Some(v) => {
                let message = message_about(
                    "Cyclic dependency detected involving task ",
                    self.tasks[v].id.as_str(),
                );
                assert(views[v as int].id == self.tasks@[v as int].id@);
                assert(on_cycle(dependency_graph(views), v as int));
                return Err(message);
            },
            None => {},
        }
        if self.estimate_confidence == 0 || self.estimate_confidence >= FULL_CONFIDENCE {
            return Err(String::from_str("Invalid estimate confidence (must be between 0 and 1)"));
        }
        Ok(())
    }
}

/// Every task is sound exactly when the bounds of every task are in order
/// and every dependency names a task.
pub proof fn lemma_sound_tasks(schedule: ScheduleView)
    ensures
        schedule.tasks_sound() <==> schedule.bounds_sound() && schedule.dependencies_sound(),
{
    if schedule.tasks_sound() {
        assert forall|i: int| 0 <= i < schedule.tasks.len() implies bounds_in_order(
            #[trigger] schedule.tasks[i],
        ) by {
            assert(task_sound(schedule.tasks, i));
        }
        assert forall|i: int| 0 <= i < schedule.tasks.len() implies dependencies_known(
            schedule.tasks,
            i,
        ) by {
            assert(task_sound(schedule.tasks, i));
        }
    }
    if schedule.bounds_sound() && schedule.dependencies_sound() {
        assert forall|i: int| 0 <= i < schedule.tasks.len() implies task_sound(
            schedule.tasks,
            i,
        ) by {
            assert(bounds_in_order(schedule.tasks[i]));
            assert(dependencies_known(schedule.tasks, i));
        }
    }
}

/// Validation has one outcome: a valid schedule is rejected with no
/// message.
pub proof fn lemma_valid_is_not_rejected(schedule: ScheduleView, message: Seq<char>)
    requires
        schedule.valid(),
    ensures
        !schedule.rejected_with(message),
{
    lemma_sound_tasks(schedule);
}

/// Validation says one thing of a schedule: a schedule is rejected with at
/// most one message, so that validating it again gives the same result.
pub proof fn lemma_rejection_is_unique(schedule: ScheduleView, first: Seq<char>, second: Seq<char>)
    requires
        schedule.rejected_with(first),
        schedule.rejected_with(second),
    ensures
        first == second,
{
    let tasks = schedule.tasks;
    if tasks.len() == 0 || schedule.num_workers == 0 {
    } else if !schedule.bounds_sound() {
        let a = choose|i: int|
            {
                &&& 0 <= i < tasks.len()
                &&& !bounds_in_order(#[trigger] tasks[i])
                &&& forall|j: int| 0 <= j < i ==> bounds_in_order(#[trigger] tasks[j])
                &&& bounds_fault(tasks[i], first)
            };
        lemma_bounds_come_first(schedule, a, second);
    } else if !schedule.dependencies_sound() {
        let a = choose|i: int|
            {
                &&& 0 <= i < tasks.len()
                &&& !#[trigger] dependencies_known(tasks, i)
                &&& forall|j: int| 0 <= j < i ==> dependencies_known(tasks, j)
                &&& dependency_fault(tasks, i, first)
            };
        let k = choose|k: int|
            {
                &&& 0 <= k < tasks[a].dependencies.len()
                &&& #[trigger] dependency_missing(tasks, a, k)
                &&& forall|j: int| 0 <= j < k ==> !dependency_missing(tasks, a, j)
                &&& first == missing_dependency_message(tasks[a].dependencies[k], tasks[a].id)
            };
        lemma_missing_dependency_is_named(schedule, a, k, second);
    }
}

/// A schedule that has a task and a worker, sound tasks, a confidence in
/// range and no cycle is valid: validation accepts it.
pub proof fn lemma_acyclic_is_accepted(schedule: ScheduleView)
    requires
        schedule.tasks.len() > 0,
        schedule.num_workers >= 1,
        schedule.tasks_sound(),
        schedule.confidence_in_range(),
        acyclic(dependency_graph(schedule.tasks)),
    ensures
        schedule.valid(),
{
}

/// A schedule with a task that lies on a cycle, be it a task that depends
/// on itself, is not valid. Where it has a task and a worker and its tasks
/// are sound, the message that it is rejected with names a task on a
/// cycle.
pub proof fn lemma_cycle_is_rejected(schedule: ScheduleView, v: int, message: Seq<char>)
    requires
        0 <= v < schedule.tasks.len(),
        on_cycle(dependency_graph(schedule.tasks), v),
    ensures
        !schedule.valid(),
        schedule.num_workers >= 1 && schedule.tasks_sound() && schedule.rejected_with(message)
            ==> exists|u: int|
            {
                &&& 0 <= u < schedule.tasks.len()
                &&& #[trigger] on_cycle(dependency_graph(schedule.tasks), u)
                &&& message == cyclic_dependency_message(schedule.tasks[u].id)
            },
{
    lemma_sound_tasks(schedule);
}

/// A schedule with a dependency that names no task is not valid.
pub proof fn lemma_missing_dependency_is_rejected(schedule: ScheduleView, i: int, k: int)
    requires
        0 <= i < schedule.tasks.len(),
        0 <= k < schedule.tasks[i].dependencies.len(),
        dependency_missing(schedule.tasks, i, k),
    ensures
        !schedule.valid(),
{
    assert(!task_sound(schedule.tasks, i));
}

/// Where the first check to fail is that of a dependency that names no
/// task, the message names the dependency and the task that holds it.
/// That check is the first to fail where there is a worker, the bounds of
/// every task are in order, the dependencies of the tasks before task `i`
/// name tasks, and dependency `k` is the first of task `i` that names no
/// task.
pub proof fn lemma_missing_dependency_is_named(
    schedule: ScheduleView,
    i: int,
    k: int,
    message: Seq<char>,
)
    requires
        schedule.num_workers >= 1,
        schedule.bounds_sound(),
        0 <= i < schedule.tasks.len(),
        forall|j: int| 0 <= j < i ==> dependencies_known(schedule.tasks, j),
        0 <= k < schedule.tasks[i].dependencies.len(),
        dependency_missing(schedule.tasks, i, k),
        forall|j: int| 0 <= j < k ==> !dependency_missing(schedule.tasks, i, j),
        schedule.rejected_with(message),
    ensures
        message == missing_dependency_message(
            schedule.tasks[i].dependencies[k],
            schedule.tasks[i].id,
        ),
{
    let tasks = schedule.tasks;
    assert(!dependencies_known(tasks, i));
    let first = choose|first: int|
        {
            &&& 0 <= first < tasks.len()
            &&& !#[trigger] dependencies_known(tasks, first)
            &&& forall|j: int| 0 <= j < first ==> dependencies_known(tasks, j)
            &&& dependency_fault(tasks, first, message)
        };
    assert(first == i) by {
        if first < i {
            assert(dependencies_known(tasks, first));
        }
        if i < first {
            assert(dependencies_known(tasks, i));
        }
    }
    let named = choose|named: int|
        {
            &&& 0 <= named < tasks[i].dependencies.len()
            &&& #[trigger] dependency_missing(tasks, i, named)
            &&& forall|j: int| 0 <= j < named ==> !dependency_missing(tasks, i, j)
            &&& message == missing_dependency_message(tasks[i].dependencies[named], tasks[i].id)
        };
    assert(named == k) by {
        if named < k {
            assert(!dependency_missing(tasks, i, named));
        }
        if k < named {
            assert(!dependency_missing(tasks, i, k));
        }
    }
}

/// The bounds of the tasks are looked at before any dependency: where
/// there is a task and a worker and some task has bounds that are not in
/// order, the message is for the first such task, whatever the
/// dependencies are.
pub proof fn lemma_bounds_come_first(schedule: ScheduleView, i: int, message: Seq<char>)
    requires
        schedule.num_workers >= 1,
        0 <= i < schedule.tasks.len(),
        !bounds_in_order(schedule.tasks[i]),
        forall|j: int| 0 <= j < i ==> bounds_in_order(#[trigger] schedule.tasks[j]),
        schedule.rejected_with(message),
    ensures
        bounds_fault(schedule.tasks[i], message),
{
    let tasks = schedule.tasks;
    let first = choose|first: int|
        {
            &&& 0 <= first < tasks.len()
            &&& !bounds_in_order(#[trigger] tasks[first])
            &&& forall|j: int| 0 <= j < first ==> bounds_in_order(#[trigger] tasks[j])
            &&& bounds_fault(tasks[first], message)
        };
    if first < i {
        assert(bounds_in_order(tasks[first]));
    }
    if i < first {
        assert(bounds_in_order(tasks[i]));
    }
}

} // verus!

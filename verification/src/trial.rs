//! The state of one trial and the steps that move it.
//!
//! A trial plays out one run of a project on sampled durations. Time is a
//! clock that jumps from event to event. A trial goes through rounds until
//! every task is completed. In each round the workers have their turns, in
//! their order: a worker that is free takes a ready task chosen at random,
//! and the task counts as completed as soon as it is taken. Then the tasks
//! whose dependencies are now all completed become ready, and the clock
//! moves to the least time from which a worker is free.
//!
//! The steps are given twice: as relations between states, which say what
//! a step is, and as functions that take it.

use crate::graph::{
    dependents_listed, dependents_match, dependents_of, edges_in_range, graph_of, has_edge,
    sources,
};
use crate::invariants::{
    lemma_advanced_keeps_wf, lemma_assigned_keeps_wf, lemma_begins_wf, lemma_finished_result,
    lemma_pass_rests, lemma_released_keeps_wf, lemma_released_one_keeps_wf,
};
use crate::schedule::{dependency_graph, Schedule, ScheduleView};
use crate::series::{
    count_marked, greatest_of, is_greatest, is_least, least_of, marked_total, reaches, sum_of,
    total,
};
use crate::sampler::within_bounds;
use crate::simulation::{trial_result, SimulationResult};
use rand::Rng;
use vstd::prelude::*;

verus! {

/// Every dependency of task `i` is completed.
pub open spec fn dependencies_completed(g: Seq<Seq<int>>, completed: Seq<bool>, i: int) -> bool {
    forall|k: int| 0 <= k < g[i].len() ==> completed[#[trigger] g[i][k]]
}

/// Task `i` waits for nothing but a worker: it is not completed and every
/// dependency of it is completed.
pub open spec fn eligible(g: Seq<Seq<int>>, completed: Seq<bool>, i: usize) -> bool {
    &&& i < g.len()
    &&& !completed[i as int]
    &&& dependencies_completed(g, completed, i as int)
}

/// Task `i` can join the ready list: it waits for nothing but a worker and
/// is not listed as ready.
pub open spec fn can_release(
    g: Seq<Seq<int>>,
    completed: Seq<bool>,
    ready: Seq<usize>,
    i: usize,
) -> bool {
    eligible(g, completed, i) && !ready.contains(i)
}

/// The ready list after the tasks of `candidates` were looked at in turn,
/// each joining the end of the list if it can.
pub open spec fn released(
    g: Seq<Seq<int>>,
    completed: Seq<bool>,
    ready: Seq<usize>,
    candidates: Seq<usize>,
) -> Seq<usize>
    decreases candidates.len(),
{
    if candidates.len() == 0 {
        ready
    } else {
        let before = released(g, completed, ready, candidates.drop_last());
        if can_release(g, completed, before, candidates.last()) {
            before.push(candidates.last())
        } else {
            before
        }
    }
}

/// The ready list after the dependents of each task of `fresh` were looked
/// at, task by task.
pub open spec fn released_all(
    g: Seq<Seq<int>>,
    completed: Seq<bool>,
    ready: Seq<usize>,
    dependents: Seq<Vec<usize>>,
    fresh: Seq<usize>,
) -> Seq<usize>
    decreases fresh.len(),
{
    if fresh.len() == 0 {
        ready
    } else {
        released(
            g,
            completed,
            released_all(g, completed, ready, dependents, fresh.drop_last()),
            dependents[fresh.last() as int]@,
        )
    }
}

/// A list after one entry was removed by moving the last entry to its
/// place.
pub open spec fn swap_removed(s: Seq<usize>, at: int) -> Seq<usize> {
    s.update(at, s.last()).drop_last()
}

/// The state of one trial.
#[derive(Debug)]
pub struct TrialState {
    /// The sampled duration of each task.
    pub durations: Vec<u128>,
    /// For each task, the tasks that it depends on.
    pub dependencies: Vec<Vec<usize>>,
    /// For each task, the tasks that depend on it.
    pub dependents: Vec<Vec<usize>>,
    /// Which tasks a worker has taken.
    pub completed: Vec<bool>,
    /// How many tasks are completed.
    pub completed_count: usize,
    /// The tasks that wait for a worker.
    pub ready: Vec<usize>,
    /// The tasks completed since dependents were last released.
    pub just_completed: Vec<usize>,
    /// For each worker, the time from which it is free.
    pub available_at: Vec<u128>,
    /// The clock.
    pub current_time: u128,
}

impl TrialState {
    /// The dependency graph of the trial's tasks.
    pub open spec fn graph(&self) -> Seq<Seq<int>> {
        graph_of(self.dependencies@)
    }

    /// The sum of the durations of the completed tasks.
    pub open spec fn completed_effort(&self) -> nat {
        marked_total(self.durations@, self.completed@)
    }

    /// The parts of the state that no step changes are in order: one
    /// duration and one flag per task, a dependency graph without cycles,
    /// the dependents as the graph gives them, at least one worker, and
    /// durations that are positive and whose sum is a time.
    pub open spec fn frame_sound(&self) -> bool {
        &&& self.durations@.len() == self.graph().len()
        &&& forall|i: int| 0 <= i < self.durations@.len() ==> #[trigger] self.durations@[i] > 0
        &&& self.completed@.len() == self.graph().len()
        &&& edges_in_range(self.graph())
        &&& crate::graph::acyclic(self.graph())
        &&& dependents_match(self.graph(), graph_of(self.dependents@))
        &&& self.available_at@.len() >= 1
        &&& total(self.durations@) <= u128::MAX
        &&& self.completed_count == count_marked(self.completed@)
    }

    /// Every ready task waits for nothing but a worker; none is listed
    /// twice.
    pub open spec fn ready_sound(&self) -> bool {
        &&& self.ready@.no_duplicates()
        &&& forall|k: int|
            0 <= k < self.ready@.len() ==> eligible(
                self.graph(),
                self.completed@,
                #[trigger] self.ready@[k],
            )
    }

    /// Every task listed as just completed is a completed task.
    pub open spec fn just_completed_sound(&self) -> bool {
        forall|m: int|
            0 <= m < self.just_completed@.len() ==> (#[trigger] self.just_completed@[m])
                < self.graph().len() && self.completed@[self.just_completed@[m] as int]
    }

    /// Task `i` depends on a task that is listed as just completed.
    pub open spec fn awaits_release(&self, i: usize) -> bool {
        exists|m: int|
            0 <= m < self.just_completed@.len() && has_edge(
                self.graph(),
                i as int,
                #[trigger] self.just_completed@[m] as int,
            )
    }

    /// No task is overlooked: a task that waits for nothing but a worker is
    /// ready, or depends on a task that is listed as just completed.
    pub open spec fn nothing_overlooked(&self) -> bool {
        forall|i: usize| #[trigger]
            eligible(self.graph(), self.completed@, i) ==> self.ready@.contains(i)
                || self.awaits_release(i)
    }

    /// The times are in order: no worker's time is behind the clock or
    /// ahead of the effort of the completed tasks; that effort is at most
    /// the sum of the workers' times; and each completed task's duration is
    /// reached by some worker's time.
    pub open spec fn times_sound(&self) -> bool {
        &&& forall|w: int|
            0 <= w < self.available_at@.len() ==> self.current_time
                <= #[trigger] self.available_at@[w]
        &&& forall|w: int|
            0 <= w < self.available_at@.len() ==> #[trigger] self.available_at@[w]
                <= self.completed_effort()
        &&& self.completed_effort() <= total(self.available_at@)
        &&& forall|i: int|
            0 <= i < self.completed@.len() && #[trigger] self.completed@[i] ==> reaches(
                self.available_at@,
                self.durations@[i],
            )
    }

    /// The state is well formed.
    pub open spec fn wf(&self) -> bool {
        &&& self.frame_sound()
        &&& self.ready_sound()
        &&& self.just_completed_sound()
        &&& self.nothing_overlooked()
        &&& self.times_sound()
    }

    /// The durations, the dependencies and the dependents of `self` are
    /// those of `other`.
    pub open spec fn same_project(&self, other: &TrialState) -> bool {
        &&& self.durations == other.durations
        &&& self.dependencies == other.dependencies
        &&& self.dependents == other.dependents
    }

    /// The clock stands at an event: at the least time from which a
    /// worker is free.
    pub open spec fn at_event(&self) -> bool {
        is_least(self.available_at@, self.current_time)
    }

    /// Every task is completed.
    pub open spec fn all_completed(&self) -> bool {
        forall|i: int| 0 <= i < self.completed@.len() ==> #[trigger] self.completed@[i]
    }

    /// This is the state in which a trial of `schedule` on the sampled
    /// `durations` begins: the dependencies and the dependents are those of
    /// the schedule's tasks, the clock is at zero, every worker is free from
    /// zero on, nothing is completed, and ready are the tasks that depend
    /// on nothing, in the schedule's order.
    pub open spec fn begins(&self, schedule: ScheduleView, durations: Seq<u128>) -> bool {
        &&& self.graph() == dependency_graph(schedule.tasks)
        &&& self.dependents@.len() == self.graph().len()
        &&& forall|t: int|
            0 <= t < self.dependents@.len() ==> (#[trigger] self.dependents@[t])@
                == dependents_listed(self.graph(), t, self.graph().len() as int)
        &&& self.durations@ == durations
        &&& self.completed@ == Seq::new(schedule.tasks.len(), |i: int| false)
        &&& self.completed_count == 0
        &&& self.ready@ == sources(self.graph(), self.graph().len() as int)
        &&& self.just_completed@.len() == 0
        &&& self.available_at@ == Seq::new(schedule.num_workers, |w: int| 0u128)
        &&& self.current_time == 0
    }

    /// `result` is what a trial that ends in this state yields: the
    /// project's duration is the greatest time at which a worker is done,
    /// the effort the sum of all durations.
    pub open spec fn yields(&self, result: SimulationResult) -> bool {
        &&& is_greatest(self.available_at@, result.total_project_duration)
        &&& result.total_effort_time == total(self.durations@)
    }
}

/// `after` is `before` with the ready task at position `pick` handed to
/// `worker`, who was free: the task has left the ready list, the last
/// entry of the list taking its place; it counts as completed and is
/// listed as just completed; and the worker is busy until the clock's time
/// plus the task's duration.
pub open spec fn assigned(before: TrialState, after: TrialState, worker: int, pick: int) -> bool {
    &&& 0 <= worker < before.available_at@.len()
    &&& before.available_at@[worker] <= before.current_time
    &&& 0 <= pick < before.ready@.len()
    &&& before.ready@[pick] < before.durations@.len()
    &&& before.current_time + before.durations@[before.ready@[pick] as int] <= u128::MAX
    &&& after.same_project(&before)
    &&& after.ready@ == swap_removed(before.ready@, pick)
    &&& after.completed@ == before.completed@.update(before.ready@[pick] as int, true)
    &&& after.completed_count == before.completed_count + 1
    &&& after.just_completed@ == before.just_completed@.push(before.ready@[pick])
    &&& after.available_at@ == before.available_at@.update(
        worker,
        (before.current_time + before.durations@[before.ready@[pick] as int]) as u128,
    )
    &&& after.current_time == before.current_time
}

/// `after` is `before` after `worker` had its turn: where a task was
/// ready and the worker free, the worker has taken some ready task;
/// otherwise nothing has changed.
pub open spec fn served(before: TrialState, after: TrialState, worker: int) -> bool {
    if before.ready@.len() > 0 && before.available_at@[worker] <= before.current_time {
        exists|pick: int| #[trigger] assigned(before, after, worker, pick)
    } else {
        after == before
    }
}

/// `end` is `start` after the first `upto` workers had their turns, one
/// after the other.
pub open spec fn pass_reaches(start: TrialState, end: TrialState, upto: int) -> bool
    decreases upto,
{
    if upto <= 0 {
        end == start
    } else {
        exists|before: TrialState|
            pass_reaches(start, before, upto - 1) && #[trigger] served(before, end, upto - 1)
    }
}

/// `after` is `before` after the dependents of the task listed as just
/// completed at position `at` were looked at, in the order in which they
/// are held, each joining the end of the ready list if it can.
pub open spec fn released_one(before: TrialState, after: TrialState, at: int) -> bool {
    &&& 0 <= at < before.just_completed@.len()
    &&& before.just_completed@[at] < before.dependents@.len()
    &&& after.same_project(&before)
    &&& after.ready@ == released(
        before.graph(),
        before.completed@,
        before.ready@,
        before.dependents@[before.just_completed@[at] as int]@,
    )
    &&& after.completed == before.completed
    &&& after.completed_count == before.completed_count
    &&& after.just_completed == before.just_completed
    &&& after.available_at == before.available_at
    &&& after.current_time == before.current_time
}

/// `after` is `before` after the dependents of the tasks listed as just
/// completed were released, in the order of that list, and the list was
/// emptied.
pub open spec fn released_from(before: TrialState, after: TrialState) -> bool {
    &&& after.same_project(&before)
    &&& after.ready@ == released_all(
        before.graph(),
        before.completed@,
        before.ready@,
        before.dependents@,
        before.just_completed@,
    )
    &&& after.just_completed@.len() == 0
    &&& after.completed == before.completed
    &&& after.completed_count == before.completed_count
    &&& after.available_at == before.available_at
    &&& after.current_time == before.current_time
}

/// `after` is `before` with the clock moved to the least time from which a
/// worker is free.
pub open spec fn advanced_from(before: TrialState, after: TrialState) -> bool {
    &&& after.same_project(&before)
    &&& is_least(before.available_at@, after.current_time)
    &&& after.ready == before.ready
    &&& after.completed == before.completed
    &&& after.completed_count == before.completed_count
    &&& after.just_completed == before.just_completed
    &&& after.available_at == before.available_at
}

/// `end` is `start` after one round: `start` has a task left to complete;
/// every worker had its turn; the dependents of the tasks taken were
/// released; and the clock moved on.
pub open spec fn round(start: TrialState, end: TrialState) -> bool {
    &&& !start.all_completed()
    &&& exists|taken: TrialState, released: TrialState|
        {
            &&& pass_reaches(start, taken, start.available_at@.len() as int)
            &&& #[trigger] released_from(taken, released)
            &&& advanced_from(released, end)
        }
}

/// `end` is `start` after `rounds` rounds.
pub open spec fn runs_to(start: TrialState, end: TrialState, rounds: nat) -> bool
    decreases rounds,
{
    if rounds == 0 {
        end == start
    } else {
        exists|before: TrialState|
            runs_to(start, before, (rounds - 1) as nat) && #[trigger] round(before, end)
    }
}

/// A list of `n` copies of `value`.
pub fn repeated<T: Copy>(value: T, n: usize) -> (list: Vec<T>)
    ensures
        list@.len() == n,
        forall|i: int| 0 <= i < n ==> list@[i] == value,
{
    let mut list: Vec<T> = Vec::new();
    let mut i: usize = 0;
    while i < n
        invariant
            i <= n,
            list@.len() == i,
            forall|j: int| 0 <= j < i ==> list@[j] == value,
        decreases n - i,
    {
        list.push(value);
        i += 1;
    }
    list
}

/// Draws a position below `len` with `rand::Rng::gen_range` on the
/// thread's generator. The draw is random; all that is claimed of it is
/// that it lies below `len`, which the range handed over makes sure of.
#[verifier::external_body]
fn pick_index(len: usize) -> (pick: usize)
    requires
        len > 0,
    ensures
        pick < len,
{
    rand::thread_rng().gen_range(0..len)
}

impl TrialState {
    /// Sets up a trial of `schedule` on the sampled `durations`, in the
    /// state in which such a trial begins.
    pub fn new(schedule: &Schedule, durations: Vec<u128>) -> (state: Self)
        requires
            schedule@.valid(),
            within_bounds(schedule@.tasks, durations@),
            schedule@.greatest_effort() <= u128::MAX,
        ensures
            state.wf(),
            state.at_event(),
            state.begins(schedule@, durations@),
    {
        let dependencies = schedule.dependency_lists();
        let dependents = dependents_of(&dependencies);
        let ghost g = graph_of(dependencies@);
        let n = dependencies.len();
        let mut ready: Vec<usize> = Vec::new();
        let mut i: usize = 0;
        while i < n
            invariant
                i <= n,
                n == dependencies@.len(),
                g == graph_of(dependencies@),
                ready@ == sources(g, i as int),
            decreases n - i,
        {
            if dependencies[i].len() == 0 {
                ready.push(i);
            }
            i += 1;
        }
        let state = TrialState {
            durations,
            dependencies,
            dependents,
            completed: repeated(false, n),
            completed_count: 0,
            ready,
            just_completed: Vec::new(),
            available_at: repeated(0u128, schedule.num_workers),
            current_time: 0,
        };
        proof {
            assert(state.completed@ =~= Seq::new(schedule@.tasks.len(), |i: int| false));
            assert(state.available_at@ =~= Seq::new(schedule@.num_workers, |w: int| 0u128));
            lemma_begins_wf(state, schedule@, durations@);
        }
        state
    }

    /// Whether every task is completed.
    pub fn is_finished(&self) -> (finished: bool)
        requires
            self.wf(),
        ensures
            finished == self.all_completed(),
            finished == (self.completed_count == self.completed@.len()),
    {
        proof {
            crate::series::lemma_count_marked_bounds(self.completed@);
        }
        self.completed_count == self.completed.len()
    }

    /// Whether task `task` is listed as ready.
    pub fn is_ready(&self, task: usize) -> (listed: bool)
        ensures
            listed == self.ready@.contains(task),
    {
        let mut k: usize = 0;
        while k < self.ready.len()
            invariant
                k <= self.ready@.len(),
                forall|j: int| 0 <= j < k ==> self.ready@[j] != task,
            decreases self.ready@.len() - k,
        {
            if self.ready[k] == task {
                return true;
            }
            k += 1;
        }
        false
    }

    /// Whether every dependency of task `task` is completed.
    pub fn dependencies_done(&self, task: usize) -> (done: bool)
        requires
            self.frame_sound(),
            task < self.dependencies@.len(),
        ensures
            done == dependencies_completed(self.graph(), self.completed@, task as int),
    {
        let ghost g = self.graph();
        let mut k: usize = 0;
        while k < self.dependencies[task].len()
            invariant
                self.frame_sound(),
                g == self.graph(),
                task < self.dependencies@.len(),
                k <= self.dependencies@[task as int]@.len(),
                forall|j: int| 0 <= j < k ==> self.completed@[#[trigger] g[task as int][j]],
            decreases self.dependencies@[task as int]@.len() - k,
        {
            let dependency = self.dependencies[task][k];
            assert(g[task as int][k as int] == dependency);
            if !self.completed[dependency] {
                return false;
            }
            k += 1;
        }
        true
    }

    /// Hands the ready task at position `pick` to `worker`, who is free,
    /// as [`assigned`] says. Returns the task; every dependency of it was
    /// completed before.
    pub fn assign(&mut self, worker: usize, pick: usize) -> (task: usize)
        requires
            old(self).wf(),
            worker < old(self).available_at@.len(),
            old(self).available_at@[worker as int] <= old(self).current_time,
            pick < old(self).ready@.len(),
        ensures
            final(self).wf(),
            task == old(self).ready@[pick as int],
            dependencies_completed(old(self).graph(), old(self).completed@, task as int),
            assigned(*old(self), *final(self), worker as int, pick as int),
    {
        let task = self.ready.swap_remove(pick);
        proof {
            assert(eligible(self.graph(), self.completed@, old(self).ready@[pick as int]));
            crate::series::lemma_marked_total_mark(self.durations@, self.completed@, task as int);
            crate::series::lemma_marked_total_bounds(
                self.durations@,
                self.completed@.update(task as int, true),
            );
            crate::series::lemma_count_marked_mark(self.completed@, task as int);
            crate::series::lemma_count_marked_bounds(self.completed@.update(task as int, true));
            assert(self.completed@.len() == self.completed.len());
            assert(self.current_time <= self.available_at@[0]);
        }
        let finish = self.current_time + self.durations[task];
        self.available_at.set(worker, finish);
        self.completed.set(task, true);
        self.completed_count = self.completed_count + 1;
        self.just_completed.push(task);
        proof {
            lemma_assigned_keeps_wf(*old(self), *self, worker as int, pick as int);
        }
        task
    }

    /// Lets each worker have its turn, in the order of the workers: a
    /// worker that is free takes a ready task chosen at random, while there
    /// are ready tasks.
    ///
    /// Which tasks are taken is left to chance. Whatever is drawn, the
    /// state reached is one that [`pass_reaches`] allows, and so: the clock
    /// stands still; the busy workers stay as they are; the tasks taken are
    /// tasks that were ready, as many of them as there were free workers or
    /// ready tasks, whichever were fewer: in the end no task is ready or no
    /// worker is free.
    pub fn assign_ready(&mut self)
        requires
            old(self).wf(),
        ensures
            final(self).wf(),
            pass_reaches(*old(self), *final(self), old(self).available_at@.len() as int),
            final(self).same_project(old(self)),
            final(self).current_time == old(self).current_time,
            final(self).available_at@.len() == old(self).available_at@.len(),
            forall|w: int|
                0 <= w < old(self).available_at@.len() && old(self).available_at@[w] > old(
                    self,
                ).current_time ==> #[trigger] final(self).available_at@[w] == old(
                    self,
                ).available_at@[w],
            final(self).ready@.len() == 0 || forall|w: int|
                0 <= w < final(self).available_at@.len() ==> #[trigger] final(self).available_at@[w]
                    > final(self).current_time,
            final(self).completed_count >= old(self).completed_count,
            final(self).completed_count + final(self).ready@.len() == old(self).completed_count
                + old(self).ready@.len(),
            final(self).completed_count == old(self).completed_count ==> final(self).available_at@
                == old(self).available_at@,
            forall|x: usize| final(self).ready@.contains(x) ==> old(self).ready@.contains(x),
            forall|x: usize|
                x < old(self).completed@.len() ==> (#[trigger] final(self).completed@[x as int]
                    <==> old(self).completed@[x as int] || (old(self).ready@.contains(x) && !final(
                    self
                ).ready@.contains(x))),
    {
        let mut worker: usize = 0;
        while worker < self.available_at.len() && self.ready.len() > 0
            invariant
                self.wf(),
                pass_reaches(*old(self), *self, worker as int),
                self.same_project(old(self)),
                old(self).wf(),
                self.current_time == old(self).current_time,
                self.available_at@.len() == old(self).available_at@.len(),
                self.completed@.len() == old(self).completed@.len(),
                worker <= self.available_at@.len(),
                forall|w: int|
                    worker <= w < self.available_at@.len() ==> #[trigger] self.available_at@[w]
                        == old(self).available_at@[w],
                forall|w: int|
                    0 <= w < self.available_at@.len() && old(self).available_at@[w] > old(
                        self,
                    ).current_time ==> #[trigger] self.available_at@[w] == old(
                        self,
                    ).available_at@[w],
                forall|w: int|
                    0 <= w < worker ==> #[trigger] self.available_at@[w] > self.current_time,
                self.completed_count >= old(self).completed_count,
                self.completed_count + self.ready@.len() == old(self).completed_count + old(
                    self,
                ).ready@.len(),
                self.completed_count == old(self).completed_count ==> self.available_at@ == old(
                    self,
                ).available_at@,
                forall|x: usize| self.ready@.contains(x) ==> old(self).ready@.contains(x),
                forall|x: usize|
                    x < old(self).completed@.len() ==> (#[trigger] self.completed@[x as int]
                        <==> old(self).completed@[x as int] || (old(self).ready@.contains(x)
                        && !self.ready@.contains(x))),
            decreases self.available_at@.len() - worker,
        {
            let ghost before = *self;
            if self.available_at[worker] <= self.current_time {
                let pick = pick_index(self.ready.len());
                let task = self.assign(worker, pick);
                proof {
                    crate::invariants::lemma_swap_removed(before.ready@, pick as int);
                    assert(before.ready@.contains(task));
                    assert(self.durations@[task as int] > 0);
                    assert(eligible(before.graph(), before.completed@, before.ready@[pick as int]));
                    assert forall|x: usize| x < old(self).completed@.len() implies (
                    #[trigger] self.completed@[x as int] <==> old(self).completed@[x as int] || (
                    old(self).ready@.contains(x) && !self.ready@.contains(x))) by {
                        if x == task {
                            assert(!before.completed@[x as int]);
                        } else {
                            assert(self.completed@[x as int] == before.completed@[x as int]);
                        }
                    }
                }
            }
            proof {
                assert(served(before, *self, worker + 1 - 1));
                assert(pass_reaches(*old(self), *self, worker + 1));
            }
            worker += 1;
        }
        proof {
            if worker < self.available_at@.len() {
                lemma_pass_rests(
                    *old(self),
                    *self,
                    worker as int,
                    self.available_at@.len() as int,
                );
            }
        }
    }

    /// Looks at the tasks that depend on the task listed as just completed
    /// at position `at`, as [`released_one`] says.
    pub fn release_dependents(&mut self, at: usize)
        requires
            old(self).wf(),
            at < old(self).just_completed@.len(),
        ensures
            final(self).wf(),
            released_one(*old(self), *final(self), at as int),
    {
        let ghost g = self.graph();
        let task = self.just_completed[at];
        let ghost candidates = self.dependents@[task as int]@;
        let mut j: usize = 0;
        while j < self.dependents[task].len()
            invariant
                self.frame_sound(),
                self.same_project(old(self)),
                self.completed == old(self).completed,
                self.completed_count == old(self).completed_count,
                self.just_completed == old(self).just_completed,
                self.available_at == old(self).available_at,
                self.current_time == old(self).current_time,
                g == self.graph(),
                at < self.just_completed@.len(),
                task == self.just_completed@[at as int],
                task < g.len(),
                candidates == self.dependents@[task as int]@,
                j <= candidates.len(),
                self.ready@ == released(
                    g,
                    self.completed@,
                    old(self).ready@,
                    candidates.take(j as int),
                ),
            decreases candidates.len() - j,
        {
            let candidate = self.dependents[task][j];
            proof {
                assert(candidates.take(j as int + 1).drop_last() =~= candidates.take(j as int));
                assert(graph_of(self.dependents@)[task as int][j as int] == candidate);
                assert(has_edge(g, graph_of(self.dependents@)[task as int][j as int], task as int));
            }
            if !self.completed[candidate] && !self.is_ready(candidate) && self.dependencies_done(
                candidate,
            ) {
                self.ready.push(candidate);
            }
            j += 1;
        }
        proof {
            assert(candidates.take(candidates.len() as int) =~= candidates);
            lemma_released_one_keeps_wf(*old(self), *self, at as int);
        }
    }

    /// Releases the dependents of every task listed as just completed and
    /// empties the list, as [`released_from`] says. Afterwards every task
    /// that waits for nothing but a worker is ready.
    pub fn release(&mut self)
        requires
            old(self).wf(),
        ensures
            final(self).wf(),
            released_from(*old(self), *final(self)),
    {
        let ghost fresh = self.just_completed@;
        let mut at: usize = 0;
        while at < self.just_completed.len()
            invariant
                self.wf(),
                self.same_project(old(self)),
                self.completed == old(self).completed,
                self.completed_count == old(self).completed_count,
                self.just_completed == old(self).just_completed,
                self.available_at == old(self).available_at,
                self.current_time == old(self).current_time,
                fresh == self.just_completed@,
                at <= fresh.len(),
                self.ready@ == released_all(
                    self.graph(),
                    self.completed@,
                    old(self).ready@,
                    self.dependents@,
                    fresh.take(at as int),
                ),
            decreases fresh.len() - at,
        {
            proof {
                assert(fresh.take(at as int + 1).drop_last() =~= fresh.take(at as int));
            }
            self.release_dependents(at);
            at += 1;
        }
        proof {
            assert(fresh.take(fresh.len() as int) =~= fresh);
        }
        self.just_completed.clear();
        proof {
            lemma_released_keeps_wf(*old(self), *self);
        }
    }

    /// Moves the clock to the least time from which a worker is free, as
    /// [`advanced_from`] says. The clock never moves back.
    pub fn advance(&mut self)
        requires
            old(self).wf(),
        ensures
            final(self).wf(),
            advanced_from(*old(self), *final(self)),
            final(self).current_time >= old(self).current_time,
    {
        self.current_time = least_of(&self.available_at);
        proof {
            lemma_advanced_keeps_wf(*old(self), *self);
        }
    }

    /// The result of a finished trial: the project's duration is the
    /// greatest time at which a worker is done, the effort the sum of all
    /// durations.
    pub fn result(&self) -> (result: SimulationResult)
        requires
            self.wf(),
            self.all_completed(),
        ensures
            self.yields(result),
            trial_result(self.available_at@.len(), self.durations@, result),
    {
        let total_project_duration = greatest_of(&self.available_at);
        let total_effort_time = sum_of(&self.durations);
        let result = SimulationResult { total_project_duration, total_effort_time };
        proof {
            lemma_finished_result(*self, result);
        }
        result
    }
}

} // verus!

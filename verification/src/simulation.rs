//! Trials of a schedule: from random draws to sampled durations, from
//! sampled durations to the project's duration and effort, and from many
//! trials to paired sequences of results.

use crate::sampler::{
    lemma_sampled_within_bounds, max_times, min_times, sample_durations, sampled, within_bounds,
};
use crate::schedule::{bounds_in_order, Schedule, ScheduleView};
use crate::series::{lemma_total_between, lemma_total_take, total};
use crate::invariants::{
    lemma_begins_wf, lemma_finished_result, lemma_run_keeps_project, lemma_run_keeps_wf,
    lemma_work_remains,
};
use crate::trial::{released_from, round, runs_to, TrialState};
use rayon::iter::{IntoParallelRefIterator, ParallelIterator};
use vstd::prelude::*;

verus! {

/// What one trial yields.
#[derive(Debug, Clone, Copy)]
pub struct SimulationResult {
    /// The time at which the last worker is done, in nanoseconds.
    pub total_project_duration: u128,
    /// The sum of the sampled durations of all tasks, in nanoseconds.
    pub total_effort_time: u128,
}

impl ScheduleView {
    /// The effort of a trial in which every task takes its greatest
    /// duration.
    pub open spec fn greatest_effort(self) -> nat {
        total(max_times(self.tasks))
    }

    /// The effort of a trial in which every task takes its least duration.
    pub open spec fn least_effort(self) -> nat {
        total(min_times(self.tasks))
    }
}

/// What holds of the result of every trial of `num_workers` workers on the
/// sampled `durations`, whichever ready task each worker happened to take:
/// the effort is the sum of the durations; the project takes no longer
/// than the effort, at least the effort shared out evenly among the
/// workers, and at least as long as each single task.
pub open spec fn trial_result(
    num_workers: nat,
    durations: Seq<u128>,
    result: SimulationResult,
) -> bool {
    &&& result.total_effort_time == total(durations)
    &&& result.total_project_duration <= result.total_effort_time
    &&& result.total_effort_time <= num_workers * result.total_project_duration
    &&& forall|i: int|
        0 <= i < durations.len() ==> #[trigger] durations[i] <= result.total_project_duration
}

/// `result` is what some trial of `schedule` on the sampled `durations`
/// yields: a trial begins in the state that [`TrialState::begins`]
/// describes, goes through rounds until every task is completed, and
/// yields the result of the state that it ends in.
pub open spec fn is_trial(
    schedule: ScheduleView,
    durations: Seq<u128>,
    result: SimulationResult,
) -> bool {
    exists|start: TrialState, end: TrialState, rounds: nat|
        {
            &&& start.begins(schedule, durations)
            &&& #[trigger] runs_to(start, end, rounds)
            &&& end.all_completed()
            &&& end.yields(result)
        }
}

/// What is known of the result of a trial of `schedule` on the sampled
/// `durations`: it is what some trial yields, and what holds of every trial
/// holds of it.
pub open spec fn trial_outcome(
    schedule: ScheduleView,
    durations: Seq<u128>,
    result: SimulationResult,
) -> bool {
    &&& is_trial(schedule, durations, result)
    &&& trial_result(schedule.num_workers, durations, result)
}

/// Plays out one trial of the schedule on the sampled `durations`.
///
/// The clock starts at zero with every worker free and the tasks without
/// dependencies ready. Until every task is completed: each free worker
/// takes a ready task chosen at random and is busy for its duration, the
/// task counting as completed at once; the tasks whose dependencies are now
/// all completed become ready; and the clock moves to the least time at
/// which a worker is free.
///
/// Which worker takes which task is left to chance; the contract states
/// what holds of the result whatever was drawn.
pub fn simulate_trial(schedule: &Schedule, durations: Vec<u128>) -> (result: SimulationResult)
    requires
        schedule@.valid(),
        within_bounds(schedule@.tasks, durations@),
        schedule@.greatest_effort() <= u128::MAX,
    ensures
        trial_outcome(schedule@, durations@, result),
{
    let mut state = TrialState::new(schedule, durations);
    let ghost start = state;
    let ghost rounds: nat = 0;
    while !state.is_finished()
        invariant
            state.wf(),
            state.at_event(),
            state.just_completed@.len() == 0,
            state.durations@ == durations@,
            state.available_at@.len() == schedule@.num_workers,
            start.begins(schedule@, durations@),
            runs_to(start, state, rounds),
        decreases durations@.len() - state.completed_count,
    {
        let ghost before = state;
        proof {
            lemma_work_remains(state);
        }
        state.assign_ready();
        proof {
            let w = choose|w: int|
                0 <= w < before.available_at@.len() && #[trigger] before.available_at@[w]
                    == before.current_time;
            if state.completed_count == before.completed_count {
                assert(state.available_at@[w] == state.current_time);
            }
        }
        assert(state.completed_count > before.completed_count);
        let ghost taken = state;
        state.release();
        let ghost released = state;
        state.advance();
        proof {
            crate::series::lemma_count_marked_bounds(state.completed@);
            assert(released_from(taken, released));
            assert(round(before, state));
            assert(runs_to(start, before, (rounds + 1 - 1) as nat));
            rounds = rounds + 1;
            assert(runs_to(start, state, rounds));
        }
    }
    let result = state.result();
    proof {
        assert(runs_to(start, state, rounds));
        assert(is_trial(schedule@, durations@, result));
    }
    result
}

/// Runs one trial of the schedule on one draw per task: the draws become
/// sampled durations, and the trial is played out on them.
pub fn run_simulation(schedule: &Schedule, draws: &Vec<i128>) -> (result: SimulationResult)
    requires
        schedule@.valid(),
        draws@.len() == schedule@.tasks.len(),
        schedule@.greatest_effort() <= u128::MAX,
    ensures
        trial_outcome(schedule@, sampled(schedule@.tasks, draws@), result),
{
    proof {
        lemma_valid_bounds(schedule@);
        lemma_sampled_within_bounds(schedule@.tasks, draws@);
    }
    let durations = sample_durations(schedule, draws);
    simulate_trial(schedule, durations)
}

/// Durations within the bounds of the tasks of a valid schedule are
/// positive, and their sum is at most the greatest effort of the schedule.
pub proof fn lemma_within_bounds(schedule: ScheduleView, durations: Seq<u128>)
    requires
        schedule.valid(),
        within_bounds(schedule.tasks, durations),
    ensures
        forall|i: int| 0 <= i < durations.len() ==> #[trigger] durations[i] > 0,
        schedule.least_effort() <= total(durations) <= schedule.greatest_effort(),
{
    lemma_valid_bounds(schedule);
    assert forall|i: int| 0 <= i < durations.len() implies min_times(schedule.tasks)[i]
        <= #[trigger] durations[i] <= max_times(schedule.tasks)[i] by {}
    lemma_total_between(min_times(schedule.tasks), durations, max_times(schedule.tasks));
    assert forall|i: int| 0 <= i < durations.len() implies #[trigger] durations[i] > 0 by {
        assert(bounds_in_order(schedule.tasks[i]));
    }
}

/// In a valid schedule the bounds of every task are in order.
pub proof fn lemma_valid_bounds(schedule: ScheduleView)
    requires
        schedule.valid(),
    ensures
        forall|i: int|
            0 <= i < schedule.tasks.len() ==> bounds_in_order(#[trigger] schedule.tasks[i]),
{
    assert forall|i: int| 0 <= i < schedule.tasks.len() implies bounds_in_order(
        #[trigger] schedule.tasks[i],
    ) by {
        assert(crate::schedule::task_sound(schedule.tasks, i));
    }
}

impl Schedule {
    /// Whether the greatest effort of the schedule is a time, that is,
    /// whether the greatest durations of its tasks add up without
    /// overflow. Trials are run only on schedules of which this holds.
    pub fn effort_fits(&self) -> (fits: bool)
        ensures
            fits == (self@.greatest_effort() <= u128::MAX),
    {
        let ghost times = max_times(self@.tasks);
        let mut sum: u128 = 0;
        let mut i: usize = 0;
        while i < self.tasks.len()
            invariant
                i <= self.tasks@.len(),
                times == max_times(self@.tasks),
                sum == total(times.take(i as int)),
            decreases self.tasks@.len() - i,
        {
            proof {
                assert(times.take(i as int + 1).drop_last() =~= times.take(i as int));
                assert(times[i as int] == self.tasks@[i as int].max_time);
                lemma_total_take(times, i as int + 1);
            }
            match sum.checked_add(self.tasks[i].max_time) {
                None => {
                    return false;
                },
                Some(next) => {
                    sum = next;
                },
            }
            i += 1;
        }
        assert(times.take(self.tasks@.len() as int) =~= times);
        true
    }
}

/// Runs one trial for each entry of `draws`, handing the trials out to
/// rayon's thread pool with `par_iter`, `map` and `collect`.
///
/// What is claimed of rayon: the closure is run once on each entry, and the
/// vector collected holds the closure's results at the positions of their
/// entries. What is claimed of each result is what [`run_simulation`]
/// ensures.
#[verifier::external_body]
fn run_trials(schedule: &Schedule, draws: &Vec<Vec<i128>>) -> (results: Vec<SimulationResult>)
    requires
        schedule@.valid(),
        schedule@.greatest_effort() <= u128::MAX,
        forall|t: int|
            0 <= t < draws@.len() ==> (#[trigger] draws@[t])@.len() == schedule@.tasks.len(),
    ensures
        results@.len() == draws@.len(),
        forall|t: int|
            0 <= t < draws@.len() ==> trial_outcome(
                schedule@,
                sampled(schedule@.tasks, draws@[t]@),
                #[trigger] results@[t],
            ),
{
    draws.par_iter().map(|trial| run_simulation(schedule, trial)).collect()
}

/// The statement that trial `t` of a run gave the project duration
/// `durations[t]` and the effort `efforts[t]`.
pub open spec fn paired_result(
    schedule: ScheduleView,
    draws: Seq<i128>,
    duration: u128,
    effort: u128,
) -> bool {
    trial_outcome(
        schedule,
        sampled(schedule.tasks, draws),
        (SimulationResult { total_project_duration: duration, total_effort_time: effort }),
    )
}

/// Runs one trial of the schedule for each entry of `draws`, the trials in
/// parallel and each on its own draws, and returns the project durations
/// and the efforts of the trials as two sequences.
///
/// Both sequences have one entry per trial, and the entries at one
/// position stem from one trial: the trial on the draws at that position.
pub fn run_multiple_simulations(schedule: &Schedule, draws: &Vec<Vec<i128>>) -> (r: (
    Vec<u128>,
    Vec<u128>,
))
    requires
        schedule@.valid(),
        schedule@.greatest_effort() <= u128::MAX,
        forall|t: int|
            0 <= t < draws@.len() ==> (#[trigger] draws@[t])@.len() == schedule@.tasks.len(),
    ensures
        r.0@.len() == draws@.len(),
        r.1@.len() == draws@.len(),
        forall|t: int|
            0 <= t < draws@.len() ==> paired_result(
                schedule@,
                (#[trigger] draws@[t])@,
                r.0@[t],
                r.1@[t],
            ),
{
    let results = run_trials(schedule, draws);
    let mut durations: Vec<u128> = Vec::new();
    let mut efforts: Vec<u128> = Vec::new();
    let mut t: usize = 0;
    while t < results.len()
        invariant
            t <= results@.len(),
            results@.len() == draws@.len(),
            durations@.len() == t,
            efforts@.len() == t,
            forall|j: int|
                0 <= j < draws@.len() ==> trial_outcome(
                    schedule@,
                    sampled(schedule@.tasks, draws@[j]@),
                    #[trigger] results@[j],
                ),
            forall|j: int|
                0 <= j < t ==> paired_result(
                    schedule@,
                    (#[trigger] draws@[j])@,
                    durations@[j],
                    efforts@[j],
                ),
        decreases results@.len() - t,
    {
        let result = results[t];
        assert(trial_outcome(
            schedule@,
            sampled(schedule@.tasks, draws@[t as int]@),
            results@[t as int],
        ));
        durations.push(result.total_project_duration);
        efforts.push(result.total_effort_time);
        t += 1;
    }
    (durations, efforts)
}

/// What holds of every trial of a valid schedule, whichever ready task
/// each worker happened to take: the effort is the sum of the sampled
/// durations; the project takes no longer than the effort, at least the
/// effort shared out evenly among the workers, and at least as long as
/// each single task.
pub proof fn lemma_trial_result(
    schedule: ScheduleView,
    durations: Seq<u128>,
    result: SimulationResult,
)
    requires
        schedule.valid(),
        within_bounds(schedule.tasks, durations),
        schedule.greatest_effort() <= u128::MAX,
        is_trial(schedule, durations, result),
    ensures
        trial_result(schedule.num_workers, durations, result),
{
    let (start, end, rounds) = choose|start: TrialState, end: TrialState, rounds: nat|
        {
            &&& start.begins(schedule, durations)
            &&& #[trigger] runs_to(start, end, rounds)
            &&& end.all_completed()
            &&& end.yields(result)
        };
    lemma_begins_wf(start, schedule, durations);
    lemma_run_keeps_wf(start, end, rounds);
    lemma_finished_result(end, result);
}

/// With a single worker every trial takes exactly as long as its effort,
/// whatever the tasks and their dependencies are; so it does for a single
/// task and a single worker.
pub proof fn lemma_single_worker_duration_is_effort(
    schedule: ScheduleView,
    durations: Seq<u128>,
    result: SimulationResult,
)
    requires
        schedule.valid(),
        schedule.num_workers == 1,
        within_bounds(schedule.tasks, durations),
        schedule.greatest_effort() <= u128::MAX,
        is_trial(schedule, durations, result),
    ensures
        result.total_project_duration == result.total_effort_time,
{
    lemma_trial_result(schedule, durations, result);
}

/// The effort of every trial is the sum of the sampled durations,
/// whatever the schedule, the number of workers and the picks are.
pub proof fn lemma_effort_is_total(
    schedule: ScheduleView,
    durations: Seq<u128>,
    result: SimulationResult,
)
    requires
        is_trial(schedule, durations, result),
    ensures
        result.total_effort_time == total(durations),
{
    let (start, end, rounds) = choose|start: TrialState, end: TrialState, rounds: nat|
        {
            &&& start.begins(schedule, durations)
            &&& #[trigger] runs_to(start, end, rounds)
            &&& end.all_completed()
            &&& end.yields(result)
        };
    lemma_run_keeps_project(start, end, rounds);
}

/// The effort of a trial does not depend on the number of workers, nor on
/// which ready task each worker took: two trials on the same sampled
/// durations have the same effort.
pub proof fn lemma_effort_ignores_workers(
    schedule: ScheduleView,
    result: SimulationResult,
    other: ScheduleView,
    other_result: SimulationResult,
    durations: Seq<u128>,
)
    requires
        is_trial(schedule, durations, result),
        is_trial(other, durations, other_result),
    ensures
        result.total_effort_time == other_result.total_effort_time,
        result.total_effort_time == total(durations),
{
    lemma_effort_is_total(schedule, durations, result);
    lemma_effort_is_total(other, durations, other_result);
}

/// On the same tasks and the same sampled durations no number of workers
/// takes longer than a single worker does, and several workers are at best
/// as many times as fast as a single one.
pub proof fn lemma_more_workers_are_no_slower(
    single: ScheduleView,
    single_result: SimulationResult,
    shared: ScheduleView,
    shared_result: SimulationResult,
    durations: Seq<u128>,
)
    requires
        single.valid(),
        single.num_workers == 1,
        shared.valid(),
        shared.tasks == single.tasks,
        within_bounds(single.tasks, durations),
        single.greatest_effort() <= u128::MAX,
        is_trial(single, durations, single_result),
        is_trial(shared, durations, shared_result),
    ensures
        shared_result.total_project_duration <= single_result.total_project_duration,
        single_result.total_project_duration <= shared.num_workers
            * shared_result.total_project_duration,
{
    lemma_trial_result(single, durations, single_result);
    lemma_trial_result(shared, durations, shared_result);
}

/// The effort of a trial of a valid schedule lies between the sum of the
/// least durations and the sum of the greatest durations of its tasks, and
/// so does the project's duration where there is a single worker.
pub proof fn lemma_effort_within_bounds(
    schedule: ScheduleView,
    draws: Seq<i128>,
    result: SimulationResult,
)
    requires
        schedule.valid(),
        draws.len() == schedule.tasks.len(),
        schedule.greatest_effort() <= u128::MAX,
        is_trial(schedule, sampled(schedule.tasks, draws), result),
    ensures
        schedule.least_effort() <= result.total_effort_time <= schedule.greatest_effort(),
        schedule.num_workers == 1 ==> schedule.least_effort() <= result.total_project_duration
            <= schedule.greatest_effort(),
{
    lemma_valid_bounds(schedule);
    lemma_sampled_within_bounds(schedule.tasks, draws);
    lemma_trial_result(schedule, sampled(schedule.tasks, draws), result);
    if schedule.num_workers == 1 {
        lemma_single_worker_duration_is_effort(schedule, sampled(schedule.tasks, draws), result);
    }
}

} // verus!

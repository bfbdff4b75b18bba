//! From random draws to sampled durations.
//!
//! The duration of a task in a trial is a draw from a normal distribution,
//! brought into the task's bounds. The mean of the distribution is the
//! middle of the bounds. Its standard deviation is the width of the bounds
//! divided by twice a z-score, the z-score being `2 * sqrt(1 - (1 - c) / 2)`
//! for the confidence `c`: a rule of thumb, not the quantile of the normal
//! distribution. This module computes the mean and the deviation in whole
//! numbers and brings draws into bounds; the draw itself is made by the
//! caller.

use crate::schedule::Schedule;
use crate::series::{lemma_total_between, total};
use crate::task::TaskView;
use vstd::prelude::*;

verus! {

/// `root` is the square root of `n`, rounded down.
pub open spec fn is_floor_sqrt(root: nat, n: nat) -> bool {
    root * root <= n < (root + 1) * (root + 1)
}

/// The square root of `n`, rounded down.
pub open spec fn floor_sqrt_of(n: nat) -> nat {
    choose|root: nat| is_floor_sqrt(root, n)
}

/// A number has one square root rounded down.
pub proof fn lemma_floor_sqrt_is_unique(a: nat, b: nat, n: nat)
    requires
        is_floor_sqrt(a, n),
        is_floor_sqrt(b, n),
    ensures
        a == b,
{
    if a < b {
        assert((a + 1) * (a + 1) <= b * b) by (nonlinear_arith)
            requires
                a + 1 <= b,
        ;
    }
    if b < a {
        assert((b + 1) * (b + 1) <= a * a) by (nonlinear_arith)
            requires
                b + 1 <= a,
        ;
    }
}

/// The square root of `n`, rounded down, found by halving the range in
/// which it lies.
pub fn floor_sqrt(n: u64) -> (root: u64)
    ensures
        is_floor_sqrt(root as nat, n as nat),
        root == floor_sqrt_of(n as nat),
        root < 4_294_967_296,
{
    let mut low: u64 = 0;
    let mut high: u64 = 4_294_967_296;
    assert(4_294_967_296 * 4_294_967_296 == 18_446_744_073_709_551_616) by (nonlinear_arith);
    while high - low > 1
        invariant
            low < high <= 4_294_967_296,
            low * low <= n < high * high,
        decreases high - low,
    {
        let middle = low + (high - low) / 2;
        assert(middle * middle <= 4_294_967_295 * 4_294_967_295) by (nonlinear_arith)
            requires
                0 <= middle <= 4_294_967_295,
        ;
        assert(4_294_967_295 * 4_294_967_295 < 18_446_744_073_709_551_616) by (nonlinear_arith);
        if middle * middle <= n {
            low = middle;
        } else {
            high = middle;
        }
    }
    proof {
        assert(is_floor_sqrt(low as nat, n as nat));
        lemma_floor_sqrt_is_unique(low as nat, floor_sqrt_of(n as nat), n as nat);
    }
    low
}

/// The z-score for a confidence, both in millionths: the square of the
/// z-score is twice the sum of one and the confidence, which is what
/// `2 * sqrt(1 - (1 - c) / 2)` comes to; it is rounded down to a whole
/// number of millionths.
pub open spec fn z_score_of(confidence: nat) -> nat {
    floor_sqrt_of(2_000_000 * (1_000_000 + confidence))
}

/// The middle of the bounds.
pub open spec fn mean_of(min_time: nat, max_time: nat) -> nat {
    (min_time + max_time) / 2
}

/// The width of the bounds divided by twice the z-score for the
/// confidence, rounded down.
pub open spec fn deviation_of(min_time: nat, max_time: nat, confidence: nat) -> nat {
    (((max_time - min_time) * 1_000_000) / (2 * z_score_of(confidence) as int)) as nat
}

/// The z-score for a confidence, both in millionths. For a confidence
/// between zero and one it lies between the square root of two and two.
pub fn z_score(confidence: u32) -> (z: u64)
    ensures
        z == z_score_of(confidence as nat),
        1_414_213 <= z < 4_294_967_296,
        confidence < 1_000_000 ==> z < 2_000_000,
{
    let square: u64 = 2_000_000 * (1_000_000 + confidence as u64);
    let z = floor_sqrt(square);
    proof {
        if z < 1_414_213 {
            assert((z + 1) * (z + 1) <= 1_414_213 * 1_414_213) by (nonlinear_arith)
                requires
                    0 <= z + 1 <= 1_414_213,
            ;
        }
        if confidence < 1_000_000 && z >= 2_000_000 {
            assert(z * z >= 2_000_000 * 2_000_000) by (nonlinear_arith)
                requires
                    z >= 2_000_000,
            ;
        }
    }
    z
}

/// The mean and the standard deviation of the normal distribution from
/// which the duration of a task with the bounds `min_time` and `max_time`
/// is drawn, in nanoseconds, for a confidence in millionths.
pub fn sampling_parameters(
    min_time: u128,
    max_time: u128,
    confidence: u32,
) -> (parameters: (u128, u128))
    requires
        min_time <= max_time,
    ensures
        parameters.0 == mean_of(min_time as nat, max_time as nat),
        parameters.1 == deviation_of(min_time as nat, max_time as nat, confidence as nat),
        min_time <= parameters.0 <= max_time,
        parameters.1 <= max_time - min_time,
{
    let width = max_time - min_time;
    let mean = min_time + width / 2;
    let divisor: u128 = 2 * (z_score(confidence) as u128);
    let whole = width / divisor;
    let rest = width % divisor;
    proof {
        let scaled = rest * 1_000_000;
        let part = scaled / (divisor as int);
        let left = scaled % (divisor as int);
        vstd::arithmetic::div_mod::lemma_fundamental_div_mod(width as int, divisor as int);
        vstd::arithmetic::div_mod::lemma_fundamental_div_mod(scaled, divisor as int);
        assert(width * 1_000_000 == (whole * 1_000_000 + part) * divisor + left) by (
            nonlinear_arith)
            requires
                width == divisor * whole + rest,
                rest * 1_000_000 == divisor * part + left,
        ;
        vstd::arithmetic::div_mod::lemma_fundamental_div_mod_converse(
            width * 1_000_000,
            divisor as int,
            whole * 1_000_000 + part,
            left,
        );
        assert(whole * 1_000_000 <= whole * divisor) by (nonlinear_arith)
            requires
                whole >= 0,
                divisor >= 1_000_000,
        ;
        assert(part * divisor <= scaled);
        assert(part <= rest) by (nonlinear_arith)
            requires
                part * divisor <= rest * 1_000_000,
                divisor >= 1_000_000,
                part >= 0,
                rest >= 0,
        ;
        assert(rest * 1_000_000 < 8_589_934_592 * 1_000_000) by (nonlinear_arith)
            requires
                0 <= rest < 8_589_934_592,
        ;
    }
    let deviation = whole * 1_000_000 + (rest * 1_000_000) / divisor;
    (mean, deviation)
}

/// The value of `draw` brought into the range from `min_time` to
/// `max_time`.
pub open spec fn clamped(draw: int, min_time: nat, max_time: nat) -> nat {
    if draw < min_time {
        min_time
    } else if draw > max_time {
        max_time
    } else {
        draw as nat
    }
}

/// The durations that the draws give to the tasks: for each task its draw,
/// brought into the task's bounds.
pub open spec fn sampled(tasks: Seq<TaskView>, draws: Seq<i128>) -> Seq<u128> {
    Seq::new(
        tasks.len(),
        |i: int|
            clamped(draws[i] as int, tasks[i].min_time as nat, tasks[i].max_time as nat) as u128,
    )
}

/// Each duration lies within the bounds of its task.
pub open spec fn within_bounds(tasks: Seq<TaskView>, durations: Seq<u128>) -> bool {
    &&& durations.len() == tasks.len()
    &&& forall|i: int|
        0 <= i < tasks.len() ==> tasks[i].min_time <= #[trigger] durations[i] <= tasks[i].max_time
}

/// The least durations of the tasks.
pub open spec fn min_times(tasks: Seq<TaskView>) -> Seq<u128> {
    Seq::new(tasks.len(), |i: int| tasks[i].min_time)
}

/// The greatest durations of the tasks.
pub open spec fn max_times(tasks: Seq<TaskView>) -> Seq<u128> {
    Seq::new(tasks.len(), |i: int| tasks[i].max_time)
}

/// Turns a draw into the duration of a task with the bounds `min_time` and
/// `max_time`: the draw itself where it lies within the bounds, else the
/// bound that it lies beyond. All three are in nanoseconds.
pub fn simulate_task_time(draw: i128, min_time: u128, max_time: u128) -> (time: u128)
    requires
        min_time <= max_time,
    ensures
        time == clamped(draw as int, min_time as nat, max_time as nat),
        min_time <= time <= max_time,
        min_time == max_time ==> time == min_time,
{
    if draw < 0 {
        min_time
    } else {
        let value = draw as u128;
        if value < min_time {
            min_time
        } else if value > max_time {
            max_time
        } else {
            value
        }
    }
}

/// Sampled durations lie within the bounds of their tasks, so their sum
/// lies between the least and the greatest effort of the schedule.
pub proof fn lemma_sampled_within_bounds(tasks: Seq<TaskView>, draws: Seq<i128>)
    requires
        draws.len() == tasks.len(),
        forall|i: int| 0 <= i < tasks.len() ==> (#[trigger] tasks[i]).min_time <= tasks[i].max_time,
    ensures
        forall|i: int|
            0 <= i < tasks.len() ==> tasks[i].min_time <= (#[trigger] sampled(tasks, draws)[i])
                <= tasks[i].max_time,
        total(min_times(tasks)) <= total(sampled(tasks, draws)) <= total(max_times(tasks)),
{
    let s = sampled(tasks, draws);
    assert forall|i: int| 0 <= i < tasks.len() implies tasks[i].min_time <= (#[trigger] s[i])
        <= tasks[i].max_time by {
        assert(tasks[i].min_time <= tasks[i].max_time);
    }
    assert forall|i: int| 0 <= i < s.len() implies min_times(tasks)[i] <= #[trigger] s[i] <= max_times(
        tasks,
    )[i] by {
        assert(tasks[i].min_time <= tasks[i].max_time);
    }
    lemma_total_between(min_times(tasks), s, max_times(tasks));
}

/// Gives each task of the schedule its sampled duration.
pub fn sample_durations(schedule: &Schedule, draws: &Vec<i128>) -> (durations: Vec<u128>)
    requires
        draws@.len() == schedule@.tasks.len(),
        forall|i: int|
            0 <= i < schedule@.tasks.len() ==> (#[trigger] schedule@.tasks[i]).min_time
                <= schedule@.tasks[i].max_time,
    ensures
        durations@ == sampled(schedule@.tasks, draws@),
{
    let mut durations: Vec<u128> = Vec::new();
    let mut i: usize = 0;
    while i < schedule.tasks.len()
        invariant
            i <= schedule.tasks@.len(),
            draws@.len() == schedule@.tasks.len(),
            forall|j: int|
                0 <= j < schedule@.tasks.len() ==> (#[trigger] schedule@.tasks[j]).min_time
                    <= schedule@.tasks[j].max_time,
            durations@.len() == i,
            forall|j: int|
                0 <= j < i ==> #[trigger] durations@[j] == sampled(schedule@.tasks, draws@)[j],
        decreases schedule.tasks@.len() - i,
    {
        let task = &schedule.tasks[i];
        assert(schedule@.tasks[i as int] == task@);
        assert(schedule@.tasks[i as int].min_time <= schedule@.tasks[i as int].max_time);
        durations.push(simulate_task_time(draws[i], task.min_time, task.max_time));
        i += 1;
    }
    assert(durations@ =~= sampled(schedule@.tasks, draws@));
    durations
}

} // verus!

//! What every state of a trial keeps: the steps of a trial lead from well
//! formed states to well formed states, and a well formed state in which
//! every task is completed yields a result within known bounds.

use crate::graph::{
    graph_of, has_edge, leads_outside, lemma_acyclic_has_free_node, lemma_dependents_listed,
    lemma_sources, listed,
};
use crate::schedule::{lemma_sound_tasks_have_edges_in_range, ScheduleView};
use crate::series::{
    lemma_count_marked_bounds, lemma_count_marked_mark, lemma_marked_total_bounds,
    lemma_marked_total_mark, lemma_total_at_most, lemma_total_of_zeros, lemma_total_update,
    reaches,
};
use crate::sampler::within_bounds;
use crate::simulation::{lemma_within_bounds, trial_result, SimulationResult};
use crate::trial::{
    advanced_from, assigned, can_release, dependencies_completed, eligible, pass_reaches,
    released, released_all, released_from, released_one, round, runs_to, served, swap_removed,
    TrialState,
};
use vstd::prelude::*;

verus! {

/// Removing an entry from a list without duplicates leaves exactly the
/// other entries, still without duplicates.
pub proof fn lemma_swap_removed(s: Seq<usize>, at: int)
    requires
        0 <= at < s.len(),
        s.no_duplicates(),
    ensures
        swap_removed(s, at).no_duplicates(),
        forall|x: usize| swap_removed(s, at).contains(x) <==> s.contains(x) && x != s[at],
{
    let r = swap_removed(s, at);
    assert forall|x: usize| r.contains(x) <==> s.contains(x) && x != s[at] by {
        if r.contains(x) {
            let k = choose|k: int| 0 <= k < r.len() && r[k] == x;
            if k == at {
                assert(s[s.len() - 1] == x);
            } else {
                assert(s[k] == x);
            }
        }
        if s.contains(x) && x != s[at] {
            let k = choose|k: int| 0 <= k < s.len() && s[k] == x;
            if k == s.len() - 1 {
                assert(r[at] == x);
            } else {
                assert(r[k] == x);
            }
        }
    }
}

/// Releasing keeps the ready list as the front of the new one; what it
/// adds are candidates that wait for nothing but a worker, none twice; and
/// it leaves out no such candidate.
pub proof fn lemma_released(
    g: Seq<Seq<int>>,
    completed: Seq<bool>,
    ready: Seq<usize>,
    candidates: Seq<usize>,
)
    ensures
        released(g, completed, ready, candidates).len() >= ready.len(),
        forall|k: int|
            0 <= k < ready.len() ==> #[trigger] released(g, completed, ready, candidates)[k]
                == ready[k],
        forall|k: int|
            ready.len() <= k < released(g, completed, ready, candidates).len() ==> eligible(
                g,
                completed,
                #[trigger] released(g, completed, ready, candidates)[k],
            ),
        ready.no_duplicates() ==> released(g, completed, ready, candidates).no_duplicates(),
        forall|j: int|
            0 <= j < candidates.len() && eligible(g, completed, #[trigger] candidates[j])
                ==> released(g, completed, ready, candidates).contains(candidates[j]),
    decreases candidates.len(),
{
    let now = released(g, completed, ready, candidates);
    if candidates.len() > 0 {
        let front = candidates.drop_last();
        let last = candidates.last();
        let before = released(g, completed, ready, front);
        lemma_released(g, completed, ready, front);
        assert forall|j: int|
            0 <= j < candidates.len() && eligible(g, completed, #[trigger] candidates[j]) implies now.contains(
            candidates[j],
        ) by {
            if j < front.len() {
                assert(eligible(g, completed, front[j]));
                let k = choose|k: int| 0 <= k < before.len() && before[k] == front[j];
                assert(now[k] == candidates[j]);
            } else if can_release(g, completed, before, last) {
                assert(now[now.len() - 1] == last);
            } else {
                let k = choose|k: int| 0 <= k < before.len() && before[k] == last;
                assert(now[k] == last);
            }
        }
        if can_release(g, completed, before, last) {
            assert forall|k: int| ready.len() <= k < now.len() implies eligible(
                g,
                completed,
                #[trigger] now[k],
            ) by {
                if k < before.len() {
                    assert(now[k] == before[k]);
                }
            }
            if ready.no_duplicates() {
                assert forall|a: int, b: int| 0 <= a < now.len() && 0 <= b < now.len() && a
                    != b implies now[a] != now[b] by {
                    if a < before.len() && b < before.len() {
                        assert(before[a] != before[b]);
                    } else if a < before.len() {
                        assert(before.contains(before[a]));
                    } else {
                        assert(before.contains(before[b]));
                    }
                }
            }
        }
    }
}

/// Releasing the dependents of several tasks keeps the ready list as the
/// front of the new one; what it adds are tasks that wait for nothing but
/// a worker, none twice; and it leaves out no such dependent.
pub proof fn lemma_released_all(
    g: Seq<Seq<int>>,
    completed: Seq<bool>,
    ready: Seq<usize>,
    dependents: Seq<Vec<usize>>,
    fresh: Seq<usize>,
)
    ensures
        released_all(g, completed, ready, dependents, fresh).len() >= ready.len(),
        forall|k: int|
            0 <= k < ready.len() ==> #[trigger] released_all(
                g,
                completed,
                ready,
                dependents,
                fresh,
            )[k] == ready[k],
        forall|k: int|
            ready.len() <= k < released_all(g, completed, ready, dependents, fresh).len()
                ==> eligible(
                g,
                completed,
                #[trigger] released_all(g, completed, ready, dependents, fresh)[k],
            ),
        ready.no_duplicates() ==> released_all(
            g,
            completed,
            ready,
            dependents,
            fresh,
        ).no_duplicates(),
        forall|m: int, j: int|
            0 <= m < fresh.len() && 0 <= j < dependents[fresh[m] as int]@.len() && eligible(
                g,
                completed,
                #[trigger] dependents[fresh[m] as int]@[j],
            ) ==> released_all(g, completed, ready, dependents, fresh).contains(
                dependents[fresh[m] as int]@[j],
            ),
    decreases fresh.len(),
{
    let now = released_all(g, completed, ready, dependents, fresh);
    if fresh.len() > 0 {
        let front = fresh.drop_last();
        let before = released_all(g, completed, ready, dependents, front);
        let candidates = dependents[fresh.last() as int]@;
        lemma_released_all(g, completed, ready, dependents, front);
        lemma_released(g, completed, before, candidates);
        assert forall|k: int| 0 <= k < ready.len() implies #[trigger] now[k] == ready[k] by {
            assert(now[k] == before[k]);
        }
        assert forall|k: int| ready.len() <= k < now.len() implies eligible(
            g,
            completed,
            #[trigger] now[k],
        ) by {
            if k < before.len() {
                assert(now[k] == before[k]);
            }
        }
        assert forall|m: int, j: int|
            0 <= m < fresh.len() && 0 <= j < dependents[fresh[m] as int]@.len() && eligible(
                g,
                completed,
                #[trigger] dependents[fresh[m] as int]@[j],
            ) implies now.contains(dependents[fresh[m] as int]@[j]) by {
            let x = dependents[fresh[m] as int]@[j];
            if m < front.len() {
                assert(fresh[m] == front[m]);
                assert(before.contains(dependents[front[m] as int]@[j]));
                let k = choose|k: int| 0 <= k < before.len() && before[k] == x;
                assert(now[k] == x);
            } else {
                assert(eligible(g, completed, candidates[j]));
            }
        }
    }
}

/// The state in which a trial of a valid schedule begins is well formed,
/// and its clock stands at an event.
pub proof fn lemma_begins_wf(state: TrialState, schedule: ScheduleView, durations: Seq<u128>)
    requires
        schedule.valid(),
        within_bounds(schedule.tasks, durations),
        schedule.greatest_effort() <= u128::MAX,
        state.begins(schedule, durations),
    ensures
        state.wf(),
        state.at_event(),
{
    let g = state.graph();
    let n = g.len() as int;
    assert(g.len() == state.dependencies.len());
    lemma_within_bounds(schedule, durations);
    lemma_sound_tasks_have_edges_in_range(schedule.tasks);
    lemma_sources(g, n);
    lemma_count_marked_bounds(state.completed@);
    lemma_marked_total_bounds(state.durations@, state.completed@);
    lemma_total_of_zeros(state.available_at@);
    assert(state.available_at@[0] == 0);
    let rev = graph_of(state.dependents@);
    assert forall|a: int, k: int| 0 <= a < g.len() && 0 <= k < g[a].len() implies 0
        <= #[trigger] g[a][k] < g.len() && rev[g[a][k]].contains(a) by {
        let t = g[a][k];
        lemma_dependents_listed(g, t, n);
        assert(has_edge(g, a, t));
        assert(listed(state.dependents@[t]@, a));
        let m = choose|m: int|
            0 <= m < state.dependents@[t]@.len() && #[trigger] state.dependents@[t]@[m] as int == a;
        assert(rev[t][m] == a);
    }
    assert forall|t: int, m: int| 0 <= t < rev.len() && 0 <= m < rev[t].len() implies has_edge(
        g,
        #[trigger] rev[t][m],
        t,
    ) by {
        lemma_dependents_listed(g, t, n);
        assert(rev[t][m] == state.dependents@[t]@[m] as int);
    }
    assert forall|k: int| 0 <= k < state.ready@.len() implies eligible(
        g,
        state.completed@,
        #[trigger] state.ready@[k],
    ) by {
        assert(g[state.ready@[k] as int].len() == 0);
    }
    assert forall|i: usize| #[trigger] eligible(g, state.completed@, i) implies state.ready@.contains(
        i,
    ) by {
        if g[i as int].len() > 0 {
            assert(state.completed@[g[i as int][0]]);
        }
    }
}

/// Handing a ready task to a free worker keeps the state well formed.
pub proof fn lemma_assigned_keeps_wf(
    before: TrialState,
    after: TrialState,
    worker: int,
    pick: int,
)
    requires
        before.wf(),
        assigned(before, after, worker, pick),
    ensures
        after.wf(),
{
    let g = before.graph();
    let task = before.ready@[pick];
    let finish = (before.current_time + before.durations@[task as int]) as u128;
    assert(eligible(g, before.completed@, before.ready@[pick]));
    lemma_swap_removed(before.ready@, pick);
    lemma_count_marked_mark(before.completed@, task as int);
    lemma_marked_total_mark(before.durations@, before.completed@, task as int);
    lemma_total_update(before.available_at@, worker, finish);
    assert forall|k: int| 0 <= k < after.ready@.len() implies eligible(
        g,
        after.completed@,
        #[trigger] after.ready@[k],
    ) by {
        let x = after.ready@[k];
        assert(after.ready@.contains(x));
        let j = choose|j: int| 0 <= j < before.ready@.len() && before.ready@[j] == x;
        assert(eligible(g, before.completed@, before.ready@[j]));
        assert forall|d: int| 0 <= d < g[x as int].len() implies after.completed@[#[trigger] g[x as int][d]] by {
            assert(before.completed@[g[x as int][d]]);
        }
    }
    assert forall|m: int| 0 <= m < after.just_completed@.len() implies (
    #[trigger] after.just_completed@[m]) < g.len()
        && after.completed@[after.just_completed@[m] as int] by {
        if m < before.just_completed@.len() {
            assert(before.just_completed@[m] < g.len());
        }
    }
    assert forall|i: usize| #[trigger] eligible(g, after.completed@, i) implies after.ready@.contains(
        i,
    ) || after.awaits_release(i) by {
        if dependencies_completed(g, before.completed@, i as int) {
            assert(eligible(g, before.completed@, i));
            if before.ready@.contains(i) {
                assert(after.ready@.contains(i));
            } else {
                let m = choose|m: int|
                    0 <= m < before.just_completed@.len() && has_edge(
                        g,
                        i as int,
                        #[trigger] before.just_completed@[m] as int,
                    );
                assert(has_edge(g, i as int, after.just_completed@[m] as int));
            }
        } else {
            let d = choose|d: int|
                0 <= d < g[i as int].len() && !before.completed@[#[trigger] g[i as int][d]];
            assert(after.completed@[g[i as int][d]]);
            let last = after.just_completed@.len() - 1;
            assert(has_edge(g, i as int, after.just_completed@[last] as int));
        }
    }
    assert forall|i: int| 0 <= i < after.completed@.len() && #[trigger] after.completed@[i] implies reaches(
        after.available_at@,
        after.durations@[i],
    ) by {
        if i == task {
            assert(after.durations@[i] <= after.available_at@[worker]);
        } else {
            assert(before.completed@[i]);
            let w = choose|w: int|
                0 <= w < before.available_at@.len() && before.durations@[i]
                    <= #[trigger] before.available_at@[w];
            assert(after.durations@[i] <= after.available_at@[w]);
        }
    }
    assert forall|w: int| 0 <= w < after.available_at@.len() implies before.current_time
        <= #[trigger] after.available_at@[w] <= after.completed_effort() by {
        if w != worker {
            assert(before.available_at@[w] <= before.completed_effort());
        }
    }
}

/// A task is taken only after every task that it depends on.
pub proof fn lemma_taken_after_dependencies(
    before: TrialState,
    after: TrialState,
    worker: int,
    pick: int,
)
    requires
        before.wf(),
        assigned(before, after, worker, pick),
    ensures
        dependencies_completed(before.graph(), before.completed@, before.ready@[pick] as int),
{
    assert(eligible(before.graph(), before.completed@, before.ready@[pick]));
}

/// A ready list that grows at its end by tasks that wait for nothing but a
/// worker, none of them twice, keeps the state well formed.
proof fn lemma_grown_keeps_wf(before: TrialState, after: TrialState)
    requires
        before.wf(),
        after.same_project(&before),
        after.completed == before.completed,
        after.completed_count == before.completed_count,
        after.just_completed == before.just_completed,
        after.available_at == before.available_at,
        after.current_time == before.current_time,
        after.ready@.len() >= before.ready@.len(),
        forall|k: int|
            0 <= k < before.ready@.len() ==> #[trigger] after.ready@[k] == before.ready@[k],
        forall|k: int|
            before.ready@.len() <= k < after.ready@.len() ==> eligible(
                before.graph(),
                before.completed@,
                #[trigger] after.ready@[k],
            ),
        after.ready@.no_duplicates(),
    ensures
        after.wf(),
{
    let g = before.graph();
    assert forall|k: int| 0 <= k < after.ready@.len() implies eligible(
        g,
        after.completed@,
        #[trigger] after.ready@[k],
    ) by {
        if k < before.ready@.len() {
            assert(eligible(g, before.completed@, before.ready@[k]));
        }
    }
    assert forall|i: usize| #[trigger] eligible(g, after.completed@, i) implies after.ready@.contains(
        i,
    ) || after.awaits_release(i) by {
        if before.ready@.contains(i) {
            let k = choose|k: int| 0 <= k < before.ready@.len() && before.ready@[k] == i;
            assert(after.ready@[k] == i);
        } else {
            let m = choose|m: int|
                0 <= m < before.just_completed@.len() && has_edge(
                    g,
                    i as int,
                    #[trigger] before.just_completed@[m] as int,
                );
            assert(has_edge(g, i as int, after.just_completed@[m] as int));
        }
    }
    assert(after.times_sound());
}

/// Releasing the dependents of one task keeps the state well formed.
pub proof fn lemma_released_one_keeps_wf(before: TrialState, after: TrialState, at: int)
    requires
        before.wf(),
        released_one(before, after, at),
    ensures
        after.wf(),
{
    lemma_released(
        before.graph(),
        before.completed@,
        before.ready@,
        before.dependents@[before.just_completed@[at] as int]@,
    );
    lemma_grown_keeps_wf(before, after);
}

/// Releasing the dependents of all tasks just completed keeps the state
/// well formed; afterwards every task that waits for nothing but a worker
/// is ready.
pub proof fn lemma_released_keeps_wf(before: TrialState, after: TrialState)
    requires
        before.wf(),
        released_from(before, after),
    ensures
        after.wf(),
        forall|i: usize| #[trigger]
            eligible(after.graph(), after.completed@, i) ==> after.ready@.contains(i),
{
    let g = before.graph();
    let rev = graph_of(before.dependents@);
    lemma_released_all(
        g,
        before.completed@,
        before.ready@,
        before.dependents@,
        before.just_completed@,
    );
    assert forall|k: int| 0 <= k < after.ready@.len() implies eligible(
        g,
        after.completed@,
        #[trigger] after.ready@[k],
    ) by {
        if k < before.ready@.len() {
            assert(eligible(g, before.completed@, before.ready@[k]));
        }
    }
    assert forall|i: usize| #[trigger] eligible(g, after.completed@, i) implies after.ready@.contains(
        i,
    ) by {
        if before.ready@.contains(i) {
            let k = choose|k: int| 0 <= k < before.ready@.len() && before.ready@[k] == i;
            assert(after.ready@[k] == i);
        } else {
            let m = choose|m: int|
                0 <= m < before.just_completed@.len() && has_edge(
                    g,
                    i as int,
                    #[trigger] before.just_completed@[m] as int,
                );
            let t = before.just_completed@[m];
            let k = choose|k: int| 0 <= k < g[i as int].len() && g[i as int][k] == t as int;
            assert(rev[g[i as int][k]].contains(i as int));
            let j = choose|j: int| 0 <= j < rev[t as int].len() && rev[t as int][j] == i as int;
            assert(before.dependents@[t as int]@[j] == i);
            assert(eligible(
                g,
                before.completed@,
                before.dependents@[before.just_completed@[m] as int]@[j],
            ));
        }
    }
    assert(after.times_sound());
}

/// Moving the clock to the least time from which a worker is free keeps
/// the state well formed, and the clock does not move back.
pub proof fn lemma_advanced_keeps_wf(before: TrialState, after: TrialState)
    requires
        before.wf(),
        advanced_from(before, after),
    ensures
        after.wf(),
        after.at_event(),
        after.current_time >= before.current_time,
{
    let g = before.graph();
    let w = choose|w: int|
        0 <= w < before.available_at@.len() && #[trigger] before.available_at@[w]
            == after.current_time;
    assert(before.current_time <= before.available_at@[w]);
    assert forall|i: usize| #[trigger] eligible(g, after.completed@, i) implies after.ready@.contains(
        i,
    ) || after.awaits_release(i) by {
        if !before.ready@.contains(i) {
            let m = choose|m: int|
                0 <= m < before.just_completed@.len() && has_edge(
                    g,
                    i as int,
                    #[trigger] before.just_completed@[m] as int,
                );
            assert(has_edge(g, i as int, after.just_completed@[m] as int));
        }
    }
    assert(after.times_sound());
}

/// While no task is ready the workers' turns change nothing.
pub proof fn lemma_pass_rests(start: TrialState, end: TrialState, from: int, upto: int)
    requires
        0 <= from <= upto,
        pass_reaches(start, end, from),
        end.ready@.len() == 0,
    ensures
        pass_reaches(start, end, upto),
    decreases upto - from,
{
    if from < upto {
        assert(served(end, end, from + 1 - 1));
        assert(pass_reaches(start, end, from + 1));
        lemma_pass_rests(start, end, from + 1, upto);
    }
}

/// The workers' turns keep the state well formed; they change neither the
/// project, nor the number of workers, nor the clock.
pub proof fn lemma_pass_keeps_wf(start: TrialState, end: TrialState, upto: int)
    requires
        start.wf(),
        0 <= upto <= start.available_at@.len(),
        pass_reaches(start, end, upto),
    ensures
        end.wf(),
        end.same_project(&start),
        end.available_at@.len() == start.available_at@.len(),
        end.current_time == start.current_time,
    decreases upto,
{
    if upto > 0 {
        let before = choose|before: TrialState|
            pass_reaches(start, before, upto - 1) && #[trigger] served(before, end, upto - 1);
        lemma_pass_keeps_wf(start, before, upto - 1);
        if before.ready@.len() > 0 && before.available_at@[upto - 1] <= before.current_time {
            let pick = choose|pick: int| #[trigger] assigned(before, end, upto - 1, pick);
            lemma_assigned_keeps_wf(before, end, upto - 1, pick);
        }
    }
}

/// A round keeps the state well formed; it changes neither the project
/// nor the number of workers; after it nothing waits for release and the
/// clock stands at an event.
pub proof fn lemma_round_keeps_wf(start: TrialState, end: TrialState)
    requires
        start.wf(),
        round(start, end),
    ensures
        end.wf(),
        end.at_event(),
        end.just_completed@.len() == 0,
        end.same_project(&start),
        end.available_at@.len() == start.available_at@.len(),
        end.current_time >= start.current_time,
{
    let (taken, released) = choose|taken: TrialState, released: TrialState|
        {
            &&& pass_reaches(start, taken, start.available_at@.len() as int)
            &&& #[trigger] released_from(taken, released)
            &&& advanced_from(released, end)
        };
    lemma_pass_keeps_wf(start, taken, start.available_at@.len() as int);
    lemma_released_keeps_wf(taken, released);
    lemma_advanced_keeps_wf(released, end);
}

/// Rounds keep the state well formed; they change neither the project nor
/// the number of workers, and the clock never moves back.
pub proof fn lemma_run_keeps_wf(start: TrialState, end: TrialState, rounds: nat)
    requires
        start.wf(),
        runs_to(start, end, rounds),
    ensures
        end.wf(),
        end.same_project(&start),
        end.available_at@.len() == start.available_at@.len(),
        end.current_time >= start.current_time,
    decreases rounds,
{
    if rounds > 0 {
        let before = choose|before: TrialState|
            runs_to(start, before, (rounds - 1) as nat) && #[trigger] round(before, end);
        lemma_run_keeps_wf(start, before, (rounds - 1) as nat);
        lemma_round_keeps_wf(before, end);
    }
}

/// The workers' turns do not change the project.
pub proof fn lemma_pass_keeps_project(start: TrialState, end: TrialState, upto: int)
    requires
        pass_reaches(start, end, upto),
    ensures
        end.same_project(&start),
    decreases upto,
{
    if upto > 0 {
        let before = choose|before: TrialState|
            pass_reaches(start, before, upto - 1) && #[trigger] served(before, end, upto - 1);
        lemma_pass_keeps_project(start, before, upto - 1);
        if before.ready@.len() > 0 && before.available_at@[upto - 1] <= before.current_time {
            let pick = choose|pick: int| #[trigger] assigned(before, end, upto - 1, pick);
        }
    }
}

/// Rounds do not change the project: the durations, the dependencies and
/// the dependents at the end are those of the beginning.
pub proof fn lemma_run_keeps_project(start: TrialState, end: TrialState, rounds: nat)
    requires
        runs_to(start, end, rounds),
    ensures
        end.same_project(&start),
    decreases rounds,
{
    if rounds > 0 {
        let before = choose|before: TrialState|
            runs_to(start, before, (rounds - 1) as nat) && #[trigger] round(before, end);
        lemma_run_keeps_project(start, before, (rounds - 1) as nat);
        let (taken, released) = choose|taken: TrialState, released: TrialState|
            {
                &&& pass_reaches(before, taken, before.available_at@.len() as int)
                &&& #[trigger] released_from(taken, released)
                &&& advanced_from(released, end)
            };
        lemma_pass_keeps_project(before, taken, before.available_at@.len() as int);
    }
}

/// While a task is left to complete and nothing waits for release, some
/// task is ready.
pub proof fn lemma_work_remains(state: TrialState)
    requires
        state.wf(),
        state.just_completed@.len() == 0,
        !state.all_completed(),
    ensures
        state.ready@.len() > 0,
{
    let g = state.graph();
    assert(g.len() == state.dependencies.len());
    let done = Set::new(|i: int| 0 <= i < state.completed@.len() && state.completed@[i]);
    let v = choose|v: int| 0 <= v < state.completed@.len() && !#[trigger] state.completed@[v];
    assert(!done.contains(v));
    lemma_acyclic_has_free_node(g, done);
    let u = choose|u: int|
        0 <= u < g.len() && !done.contains(u) && !#[trigger] leads_outside(g, done, u);
    assert forall|k: int| 0 <= k < g[u].len() implies state.completed@[#[trigger] g[u][k]] by {
        if !state.completed@[g[u][k]] {
            assert(has_edge(g, u, g[u][k]));
            assert(!done.contains(g[u][k]));
            assert(leads_outside(g, done, u));
        }
    }
    assert(!state.completed@[u]);
    assert(eligible(g, state.completed@, u as usize));
    assert(state.ready@.contains(u as usize) || state.awaits_release(u as usize));
}

/// A well formed state in which every task is completed yields a result
/// within known bounds: the project takes no longer than the effort, at
/// least the effort shared out evenly among the workers, and at least as
/// long as each single task.
pub proof fn lemma_finished_result(state: TrialState, result: SimulationResult)
    requires
        state.wf(),
        state.all_completed(),
        state.yields(result),
    ensures
        trial_result(state.available_at@.len(), state.durations@, result),
{
    lemma_marked_total_bounds(state.durations@, state.completed@);
    lemma_total_at_most(state.available_at@, result.total_project_duration as nat);
    let w = choose|w: int|
        0 <= w < state.available_at@.len() && #[trigger] state.available_at@[w]
            == result.total_project_duration;
    assert(state.available_at@[w] <= state.completed_effort());
    assert forall|i: int| 0 <= i < state.durations@.len() implies #[trigger] state.durations@[i]
        <= result.total_project_duration by {
        assert(state.completed@[i]);
        assert(reaches(state.available_at@, state.durations@[i]));
    }
}

} // verus!

use mcps::schedule::Schedule;
use mcps::series::{greatest_of, least_of, sum_of};
use mcps::task::Task;
use mcps::trial::{repeated, TrialState};

fn task(id: &str, deps: Vec<&str>) -> Task {
    Task::new(id, deps.into_iter().map(String::from).collect(), 1, 100)
}

fn fork() -> Schedule {
    Schedule::new(
        vec![task("A", vec![]), task("B", vec!["A"]), task("C", vec!["A"])],
        2,
        800_000,
    )
    .unwrap()
}

#[test]
fn test_new_trial_state() {
    let state = TrialState::new(&fork(), vec![5, 7, 3]);
    assert_eq!(state.durations, vec![5, 7, 3]);
    assert_eq!(state.dependencies, vec![vec![], vec![0], vec![0]]);
    assert_eq!(state.dependents, vec![vec![1, 2], vec![], vec![]]);
    assert_eq!(state.completed, vec![false, false, false]);
    assert_eq!(state.completed_count, 0);
    assert_eq!(state.ready, vec![0]);
    assert!(state.just_completed.is_empty());
    assert_eq!(state.available_at, vec![0, 0]);
    assert_eq!(state.current_time, 0);
    assert!(!state.is_finished());
}

#[test]
fn test_new_trial_state_lists_sources_in_order() {
    let schedule = Schedule::new(
        vec![
            task("A", vec![]),
            task("B", vec!["A"]),
            task("C", vec![]),
            task("D", vec!["C", "A"]),
            task("E", vec![]),
        ],
        3,
        800_000,
    )
    .unwrap();
    let state = TrialState::new(&schedule, vec![1, 2, 3, 4, 5]);
    assert_eq!(state.ready, vec![0, 2, 4]);
    assert_eq!(state.available_at, vec![0, 0, 0]);
    assert_eq!(
        state.dependents,
        vec![vec![1, 3], vec![], vec![3], vec![], vec![]]
    );
}

#[test]
fn test_trial_step_by_step() {
    let mut state = TrialState::new(&fork(), vec![5, 7, 3]);

    assert_eq!(state.assign(0, 0), 0);
    assert_eq!(state.ready, Vec::<usize>::new());
    assert_eq!(state.completed, vec![true, false, false]);
    assert_eq!(state.completed_count, 1);
    assert_eq!(state.just_completed, vec![0]);
    assert_eq!(state.available_at, vec![5, 0]);
    assert_eq!(state.current_time, 0);

    state.release();
    assert_eq!(state.ready, vec![1, 2]);
    assert!(state.just_completed.is_empty());

    state.advance();
    assert_eq!(state.current_time, 0);

    assert_eq!(state.assign(1, 1), 2);
    assert_eq!(state.ready, vec![1]);
    assert_eq!(state.completed, vec![true, false, true]);
    assert_eq!(state.available_at, vec![5, 3]);

    state.release();
    assert_eq!(state.ready, vec![1]);
    state.advance();
    assert_eq!(state.current_time, 3);

    assert_eq!(state.assign(1, 0), 1);
    assert_eq!(state.available_at, vec![5, 10]);
    assert_eq!(state.completed_count, 3);
    state.release();
    state.advance();
    assert_eq!(state.current_time, 5);

    assert!(state.is_finished());
    let result = state.result();
    assert_eq!(result.total_project_duration, 10);
    assert_eq!(result.total_effort_time, 15);
}

#[test]
fn test_assign_moves_last_ready_task_into_the_gap() {
    let schedule = Schedule::new(
        vec![task("A", vec![]), task("B", vec![]), task("C", vec![])],
        1,
        800_000,
    )
    .unwrap();
    let mut state = TrialState::new(&schedule, vec![4, 5, 6]);
    assert_eq!(state.ready, vec![0, 1, 2]);
    assert_eq!(state.assign(0, 0), 0);
    assert_eq!(state.ready, vec![2, 1]);
    assert_eq!(state.available_at, vec![4]);
}

#[test]
fn test_release_waits_for_every_dependency() {
    let schedule = Schedule::new(
        vec![task("A", vec![]), task("B", vec![]), task("C", vec!["A", "B"])],
        2,
        800_000,
    )
    .unwrap();
    let mut state = TrialState::new(&schedule, vec![4, 5, 6]);
    state.assign(0, 0);
    state.release();
    assert_eq!(state.ready, vec![1]);
    assert!(!state.dependencies_done(2));
    state.assign(1, 0);
    assert!(state.dependencies_done(2));
    state.release();
    assert_eq!(state.ready, vec![2]);
    assert!(state.is_ready(2));
    assert!(!state.is_ready(1));
}

#[test]
fn test_release_lists_a_task_once() {
    let schedule = Schedule::new(
        vec![task("A", vec![]), task("B", vec!["A", "A"])],
        1,
        800_000,
    )
    .unwrap();
    let mut state = TrialState::new(&schedule, vec![4, 5]);
    assert_eq!(state.dependents, vec![vec![1, 1], vec![]]);
    state.assign(0, 0);
    state.release();
    assert_eq!(state.ready, vec![1]);
}

#[test]
fn test_release_dependents_of_one_task() {
    let schedule = Schedule::new(
        vec![
            task("A", vec![]),
            task("B", vec![]),
            task("C", vec!["A"]),
            task("D", vec!["B"]),
        ],
        2,
        800_000,
    )
    .unwrap();
    let mut state = TrialState::new(&schedule, vec![1, 2, 3, 4]);
    assert_eq!(state.assign(0, 1), 1);
    assert_eq!(state.assign(1, 0), 0);
    assert_eq!(state.just_completed, vec![1, 0]);
    state.release_dependents(0);
    assert_eq!(state.ready, vec![3]);
    assert_eq!(state.just_completed, vec![1, 0]);
    state.release_dependents(1);
    assert_eq!(state.ready, vec![3, 2]);
}

#[test]
fn test_assign_ready_gives_each_free_worker_a_task() {
    let schedule = Schedule::new(
        vec![task("A", vec![]), task("B", vec![]), task("C", vec![])],
        2,
        800_000,
    )
    .unwrap();
    let mut state = TrialState::new(&schedule, vec![4, 5, 6]);
    state.assign_ready();
    assert_eq!(state.completed_count, 2);
    assert_eq!(state.ready.len(), 1);
    assert_eq!(state.just_completed.len(), 2);
    assert_eq!(state.current_time, 0);
    assert!(state.available_at.iter().all(|&t| t > 0));
    state.release();
    state.advance();
    assert_eq!(state.current_time, *state.available_at.iter().min().unwrap());
    state.assign_ready();
    assert!(state.is_finished());
}

#[test]
fn test_assign_ready_stops_when_nothing_is_ready() {
    let schedule = Schedule::new(vec![task("A", vec![])], 3, 800_000).unwrap();
    let mut state = TrialState::new(&schedule, vec![9]);
    state.assign_ready();
    assert_eq!(state.available_at, vec![9, 0, 0]);
    assert!(state.is_finished());
    assert_eq!(state.result().total_project_duration, 9);
    assert_eq!(state.result().total_effort_time, 9);
}

#[test]
fn test_repeated() {
    assert_eq!(repeated(7u128, 3), vec![7, 7, 7]);
    assert_eq!(repeated(false, 0), Vec::<bool>::new());
}

#[test]
fn test_series() {
    assert_eq!(sum_of(&vec![]), 0);
    assert_eq!(sum_of(&vec![1, 2, 3, 4]), 10);
    assert_eq!(sum_of(&vec![u128::MAX - 1, 1]), u128::MAX);
    assert_eq!(least_of(&vec![4, 2, 9, 2]), 2);
    assert_eq!(least_of(&vec![7]), 7);
    assert_eq!(greatest_of(&vec![4, 2, 9, 2]), 9);
    assert_eq!(greatest_of(&vec![7]), 7);
}

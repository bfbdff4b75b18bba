use mcps::schedule::Schedule;
use mcps::sampler::{sample_durations, sampling_parameters, simulate_task_time};
use mcps::simulation::{run_multiple_simulations, run_simulation, simulate_trial};
use mcps::task::Task;
use rand::thread_rng;
use rand::Rng;
use rand_distr::{Distribution, Normal};
use std::time::Duration;

fn secs(s: u64) -> u128 {
    Duration::from_secs(s).as_nanos()
}

fn normal_draw(rng: &mut impl Rng, min_time: u128, max_time: u128, confidence: u32) -> i128 {
    let (mean, std_dev) = sampling_parameters(min_time, max_time, confidence);
    Normal::new(mean as f64, std_dev as f64)
        .unwrap()
        .sample(rng) as i128
}

fn draws_for(schedule: &Schedule) -> Vec<i128> {
    let mut rng = thread_rng();
    schedule
        .tasks
        .iter()
        .map(|t| normal_draw(&mut rng, t.min_time, t.max_time, schedule.estimate_confidence))
        .collect()
}

#[test]
fn test_simulate_task_time() {
    let mut rng = thread_rng();
    let min_time = secs(5);
    let max_time = secs(15);
    let estimate_confidence = 800_000;

    for _ in 0..1000 {
        let draw = normal_draw(&mut rng, min_time, max_time, estimate_confidence);
        let time = simulate_task_time(draw, min_time, max_time);
        assert!(
            time >= min_time && time <= max_time,
            "Simulated time should be within range"
        );
    }
}

#[test]
fn test_single_task_simulation() {
    let task = Task::new("A", vec![], secs(5), secs(15));
    let schedule = Schedule::new(vec![task], 1, 800_000).unwrap();

    let result = run_simulation(&schedule, &draws_for(&schedule));

    assert_eq!(
        result.total_project_duration, result.total_effort_time,
        "For a single task, project duration should equal effort time"
    );
    assert!(
        result.total_project_duration >= secs(5) && result.total_project_duration <= secs(15),
        "Project duration should be within the task's time range"
    );
}

#[test]
fn test_multiple_independent_tasks() {
    let tasks = vec![
        Task::new("A", vec![], secs(5), secs(10)),
        Task::new("B", vec![], secs(7), secs(12)),
        Task::new("C", vec![], secs(3), secs(8)),
    ];
    let schedule = Schedule::new(tasks, 2, 800_000).unwrap();

    let result = run_simulation(&schedule, &draws_for(&schedule));

    assert!(
        result.total_project_duration <= result.total_effort_time,
        "Project duration should not exceed total effort time"
    );
    assert!(
        result.total_project_duration >= secs(7),
        "Project duration should be at least the longest minimum task duration"
    );
}

#[test]
fn test_tasks_with_dependencies() {
    let tasks = vec![
        Task::new("A", vec![], secs(5), secs(10)),
        Task::new("B", vec!["A".to_string()], secs(7), secs(12)),
        Task::new("C", vec!["A".to_string()], secs(3), secs(8)),
        Task::new(
            "D",
            vec!["B".to_string(), "C".to_string()],
            secs(4),
            secs(9),
        ),
    ];
    let schedule = Schedule::new(tasks, 2, 800_000).unwrap();

    let result = run_simulation(&schedule, &draws_for(&schedule));

    // A task counts as completed as soon as a worker has taken it, so B or C
    // starts beside A and the project can end before its longest chain of
    // dependencies would. Whatever is drawn, B and C take at least ten
    // seconds between them before D ends.
    assert!(
        result.total_project_duration >= secs(10),
        "Project duration should be at least ten seconds"
    );
    assert!(result.total_project_duration <= result.total_effort_time);
    assert!(result.total_effort_time >= secs(5 + 7 + 3 + 4));
}

#[test]
fn test_multiple_simulations_consistency() {
    let tasks = vec![
        Task::new("A", vec![], secs(5), secs(10)),
        Task::new("B", vec!["A".to_string()], secs(7), secs(12)),
    ];
    let schedule = Schedule::new(tasks, 1, 800_000).unwrap();

    let draws: Vec<Vec<i128>> = (0..1000).map(|_| draws_for(&schedule)).collect();
    let (durations, efforts) = run_multiple_simulations(&schedule, &draws);

    assert_eq!(durations.len(), 1000, "Should run 1000 simulations");
    assert_eq!(efforts.len(), 1000, "Should run 1000 simulations");

    let avg_duration: u128 = durations.iter().sum::<u128>() / 1000;
    let avg_effort: u128 = efforts.iter().sum::<u128>() / 1000;

    assert!(
        avg_duration >= secs(12) && avg_duration <= secs(22),
        "Average duration should be within expected range"
    );
    assert!(
        avg_effort >= secs(12) && avg_effort <= secs(22),
        "Average effort should be within expected range"
    );
}

#[test]
fn test_simulate_task_time_exact() {
    assert_eq!(simulate_task_time(15, 10, 20), 15);
    assert_eq!(simulate_task_time(10, 10, 20), 10);
    assert_eq!(simulate_task_time(20, 10, 20), 20);
    assert_eq!(simulate_task_time(9, 10, 20), 10);
    assert_eq!(simulate_task_time(21, 10, 20), 20);
    assert_eq!(simulate_task_time(-1, 10, 20), 10);
    assert_eq!(simulate_task_time(0, 10, 20), 10);
    assert_eq!(simulate_task_time(i128::MIN, 10, 20), 10);
    assert_eq!(simulate_task_time(i128::MAX, 10, 20), 20);
    assert_eq!(simulate_task_time(i128::MAX, 1, u128::MAX), i128::MAX as u128);
}

#[test]
fn test_simulate_task_time_with_equal_bounds() {
    for draw in [i128::MIN, -3, 0, 6, 7, 8, i128::MAX] {
        assert_eq!(simulate_task_time(draw, 7, 7), 7);
    }
}

#[test]
fn test_sample_durations() {
    let tasks = vec![
        Task::new("A", vec![], 10, 20),
        Task::new("B", vec![], 5, 5),
        Task::new("C", vec![], 1, 1000),
    ];
    let schedule = Schedule::new(tasks, 1, 800_000).unwrap();
    assert_eq!(sample_durations(&schedule, &vec![25, 1, 500]), vec![20, 5, 500]);
    assert_eq!(sample_durations(&schedule, &vec![-4, 9, 0]), vec![10, 5, 1]);
}

#[test]
fn test_effort_is_sum_of_sampled_durations() {
    let tasks = vec![
        Task::new("A", vec![], 10, 20),
        Task::new("B", vec!["A".to_string()], 5, 5),
        Task::new("C", vec!["A".to_string()], 1, 1000),
    ];
    for workers in [1, 2, 3, 10] {
        let schedule = Schedule {
            tasks: tasks.clone(),
            num_workers: workers,
            estimate_confidence: 800_000,
        };
        assert_eq!(schedule.validate(), Ok(()));
        let result = run_simulation(&schedule, &vec![25, 1, 500]);
        assert_eq!(result.total_effort_time, 525);
        assert!(result.total_project_duration <= 525);
        assert!(result.total_project_duration >= 500);
        assert!(result.total_project_duration * workers as u128 >= 525);
    }
}

#[test]
fn test_single_worker_works_off_the_tasks_one_by_one() {
    let tasks = vec![
        Task::new("A", vec![], 1, 100),
        Task::new("B", vec!["A".to_string()], 1, 100),
        Task::new("C", vec!["A".to_string()], 1, 100),
        Task::new("D", vec!["B".to_string(), "C".to_string()], 1, 100),
    ];
    let schedule = Schedule::new(tasks, 1, 800_000).unwrap();
    for _ in 0..50 {
        let result = simulate_trial(&schedule, vec![11, 22, 33, 44]);
        assert_eq!(result.total_project_duration, 110);
        assert_eq!(result.total_effort_time, 110);
    }
}

#[test]
fn test_chain_with_two_workers() {
    // A dependent task is ready as soon as a worker has taken the task that
    // it depends on, so with two workers A and B start together.
    let tasks = vec![
        Task::new("A", vec![], 1, 100),
        Task::new("B", vec!["A".to_string()], 1, 100),
    ];
    let schedule = Schedule::new(tasks, 2, 800_000).unwrap();
    let result = simulate_trial(&schedule, vec![30, 50]);
    assert_eq!(result.total_project_duration, 50);
    assert_eq!(result.total_effort_time, 80);
}

#[test]
fn test_independent_tasks_with_as_many_workers() {
    let tasks = vec![
        Task::new("A", vec![], 1, 100),
        Task::new("B", vec![], 1, 100),
        Task::new("C", vec![], 1, 100),
    ];
    let schedule = Schedule::new(tasks, 3, 800_000).unwrap();
    let result = simulate_trial(&schedule, vec![30, 50, 40]);
    assert_eq!(result.total_project_duration, 50);
    assert_eq!(result.total_effort_time, 120);
}

#[test]
fn test_every_pick_is_taken_sooner_or_later() {
    // Two tasks and two workers: whichever task the first worker takes,
    // the second worker takes the other one.
    let tasks = vec![Task::new("A", vec![], 1, 100), Task::new("B", vec![], 1, 100)];
    let schedule = Schedule::new(tasks, 2, 800_000).unwrap();
    for _ in 0..100 {
        let result = simulate_trial(&schedule, vec![3, 8]);
        assert_eq!(result.total_project_duration, 8);
        assert_eq!(result.total_effort_time, 11);
    }
}

#[test]
fn test_effort_fits() {
    let small = Schedule::new(vec![Task::new("A", vec![], 1, u128::MAX)], 1, 800_000).unwrap();
    assert!(small.effort_fits());
    let large = Schedule::new(
        vec![
            Task::new("A", vec![], 1, u128::MAX),
            Task::new("B", vec![], 1, 1),
        ],
        1,
        800_000,
    )
    .unwrap();
    assert!(!large.effort_fits());
    let empty = Schedule {
        tasks: vec![],
        num_workers: 1,
        estimate_confidence: 800_000,
    };
    assert!(empty.effort_fits());
}

#[test]
fn test_run_multiple_simulations_pairs_results() {
    let schedule = Schedule::new(vec![Task::new("A", vec![], 10, 1000)], 1, 800_000).unwrap();
    let draws: Vec<Vec<i128>> = (0..500).map(|t| vec![t as i128 * 3]).collect();
    let (durations, efforts) = run_multiple_simulations(&schedule, &draws);
    assert_eq!(durations.len(), 500);
    assert_eq!(efforts.len(), 500);
    for t in 0..500 {
        assert_eq!(durations[t], efforts[t]);
        assert_eq!(efforts[t], simulate_task_time(t as i128 * 3, 10, 1000));
    }
}

#[test]
fn test_run_multiple_simulations_without_trials() {
    let schedule = Schedule::new(vec![Task::new("A", vec![], 10, 1000)], 1, 800_000).unwrap();
    let (durations, efforts) = run_multiple_simulations(&schedule, &vec![]);
    assert!(durations.is_empty());
    assert!(efforts.is_empty());
}

#[test]
fn test_two_tasks_in_a_row_with_one_worker() {
    let day: u128 = 86_400_000_000_000;
    let tasks = vec![
        Task::new("A", vec![], day, 3 * day),
        Task::new("B", vec!["A".to_string()], 2 * day, 4 * day),
    ];
    let schedule = Schedule::new(tasks, 1, 800_000).unwrap();
    let draws: Vec<Vec<i128>> = (0..10_000).map(|_| draws_for(&schedule)).collect();
    let (durations, efforts) = run_multiple_simulations(&schedule, &draws);
    assert_eq!(durations.len(), 10_000);
    for t in 0..10_000 {
        assert!(durations[t] >= 3 * day && durations[t] <= 7 * day);
        assert_eq!(durations[t], efforts[t]);
    }
}

#[test]
fn test_tasks_of_one_name_are_each_worked_off() {
    // A name stands for the last task of that name; the other task of the
    // name is a task of its own that nothing depends on.
    let tasks = vec![
        Task::new("A", vec![], 1, 100),
        Task::new("B", vec!["A".to_string()], 1, 100),
        Task::new("A", vec![], 1, 100),
    ];
    let schedule = Schedule::new(tasks, 1, 800_000).unwrap();
    assert_eq!(schedule.dependency_lists(), vec![vec![], vec![2], vec![]]);
    let result = simulate_trial(&schedule, vec![10, 20, 30]);
    assert_eq!(result.total_effort_time, 60);
    assert_eq!(result.total_project_duration, 60);
}

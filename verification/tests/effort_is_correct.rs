use mcps::sampler::sampling_parameters;
use mcps::schedule::Schedule;
use mcps::simulation::run_multiple_simulations;
use mcps::task::Task;
use rand::thread_rng;
use rand::Rng;
use rand_distr::{Distribution, Normal};

fn days_to_nanos(days: f64) -> u128 {
    (days * 24.0 * 60.0 * 60.0 * 1e9) as u128
}

fn effort_draw(rng: &mut impl Rng, min_time: u128, max_time: u128, confidence: u32) -> i128 {
    let (mean, std_dev) = sampling_parameters(min_time, max_time, confidence);
    Normal::new(mean as f64, std_dev as f64)
        .unwrap()
        .sample(rng) as i128
}

fn effort_draws(schedule: &Schedule, trials: usize) -> Vec<Vec<i128>> {
    let mut rng = thread_rng();
    (0..trials)
        .map(|_| {
            schedule
                .tasks
                .iter()
                .map(|t| effort_draw(&mut rng, t.min_time, t.max_time, schedule.estimate_confidence))
                .collect()
        })
        .collect()
}

#[test]
fn test_average_effort_calculation() {
    let num_tasks = 10;
    let min_days = 5.0;
    let max_days = 15.0;
    let expected_avg_days = 10.0;
    let estimate_confidence = 800_000;
    let num_simulations = 10000;
    let num_workers = 1; // Using 1 worker to simplify effort calculation

    // Create tasks
    let tasks: Vec<Task> = (0..num_tasks)
        .map(|i| {
            Task::new(
                &format!("Task{}", i),
                vec![],
                days_to_nanos(min_days),
                days_to_nanos(max_days),
            )
        })
        .collect();

    let schedule =
        Schedule::new(tasks, num_workers, estimate_confidence).expect("Failed to create schedule");

    let (_, effort_times) =
        run_multiple_simulations(&schedule, &effort_draws(&schedule, num_simulations));

    let total_effort: u128 = effort_times.iter().sum();
    let avg_effort = total_effort / num_simulations as u128;
    let avg_effort_days = avg_effort as f64 / 1e9 / 86400.0;

    println!(
        "Average effort: {:.2} days (expected: {:.2} days)",
        avg_effort_days,
        expected_avg_days * num_tasks as f64
    );

    // Check if the average effort is within 1% of the expected value
    let expected_total_days = expected_avg_days * num_tasks as f64;
    let difference_percentage =
        (avg_effort_days - expected_total_days).abs() / expected_total_days * 100.0;

    assert!(
        difference_percentage < 1.0,
        "Average effort ({:.2} days) deviates more than 1% from expected ({:.2} days)",
        avg_effort_days,
        expected_total_days
    );
}

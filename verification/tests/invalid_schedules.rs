use mcps::schedule::Schedule;
use mcps::task::Task;

fn days(days: f64) -> u128 {
    (days * 24.0 * 60.0 * 60.0 * 1e9) as u128
}

fn create_schedule_and_expect_error(tasks: Vec<Task>, expected_error: &str) {
    let result = Schedule::new(tasks, 1, 800_000);

    assert!(
        result.is_err(),
        "Expected schedule creation to fail, but it didn't"
    );
    if let Err(error_message) = result {
        assert!(
            error_message.contains(expected_error),
            "Expected error message '{}', but got '{}'",
            expected_error,
            error_message
        );
    }
}

#[test]
fn invalid_schedules_test_cyclic_dependency() {
    let tasks = vec![
        Task::new("A", vec!["B".to_string()], days(1.0), days(2.0)),
        Task::new("B", vec!["A".to_string()], days(1.0), days(2.0)),
    ];

    create_schedule_and_expect_error(tasks, "Cyclic dependency detected");
}

#[test]
fn invalid_schedules_test_missing_dependency() {
    let tasks = vec![
        Task::new("A", vec!["C".to_string()], days(1.0), days(2.0)),
        Task::new("B", vec!["A".to_string()], days(1.0), days(2.0)),
    ];

    create_schedule_and_expect_error(tasks, "Missing dependency");
}

#[test]
fn test_negative_duration() {
    let tasks = vec![Task::new("A", vec![], days(0.0), days(1.0))];

    create_schedule_and_expect_error(tasks, "Invalid task duration");
}

#[test]
fn test_min_greater_than_max() {
    let tasks = vec![Task::new("A", vec![], days(3.0), days(2.0))];

    create_schedule_and_expect_error(tasks, "Minimum duration greater than maximum");
}

#[test]
fn invalid_schedules_test_empty_task_list() {
    let tasks = vec![];
    create_schedule_and_expect_error(tasks, "Empty task list");
}

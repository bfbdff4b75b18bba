use mcps::schedule::{index_by_id, resolve_dependencies, Schedule, FULL_CONFIDENCE};
use mcps::task::Task;
use std::time::Duration;

fn create_task(id: &str, min: u64, max: u64, deps: Vec<&str>) -> Task {
    Task {
        id: id.to_string(),
        dependencies: deps.into_iter().map(String::from).collect(),
        min_time: Duration::from_secs(min).as_nanos(),
        max_time: Duration::from_secs(max).as_nanos(),
    }
}

#[test]
fn test_valid_schedule() {
    let tasks = vec![
        create_task("A", 1, 3, vec![]),
        create_task("B", 2, 4, vec!["A"]),
        create_task("C", 3, 5, vec!["A"]),
    ];
    let schedule = Schedule::new(tasks, 2, 800_000);
    assert!(schedule.is_ok());
}

#[test]
fn schedule_test_empty_task_list() {
    let schedule = Schedule::new(vec![], 2, 800_000);
    assert!(schedule.is_err());
    assert_eq!(schedule.unwrap_err(), "Empty task list");
}

#[test]
fn test_invalid_task_duration() {
    let tasks = vec![create_task("A", 3, 1, vec![])];
    let schedule = Schedule::new(tasks, 2, 800_000);
    assert!(schedule.is_err());
    assert_eq!(
        schedule.unwrap_err(),
        "Minimum duration greater than maximum for task A"
    );
}

#[test]
fn test_zero_duration() {
    let tasks = vec![create_task("A", 0, 1, vec![])];
    let schedule = Schedule::new(tasks, 2, 800_000);
    assert!(schedule.is_err());
    assert_eq!(schedule.unwrap_err(), "Invalid task duration for task A");
}

#[test]
fn schedule_test_missing_dependency() {
    let tasks = vec![
        create_task("A", 1, 3, vec![]),
        create_task("B", 2, 4, vec!["C"]),
    ];
    let schedule = Schedule::new(tasks, 2, 800_000);
    assert!(schedule.is_err());
    assert_eq!(schedule.unwrap_err(), "Missing dependency C for task B");
}

#[test]
fn schedule_test_cyclic_dependency() {
    let tasks = vec![
        create_task("A", 1, 3, vec!["B"]),
        create_task("B", 2, 4, vec!["A"]),
    ];
    let schedule = Schedule::new(tasks, 2, 800_000);
    assert!(schedule.is_err());
    assert!(schedule
        .unwrap_err()
        .starts_with("Cyclic dependency detected involving task"));
}

#[test]
fn test_complex_valid_schedule() {
    let tasks = vec![
        create_task("A", 1, 3, vec![]),
        create_task("B", 2, 4, vec!["A"]),
        create_task("C", 3, 5, vec!["A"]),
        create_task("D", 2, 6, vec!["B", "C"]),
        create_task("E", 1, 2, vec!["A"]),
        create_task("F", 2, 4, vec!["D", "E"]),
    ];
    let schedule = Schedule::new(tasks, 3, 900_000);
    assert!(schedule.is_ok());
}

#[test]
fn test_complex_cyclic_dependency() {
    let tasks = vec![
        create_task("A", 1, 3, vec!["F"]),
        create_task("B", 2, 4, vec!["A"]),
        create_task("C", 3, 5, vec!["B"]),
        create_task("D", 2, 6, vec!["C"]),
        create_task("E", 1, 2, vec!["D"]),
        create_task("F", 2, 4, vec!["E"]),
    ];
    let schedule = Schedule::new(tasks, 3, 900_000);
    assert!(
        schedule.is_err(),
        "Expected cyclic dependency error, but got Ok"
    );
    if let Err(err) = schedule {
        assert!(
            err.starts_with("Cyclic dependency detected"),
            "Unexpected error message: {}",
            err
        );
    }
}

#[test]
fn test_self_dependency() {
    let tasks = vec![create_task("A", 1, 3, vec!["A"])];
    let schedule = Schedule::new(tasks, 1, 800_000);
    assert!(
        schedule.is_err(),
        "Expected self-dependency error, but got Ok"
    );
    if let Err(err) = schedule {
        assert!(
            err.starts_with("Cyclic dependency detected"),
            "Unexpected error message: {}",
            err
        );
    }
}

#[test]
fn test_new_keeps_what_it_was_given() {
    let tasks = vec![
        create_task("A", 1, 3, vec![]),
        create_task("B", 2, 4, vec!["A"]),
    ];
    let schedule = Schedule::new(tasks, 4, 950_000).unwrap();
    assert_eq!(schedule.tasks.len(), 2);
    assert_eq!(schedule.tasks[0].id, "A");
    assert_eq!(schedule.tasks[1].id, "B");
    assert_eq!(schedule.tasks[1].dependencies, vec!["A"]);
    assert_eq!(schedule.num_workers, 4);
    assert_eq!(schedule.estimate_confidence, 950_000);
}

#[test]
fn test_no_workers() {
    let tasks = vec![create_task("A", 1, 3, vec![])];
    let schedule = Schedule::new(tasks, 0, 800_000);
    assert_eq!(
        schedule.unwrap_err(),
        "Invalid number of workers (must be 1 or more)"
    );
}

#[test]
fn test_empty_list_is_reported_before_no_workers() {
    let schedule = Schedule::new(vec![], 0, 0);
    assert_eq!(schedule.unwrap_err(), "Empty task list");
}

#[test]
fn test_no_workers_is_reported_before_a_faulty_task() {
    let tasks = vec![create_task("A", 3, 1, vec!["Z"])];
    let schedule = Schedule::new(tasks, 0, 800_000);
    assert_eq!(
        schedule.unwrap_err(),
        "Invalid number of workers (must be 1 or more)"
    );
}

#[test]
fn test_bounds_are_checked_before_dependencies() {
    let tasks = vec![create_task("A", 3, 1, vec!["Z"])];
    let schedule = Schedule::new(tasks, 1, 800_000);
    assert_eq!(
        schedule.unwrap_err(),
        "Minimum duration greater than maximum for task A"
    );
}

#[test]
fn test_zero_bounds() {
    let tasks = vec![create_task("A", 0, 0, vec![])];
    let schedule = Schedule::new(tasks, 1, 800_000);
    assert_eq!(schedule.unwrap_err(), "Invalid task duration for task A");
}

#[test]
fn test_bounds_of_every_task_come_before_any_dependency() {
    let tasks = vec![
        create_task("A", 1, 3, vec![]),
        create_task("B", 2, 4, vec!["Y", "Z"]),
        create_task("C", 5, 4, vec![]),
    ];
    let schedule = Schedule::new(tasks, 1, 800_000);
    assert_eq!(
        schedule.unwrap_err(),
        "Minimum duration greater than maximum for task C"
    );
}

#[test]
fn test_bounds_of_a_later_task_come_before_a_missing_dependency() {
    let tasks = vec![
        create_task("A", 1, 3, vec!["X"]),
        create_task("B", 3, 1, vec![]),
    ];
    let schedule = Schedule::new(tasks, 1, 800_000);
    assert_eq!(
        schedule.unwrap_err(),
        "Minimum duration greater than maximum for task B"
    );
}

#[test]
fn test_zero_bound_of_a_later_task_comes_before_a_missing_dependency() {
    let tasks = vec![
        create_task("A", 1, 3, vec!["X"]),
        create_task("B", 0, 1, vec![]),
    ];
    let schedule = Schedule::new(tasks, 1, 800_000);
    assert_eq!(schedule.unwrap_err(), "Invalid task duration for task B");
}

#[test]
fn test_first_task_with_bounds_out_of_order_is_reported() {
    let tasks = vec![
        create_task("A", 1, 3, vec![]),
        create_task("B", 0, 4, vec![]),
        create_task("C", 5, 4, vec![]),
    ];
    let schedule = Schedule::new(tasks, 1, 800_000);
    assert_eq!(schedule.unwrap_err(), "Invalid task duration for task B");
}

#[test]
fn test_first_missing_dependency_is_reported() {
    let tasks = vec![
        create_task("A", 1, 3, vec![]),
        create_task("B", 2, 4, vec!["A", "Y", "Z"]),
        create_task("C", 4, 5, vec!["W"]),
    ];
    let schedule = Schedule::new(tasks, 1, 800_000);
    assert_eq!(schedule.unwrap_err(), "Missing dependency Y for task B");
}

#[test]
fn test_validate_says_the_same_twice() {
    let schedule = Schedule {
        tasks: vec![
            create_task("A", 1, 3, vec!["B"]),
            create_task("B", 1, 3, vec!["A"]),
            create_task("C", 1, 3, vec!["D"]),
            create_task("D", 1, 3, vec!["C"]),
        ],
        num_workers: 1,
        estimate_confidence: 800_000,
    };
    let first = schedule.validate();
    assert_eq!(
        first,
        Err("Cyclic dependency detected involving task A".to_string())
    );
    assert_eq!(schedule.validate(), first);
}

#[test]
fn test_missing_dependency_is_reported_before_a_cycle() {
    let tasks = vec![
        create_task("A", 1, 3, vec!["B"]),
        create_task("B", 2, 4, vec!["A", "Z"]),
    ];
    let schedule = Schedule::new(tasks, 1, 800_000);
    assert_eq!(schedule.unwrap_err(), "Missing dependency Z for task B");
}

#[test]
fn test_cycle_names_the_task_met_again() {
    let tasks = vec![
        create_task("A", 1, 3, vec![]),
        create_task("B", 2, 4, vec!["A", "C"]),
        create_task("C", 2, 4, vec!["D"]),
        create_task("D", 2, 4, vec!["C"]),
    ];
    let schedule = Schedule::new(tasks, 1, 800_000);
    assert_eq!(
        schedule.unwrap_err(),
        "Cyclic dependency detected involving task C"
    );
}

#[test]
fn test_self_dependency_names_the_task() {
    let tasks = vec![create_task("A", 1, 3, vec!["A"])];
    let schedule = Schedule::new(tasks, 1, 800_000);
    assert_eq!(
        schedule.unwrap_err(),
        "Cyclic dependency detected involving task A"
    );
}

#[test]
fn test_confidence_out_of_range() {
    for confidence in [0, FULL_CONFIDENCE, FULL_CONFIDENCE + 1, u32::MAX] {
        let tasks = vec![create_task("A", 1, 3, vec![])];
        let schedule = Schedule::new(tasks, 1, confidence);
        assert_eq!(
            schedule.unwrap_err(),
            "Invalid estimate confidence (must be between 0 and 1)"
        );
    }
}

#[test]
fn test_confidence_at_the_edges_of_its_range() {
    for confidence in [1, FULL_CONFIDENCE - 1] {
        let tasks = vec![create_task("A", 1, 3, vec![])];
        assert!(Schedule::new(tasks, 1, confidence).is_ok());
    }
}

#[test]
fn test_cycle_is_reported_before_confidence() {
    let tasks = vec![create_task("A", 1, 3, vec!["A"])];
    let schedule = Schedule::new(tasks, 1, 0);
    assert_eq!(
        schedule.unwrap_err(),
        "Cyclic dependency detected involving task A"
    );
}

#[test]
fn test_validate_a_schedule_put_together_by_hand() {
    let mut schedule = Schedule {
        tasks: vec![create_task("A", 1, 3, vec![]), create_task("B", 1, 3, vec!["A"])],
        num_workers: 2,
        estimate_confidence: 800_000,
    };
    assert_eq!(schedule.validate(), Ok(()));
    schedule.num_workers = 0;
    assert_eq!(
        schedule.validate(),
        Err("Invalid number of workers (must be 1 or more)".to_string())
    );
}

#[test]
fn test_equal_bounds_are_valid() {
    let tasks = vec![create_task("A", 3, 3, vec![])];
    assert!(Schedule::new(tasks, 1, 800_000).is_ok());
}

#[test]
fn test_repeated_dependency_is_valid() {
    let tasks = vec![
        create_task("A", 1, 3, vec![]),
        create_task("B", 1, 3, vec!["A", "A"]),
    ];
    assert!(Schedule::new(tasks, 1, 800_000).is_ok());
}

#[test]
fn test_index_by_id() {
    let tasks = vec![
        create_task("A", 1, 3, vec![]),
        create_task("B", 1, 3, vec![]),
        create_task("A", 1, 3, vec![]),
    ];
    let index = index_by_id(&tasks);
    assert_eq!(index.get("A"), Some(&2));
    assert_eq!(index.get("B"), Some(&1));
    assert_eq!(index.get("C"), None);
    assert_eq!(index.len(), 2);
}

#[test]
fn test_resolve_dependencies() {
    let tasks = vec![
        create_task("A", 1, 3, vec![]),
        create_task("B", 1, 3, vec!["A"]),
        create_task("C", 1, 3, vec!["B", "A", "B"]),
        create_task("D", 1, 3, vec!["A", "X", "Y"]),
    ];
    let index = index_by_id(&tasks);
    assert_eq!(resolve_dependencies(&tasks, &index, 0), Ok(vec![]));
    assert_eq!(resolve_dependencies(&tasks, &index, 1), Ok(vec![0]));
    assert_eq!(resolve_dependencies(&tasks, &index, 2), Ok(vec![1, 0, 1]));
    assert_eq!(resolve_dependencies(&tasks, &index, 3), Err(1));
}

#[test]
fn test_dependency_lists() {
    let tasks = vec![
        create_task("A", 1, 3, vec![]),
        create_task("B", 1, 3, vec!["A"]),
        create_task("C", 1, 3, vec!["B", "A"]),
    ];
    let schedule = Schedule::new(tasks, 1, 800_000).unwrap();
    assert_eq!(
        schedule.dependency_lists(),
        vec![vec![], vec![0], vec![1, 0]]
    );
}

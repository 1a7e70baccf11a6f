use autorun::autofile::{AutoFile, ConfigError, Task};
use autorun::queue::{TaskId, TaskQueue};

fn def(program: &str, needs: &[&str]) -> Task {
    Task {
        program: program.to_string(),
        arguments: Vec::new(),
        needs: needs.iter().map(|n| n.to_string()).collect(),
    }
}

#[test]
fn duplicate_task_names_are_rejected() {
    let entries = vec![
        ("build".to_string(), def("make", &[])),
        ("build".to_string(), def("cargo", &[])),
    ];
    match AutoFile::from_entries(entries) {
        Err(ConfigError::DuplicateTask { id }) => assert_eq!(id, "build"),
        other => panic!("expected a duplicate-task error, got {:?}", other),
    }
}

#[test]
fn distinct_task_names_are_accepted() {
    let entries = vec![
        ("build".to_string(), def("make", &[])),
        ("lint".to_string(), def("clippy", &[])),
    ];
    assert!(AutoFile::from_entries(entries).is_ok());
}

#[test]
fn plan_tasks_keeps_names_needs_and_payloads() {
    let entries = vec![
        ("build".to_string(), def("make", &[])),
        ("test".to_string(), def("ctest", &["build"])),
    ];
    let file = AutoFile::from_entries(entries).unwrap();
    let tasks = file.plan_tasks();
    assert_eq!(tasks.len(), 2);
    assert_eq!(tasks[0].id.as_str(), "build");
    assert_eq!(tasks[0].needs.len(), 0);
    assert_eq!(tasks[0].payload.program, "make");
    assert_eq!(tasks[1].id.as_str(), "test");
    assert_eq!(tasks[1].needs.len(), 1);
    assert_eq!(tasks[1].needs[0].as_str(), "build");
    assert_eq!(tasks[1].payload.program, "ctest");
}

#[test]
fn planned_definitions_build_a_queue() {
    let entries = vec![
        ("build".to_string(), def("make", &[])),
        ("test".to_string(), def("ctest", &["build"])),
    ];
    let file = AutoFile::from_entries(entries).unwrap();
    let mut queue = TaskQueue::new(file.plan_tasks()).expect("the definitions form a DAG");
    let first = queue.pop_available().expect("build is ready");
    assert_eq!(first.id.as_str(), "build");
    assert_eq!(first.payload.program, "make");
}

#[test]
fn output_file_names_follow_the_task_id() {
    let id = TaskId("compile".to_string());
    assert_eq!(id.stdout_file_name(), "compile.stdout");
    assert_eq!(id.stderr_file_name(), "compile.stderr");
    assert_eq!(id.as_str(), "compile");
}

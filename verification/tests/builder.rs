use autorun::queue::{Error, Task, TaskId, TaskQueue};

fn task(id: &str, needs: &[&str]) -> Task<()> {
    Task {
        id: TaskId(id.to_string()),
        needs: needs.iter().map(|n| TaskId(n.to_string())).collect(),
        payload: (),
    }
}

fn names(ids: &[TaskId]) -> Vec<String> {
    ids.iter().map(|i| i.0.clone()).collect()
}

#[test]
fn two_task_cycle_reports_both_tasks() {
    let defs = vec![task("A", &["B"]), task("B", &["A"])];
    match TaskQueue::new(defs) {
        Err(Error::CircularDependency { chain }) => {
            let chain = names(&chain);
            assert!(chain.len() >= 3);
            assert_eq!(chain.first(), chain.last());
            assert!(chain.contains(&"A".to_string()));
            assert!(chain.contains(&"B".to_string()));
        }
        Err(other) => panic!("expected a circular dependency error, got {:?}", other),
        Ok(_) => panic!("expected a circular dependency error, got a queue"),
    }
}

#[test]
fn self_cycle_is_detected() {
    let defs = vec![task("A", &["A"])];
    match TaskQueue::new(defs) {
        Err(Error::CircularDependency { chain }) => {
            let chain = names(&chain);
            assert_eq!(chain, vec!["A".to_string(), "A".to_string()]);
        }
        Err(other) => panic!("expected a circular dependency error, got {:?}", other),
        Ok(_) => panic!("expected a circular dependency error, got a queue"),
    }
}

#[test]
fn unknown_reference_names_both_sides() {
    let defs = vec![task("X", &["ghost"])];
    match TaskQueue::new(defs) {
        Err(Error::UnknownReference { dependency, dependent }) => {
            assert_eq!(dependency.as_str(), "ghost");
            assert_eq!(dependent.as_str(), "X");
        }
        Err(other) => panic!("expected an unknown reference error, got {:?}", other),
        Ok(_) => panic!("expected an unknown reference error, got a queue"),
    }
}

#[test]
fn unknown_reference_message_is_exact() {
    let defs = vec![task("X", &["ghost"])];
    let err = match TaskQueue::new(defs) {
        Err(e) => e,
        Ok(_) => panic!("expected an error"),
    };
    assert_eq!(err.message(), "Dependency \"ghost\" of task \"X\" is not known");
}

#[test]
fn cycle_message_lists_the_chain() {
    let defs = vec![task("A", &["A"])];
    let err = match TaskQueue::new(defs) {
        Err(e) => e,
        Ok(_) => panic!("expected an error"),
    };
    assert_eq!(err.message(), "Circular dependency chain: \"A\" -> \"A\"");
}

#[test]
fn valid_graph_loads_every_task() {
    let defs = vec![task("a", &[]), task("b", &["a"]), task("c", &["a", "b"])];
    let mut queue = TaskQueue::new(defs).expect("the graph is a DAG");
    // only the root is ready at first
    let first = queue.pop_available().expect("one task is ready");
    assert_eq!(first.id.as_str(), "a");
    assert!(queue.pop_available().is_none());
    queue.mark_done(&first.id);
    let second = queue.pop_available().expect("b is unblocked");
    assert_eq!(second.id.as_str(), "b");
    queue.mark_done(&second.id);
    let third = queue.pop_available().expect("c is unblocked");
    assert_eq!(third.id.as_str(), "c");
    assert_eq!(third.payload, ());
    queue.mark_done(&third.id);
    assert!(queue.pop_available().is_none());
    assert_eq!(queue.give_up().len(), 0);
}

#[test]
fn duplicate_needs_are_harmless() {
    let defs = vec![task("a", &[]), task("b", &["a", "a", "a"])];
    let mut queue = TaskQueue::new(defs).expect("duplicate needs are no cycle");
    let first = queue.pop_available().expect("a is ready");
    assert_eq!(first.id.as_str(), "a");
    queue.mark_done(&first.id);
    let second = queue.pop_available().expect("b is unblocked by a alone");
    assert_eq!(second.id.as_str(), "b");
}

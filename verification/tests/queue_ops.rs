use autorun::planner::{PlanQueue, Task, TaskId};

fn task(id: &str, needs: &[&str]) -> Task<u32> {
    Task {
        id: TaskId(id.to_string()),
        needs: needs.iter().map(|n| TaskId(n.to_string())).collect(),
        payload: 0,
    }
}

fn pop_all_ids(queue: &mut PlanQueue<u32>) -> Vec<String> {
    let mut ids = Vec::new();
    while let Some(t) = queue.pop_available() {
        ids.push(t.id.0.clone());
    }
    ids.sort();
    ids
}

#[test]
fn tasks_without_needs_are_available_at_once() {
    let mut queue: PlanQueue<u32> = PlanQueue::new();
    queue.insert(task("a", &[]));
    queue.insert(task("b", &[]));
    assert_eq!(pop_all_ids(&mut queue), vec!["a".to_string(), "b".to_string()]);
    assert!(queue.pop_available().is_none());
}

#[test]
fn diamond_unblocks_only_after_both_needs_first_order() {
    let mut queue: PlanQueue<u32> = PlanQueue::new();
    queue.insert(task("b", &[]));
    queue.insert(task("c", &[]));
    queue.insert(task("d", &["b", "c"]));
    let roots = pop_all_ids(&mut queue);
    assert_eq!(roots, vec!["b".to_string(), "c".to_string()]);
    queue.mark_done(&TaskId("b".to_string()));
    assert!(queue.pop_available().is_none(), "d must not be ready after b alone");
    queue.mark_done(&TaskId("c".to_string()));
    let d = queue.pop_available().expect("d is ready after both b and c");
    assert_eq!(d.id.0, "d");
}

#[test]
fn diamond_unblocks_only_after_both_needs_other_order() {
    let mut queue: PlanQueue<u32> = PlanQueue::new();
    queue.insert(task("b", &[]));
    queue.insert(task("c", &[]));
    queue.insert(task("d", &["b", "c"]));
    let _ = pop_all_ids(&mut queue);
    queue.mark_done(&TaskId("c".to_string()));
    assert!(queue.pop_available().is_none(), "d must not be ready after c alone");
    queue.mark_done(&TaskId("b".to_string()));
    let d = queue.pop_available().expect("d is ready after both b and c");
    assert_eq!(d.id.0, "d");
}

#[test]
fn unblocking_is_transitive() {
    let mut queue: PlanQueue<u32> = PlanQueue::new();
    queue.insert(task("a", &[]));
    queue.insert(task("b", &["a"]));
    queue.insert(task("c", &["b"]));
    let a = queue.pop_available().expect("a is ready");
    assert_eq!(a.id.0, "a");
    assert!(queue.pop_available().is_none());
    queue.mark_done(&a.id);
    let b = queue.pop_available().expect("b follows a");
    assert_eq!(b.id.0, "b");
    queue.mark_done(&b.id);
    let c = queue.pop_available().expect("c follows b");
    assert_eq!(c.id.0, "c");
}

#[test]
fn give_up_returns_exactly_the_blocked_tasks() {
    let mut queue: PlanQueue<u32> = PlanQueue::new();
    queue.insert(task("a", &[]));
    queue.insert(task("b", &["a"]));
    queue.insert(task("c", &["missing"]));
    let a = queue.pop_available().expect("a is ready");
    assert_eq!(a.id.0, "a");
    let mut rest: Vec<String> = queue.give_up().into_iter().map(|t| t.id.0).collect();
    rest.sort();
    assert_eq!(rest, vec!["b".to_string(), "c".to_string()]);
}

#[test]
fn payloads_travel_with_their_tasks() {
    let mut queue: PlanQueue<u32> = PlanQueue::new();
    queue.insert(Task { id: TaskId("a".to_string()), needs: Vec::new(), payload: 7 });
    queue.insert(Task {
        id: TaskId("b".to_string()),
        needs: vec![TaskId("a".to_string())],
        payload: 13,
    });
    let a = queue.pop_available().unwrap();
    assert_eq!(a.payload, 7);
    queue.mark_done(&a.id);
    let b = queue.pop_available().unwrap();
    assert_eq!(b.payload, 13);
}

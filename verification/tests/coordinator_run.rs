use autorun::coordinator::{Coordinator, RunReport};
use autorun::queue::{Task, TaskId, TaskQueue};

fn task(id: &str, needs: &[&str]) -> Task<()> {
    Task {
        id: TaskId(id.to_string()),
        needs: needs.iter().map(|n| TaskId(n.to_string())).collect(),
        payload: (),
    }
}

fn build_lint_test_ship() -> Vec<Task<()>> {
    vec![
        task("build", &[]),
        task("lint", &[]),
        task("test", &["build"]),
        task("ship", &["test", "lint"]),
    ]
}

/// Drive a coordinator the way the embedding program would, failing the tasks
/// whose ids are listed, and record the dispatch rounds: each round holds the
/// ids that were ready together before any of them reported back.
fn run_to_report(
    defs: Vec<Task<()>>,
    fail: &[&str],
) -> (Vec<Vec<String>>, Vec<Vec<String>>, RunReport<()>) {
    let queue = TaskQueue::new(defs).expect("the test graphs are valid");
    let mut coordinator = Coordinator::new(queue);
    let mut rounds: Vec<Vec<String>> = Vec::new();
    let mut done_before_dispatch: Vec<Vec<String>> = Vec::new();
    let mut succeeded_so_far: Vec<String> = Vec::new();
    loop {
        let mut round: Vec<Task<()>> = Vec::new();
        while let Some(t) = coordinator.next_task() {
            done_before_dispatch.push(succeeded_so_far.clone());
            round.push(t);
        }
        if round.is_empty() {
            assert!(
                !coordinator.has_running(),
                "every dispatched task reports back within its round here"
            );
            break;
        }
        let mut names: Vec<String> = round.iter().map(|t| t.id.0.clone()).collect();
        names.sort();
        rounds.push(names);
        for t in round {
            assert!(coordinator.is_running(&t.id));
            let ok = !fail.contains(&t.id.as_str());
            if ok {
                succeeded_so_far.push(t.id.0.clone());
            }
            coordinator.apply_outcome(t, ok);
        }
    }
    (rounds, done_before_dispatch, coordinator.finish())
}

fn sorted_names(tasks: &[Task<()>]) -> Vec<String> {
    let mut names: Vec<String> = tasks.iter().map(|t| t.id.0.clone()).collect();
    names.sort();
    names
}

#[test]
fn all_successful_run_dispatches_in_dependency_order() {
    let (rounds, _, report) = run_to_report(build_lint_test_ship(), &[]);
    assert_eq!(
        rounds,
        vec![
            vec!["build".to_string(), "lint".to_string()],
            vec!["test".to_string()],
            vec!["ship".to_string()],
        ]
    );
    assert_eq!(report.successful.len(), 4);
    assert_eq!(report.failed.len(), 0);
    assert_eq!(report.not_started.len(), 0);
}

#[test]
fn failed_test_leaves_ship_not_started() {
    let (rounds, _, report) = run_to_report(build_lint_test_ship(), &["test"]);
    assert_eq!(
        rounds,
        vec![vec!["build".to_string(), "lint".to_string()], vec!["test".to_string()]]
    );
    assert_eq!(sorted_names(&report.successful), vec!["build".to_string(), "lint".to_string()]);
    assert_eq!(sorted_names(&report.failed), vec!["test".to_string()]);
    assert_eq!(sorted_names(&report.not_started), vec!["ship".to_string()]);
}

#[test]
fn dependent_of_failed_task_is_never_run() {
    let defs = vec![task("b", &[]), task("d", &["b"]), task("e", &["d"])];
    let (_, _, report) = run_to_report(defs, &["b"]);
    assert_eq!(sorted_names(&report.successful), Vec::<String>::new());
    assert_eq!(sorted_names(&report.failed), vec!["b".to_string()]);
    assert_eq!(sorted_names(&report.not_started), vec!["d".to_string(), "e".to_string()]);
}

#[test]
fn no_task_is_dispatched_before_its_needs_succeeded() {
    let (_, done_before, _) = run_to_report(build_lint_test_ship(), &[]);
    // the dispatch log pairs each dispatched task with the successes known
    // before it; check the needed precedences directly
    let all: Vec<Vec<String>> = done_before;
    // test is the third dispatch, ship the fourth
    assert!(all[2].contains(&"build".to_string()));
    assert!(all[3].contains(&"test".to_string()));
    assert!(all[3].contains(&"lint".to_string()));
}

#[test]
fn report_partitions_every_task_exactly_once() {
    let defs = vec![
        task("a", &[]),
        task("b", &["a"]),
        task("c", &["a"]),
        task("d", &["b", "c"]),
        task("e", &[]),
    ];
    let (_, _, report) = run_to_report(defs, &["b"]);
    let mut all = Vec::new();
    all.extend(sorted_names(&report.successful));
    all.extend(sorted_names(&report.failed));
    all.extend(sorted_names(&report.not_started));
    all.sort();
    assert_eq!(
        all,
        vec![
            "a".to_string(),
            "b".to_string(),
            "c".to_string(),
            "d".to_string(),
            "e".to_string(),
        ]
    );
    assert_eq!(
        report.successful.len() + report.failed.len() + report.not_started.len(),
        5
    );
}

#[test]
fn empty_task_set_gives_an_empty_report() {
    let (rounds, _, report) = run_to_report(Vec::new(), &[]);
    assert!(rounds.is_empty());
    assert_eq!(report.successful.len(), 0);
    assert_eq!(report.failed.len(), 0);
    assert_eq!(report.not_started.len(), 0);
}

#[test]
fn diamond_runs_regardless_of_completion_order() {
    // complete c before b: the coordinator takes outcomes in any order
    let defs = vec![task("b", &[]), task("c", &[]), task("d", &["b", "c"])];
    let queue = TaskQueue::new(defs).expect("valid");
    let mut coordinator = Coordinator::new(queue);
    let first = coordinator.next_task().expect("a root is ready");
    let second = coordinator.next_task().expect("both roots are ready");
    assert!(coordinator.next_task().is_none(), "d is not ready yet");
    // report the second dispatch first
    coordinator.apply_outcome(second, true);
    assert!(coordinator.next_task().is_none(), "d needs both b and c");
    coordinator.apply_outcome(first, true);
    let d = coordinator.next_task().expect("d is ready after both");
    assert_eq!(d.id.as_str(), "d");
    coordinator.apply_outcome(d, true);
    let report = coordinator.finish();
    assert_eq!(report.successful.len(), 3);
    assert_eq!(report.not_started.len(), 0);
}

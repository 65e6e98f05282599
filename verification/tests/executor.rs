use forge::executor::{CoordinatorError, DistributedExecutor, ExecutionRun, RoundPlan, TaskOutcome};
use forge::graph::{TaskGraph, TaskState};
use forge::protocol::TaskResult;

fn one_task_graph(command: &str) -> TaskGraph {
    let mut graph = TaskGraph::default();
    graph.add_task(1, command.to_string(), Vec::new()).unwrap();
    graph
}

fn dispatched(plan: RoundPlan) -> Vec<(u64, String, String)> {
    match plan {
        RoundPlan::Dispatch(assignments) => assignments
            .into_iter()
            .map(|a| (a.task_id, a.worker.address().to_string(), a.command))
            .collect(),
        other => panic!("expected a dispatch, got {:?}", other),
    }
}

#[test]
fn distributed_executor_rejects_only_unhealthy_workers() {
    let mut graph = one_task_graph("echo never-runs");
    let mut executor = DistributedExecutor::new(vec!["127.0.0.1:1".to_string()]);
    let mut run = executor.begin().unwrap();
    executor.record_probe("127.0.0.1:1", None, 1_000);
    let plan = executor.plan_round(&mut graph, &mut run, 1_000);
    assert!(matches!(plan, RoundPlan::NoHealthyWorkers));
    assert_eq!(graph.task(1).unwrap().state, TaskState::Pending);
}

#[test]
fn executor_without_workers_refuses_to_start() {
    let executor = DistributedExecutor::new(Vec::new());
    assert!(matches!(executor.begin(), Err(CoordinatorError::NoWorkers)));
}

#[test]
fn dependency_order_is_followed_round_by_round() {
    let mut graph = TaskGraph::default();
    graph.add_task(1, "echo build".to_string(), Vec::new()).unwrap();
    graph.add_task(2, "echo test".to_string(), vec![1]).unwrap();
    let mut executor = DistributedExecutor::new(vec!["w:1".to_string()]);
    let mut run = executor.begin().unwrap();
    executor.record_probe("w:1", Some("graph-worker".to_string()), 0);

    let first = dispatched(executor.plan_round(&mut graph, &mut run, 0));
    assert_eq!(first, vec![(1, "w:1".to_string(), "echo build".to_string())]);
    assert_eq!(graph.task(1).unwrap().state, TaskState::Running);
    executor.apply_outcome(&mut graph, &mut run, 1, "w:1", TaskOutcome::Succeeded);

    let second = dispatched(executor.plan_round(&mut graph, &mut run, 0));
    assert_eq!(second, vec![(2, "w:1".to_string(), "echo test".to_string())]);
    executor.apply_outcome(&mut graph, &mut run, 2, "w:1", TaskOutcome::Succeeded);

    assert!(matches!(executor.plan_round(&mut graph, &mut run, 0), RoundPlan::Complete));
    assert_eq!(run.completed(), &vec![1, 2]);
    assert_eq!(executor.healthy_worker_count_at(0), 1);
}

#[test]
fn command_failure_fails_the_task_but_keeps_the_worker() {
    let mut graph = one_task_graph("exit 1");
    let mut executor = DistributedExecutor::new(vec!["w:1".to_string()]);
    let mut run = executor.begin().unwrap();
    executor.record_probe("w:1", Some("w".to_string()), 0);
    dispatched(executor.plan_round(&mut graph, &mut run, 0));
    executor.apply_outcome(&mut graph, &mut run, 1, "w:1", TaskOutcome::CommandFailed);
    assert_eq!(graph.task(1).unwrap().state, TaskState::Failed);
    assert!(matches!(executor.plan_round(&mut graph, &mut run, 0), RoundPlan::Complete));
    assert!(run.into_completed().is_empty());
    assert_eq!(executor.healthy_worker_count_at(0), 1);
}

#[test]
fn worker_failure_retries_on_another_healthy_worker() {
    let mut graph = one_task_graph("echo recovered");
    let mut executor =
        DistributedExecutor::new(vec!["a:1".to_string(), "b:1".to_string()]).with_max_attempts(2);
    let mut run = executor.begin().unwrap();
    executor.record_probe("a:1", Some("dead".to_string()), 0);
    executor.record_probe("b:1", Some("healthy".to_string()), 0);

    let first = dispatched(executor.plan_round(&mut graph, &mut run, 0));
    assert_eq!(first[0].1, "a:1");
    executor.apply_outcome(&mut graph, &mut run, 1, "a:1", TaskOutcome::WorkerFailed);
    assert_eq!(graph.task(1).unwrap().state, TaskState::Pending);
    assert_eq!(run.attempts(1), 1);

    let second = dispatched(executor.plan_round(&mut graph, &mut run, 0));
    assert_eq!(second[0].1, "b:1");
    executor.apply_outcome(&mut graph, &mut run, 1, "b:1", TaskOutcome::Succeeded);
    assert!(matches!(executor.plan_round(&mut graph, &mut run, 0), RoundPlan::Complete));
    assert_eq!(run.completed(), &vec![1]);
    assert_eq!(executor.healthy_worker_count_at(0), 1);
}

#[test]
fn timeout_on_last_attempt_fails_the_task_and_keeps_the_worker() {
    let mut graph = one_task_graph("sleep 2");
    let mut executor = DistributedExecutor::new(vec!["w:1".to_string()]).with_task_timeout(100);
    assert_eq!(executor.task_timeout(), Some(100));
    let mut run = executor.begin().unwrap();
    executor.record_probe("w:1", Some("w".to_string()), 0);
    match executor.plan_round(&mut graph, &mut run, 0) {
        RoundPlan::Dispatch(assignments) => assert_eq!(assignments[0].timeout_ms, Some(100)),
        other => panic!("expected a dispatch, got {:?}", other),
    }
    executor.apply_outcome(&mut graph, &mut run, 1, "w:1", TaskOutcome::TimedOut);
    assert_eq!(graph.task(1).unwrap().state, TaskState::Failed);
    assert_eq!(executor.healthy_worker_count_at(0), 1);
}

#[test]
fn failed_dependency_stalls_nothing_and_blocks_its_dependents() {
    let mut graph = TaskGraph::default();
    graph.add_task(1, "false".to_string(), Vec::new()).unwrap();
    graph.add_task(2, "echo after".to_string(), vec![1]).unwrap();
    let mut executor = DistributedExecutor::new(vec!["w:1".to_string()]);
    let mut run = executor.begin().unwrap();
    executor.record_probe("w:1", Some("w".to_string()), 0);
    dispatched(executor.plan_round(&mut graph, &mut run, 0));
    executor.apply_outcome(&mut graph, &mut run, 1, "w:1", TaskOutcome::CommandFailed);
    assert!(matches!(executor.plan_round(&mut graph, &mut run, 0), RoundPlan::Complete));
    assert_eq!(graph.task(2).unwrap().state, TaskState::Blocked);
}

#[test]
fn running_task_left_unresolved_stalls_the_scheduler() {
    let mut graph = TaskGraph::default();
    graph.add_task(1, "echo one".to_string(), Vec::new()).unwrap();
    graph.add_task(2, "echo two".to_string(), vec![1]).unwrap();
    let mut executor = DistributedExecutor::new(vec!["w:1".to_string()]);
    let mut run = ExecutionRun::new();
    executor.record_probe("w:1", Some("w".to_string()), 0);
    dispatched(executor.plan_round(&mut graph, &mut run, 0));
    assert!(matches!(executor.plan_round(&mut graph, &mut run, 0), RoundPlan::Stalled));
}

#[test]
fn round_robin_spreads_tasks_over_healthy_workers() {
    let mut graph = TaskGraph::default();
    graph.add_task(1, "a".to_string(), Vec::new()).unwrap();
    graph.add_task(2, "b".to_string(), Vec::new()).unwrap();
    graph.add_task(3, "c".to_string(), Vec::new()).unwrap();
    let mut executor = DistributedExecutor::new(vec!["x:1".to_string(), "y:1".to_string()]);
    let mut run = executor.begin().unwrap();
    executor.record_probe("x:1", Some("x".to_string()), 0);
    executor.record_probe("y:1", Some("y".to_string()), 0);
    let plan = dispatched(executor.plan_round(&mut graph, &mut run, 0));
    let workers: Vec<&str> = plan.iter().map(|(_, w, _)| w.as_str()).collect();
    assert_eq!(workers, vec!["x:1", "y:1", "x:1"]);
    assert_eq!(run.worker_index(), 3);
}

#[test]
fn answers_are_classified() {
    let ok = TaskResult {
        task_id: 1,
        success: true,
        timed_out: false,
        exit_code: Some(0),
        stdout: String::new(),
        stderr: String::new(),
    };
    let timed_out = TaskResult { success: false, timed_out: true, exit_code: None, ..ok.clone() };
    let failed = TaskResult { success: false, exit_code: Some(1), ..ok.clone() };
    assert_eq!(TaskOutcome::classify(&Ok(ok)), TaskOutcome::Succeeded);
    assert_eq!(TaskOutcome::classify(&Ok(timed_out)), TaskOutcome::TimedOut);
    assert_eq!(TaskOutcome::classify(&Ok(failed)), TaskOutcome::CommandFailed);
    assert_eq!(TaskOutcome::classify(&Err(CoordinatorError::SchedulerStalled)), TaskOutcome::WorkerFailed);
}

#[test]
fn zero_attempts_means_one() {
    let executor = DistributedExecutor::new(vec!["w:1".to_string()]).with_max_attempts(0);
    assert_eq!(executor.max_attempts(), 1);
    assert_eq!(executor.worker_count(), 1);
    assert_eq!(executor.without_task_timeout().task_timeout(), None);
}

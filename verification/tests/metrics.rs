use forge::graph::{TaskGraph, TaskState};
use forge::metrics::{MeteredDistributedExecutor, MetricsSnapshot};

#[test]
fn prometheus_render_is_stable_and_machine_readable() {
    let metrics = MetricsSnapshot {
        executions_total: 2,
        tasks_succeeded_total: 3,
        tasks_failed_total: 1,
        tasks_blocked_total: 1,
        execution_duration_ms_total: 42,
        execution_duration_ms_last: 17,
        workers_configured: 2,
        healthy_workers_last: 1,
    };
    let output = metrics.render_prometheus();
    assert!(output.contains("forge_executions_total 2\n"));
    assert!(output.contains("forge_tasks_succeeded_total 3\n"));
    assert!(output.contains("forge_workers_healthy 1\n"));
}

#[test]
fn prometheus_render_lists_every_counter_in_order() {
    let metrics = MetricsSnapshot { executions_total: 7, ..MetricsSnapshot::default() };
    assert_eq!(
        metrics.render_prometheus(),
        "forge_executions_total 7\nforge_tasks_succeeded_total 0\nforge_tasks_failed_total 0\n\
forge_tasks_blocked_total 0\nforge_execution_duration_ms_total 0\nforge_execution_duration_ms_last 0\n\
forge_workers_configured 0\nforge_workers_healthy 0\n"
    );
}

#[test]
fn execution_counts_state_changes_and_duration() {
    let mut executor = MeteredDistributedExecutor::new(vec!["w:1".to_string()]);
    assert_eq!(executor.metrics().workers_configured, 1);
    assert_eq!(executor.worker_count(), 1);
    executor.executor_mut().record_probe("w:1", Some("metrics-worker".to_string()), 0);

    let mut graph = TaskGraph::default();
    graph.add_task(1, "echo metrics".to_string(), Vec::new()).unwrap();
    graph.add_task(2, "exit 1".to_string(), Vec::new()).unwrap();
    graph.add_task(3, "echo after".to_string(), vec![2]).unwrap();
    graph.add_task(4, "echo done".to_string(), Vec::new()).unwrap();
    graph.set_state(4, TaskState::Succeeded);
    let before = MeteredDistributedExecutor::task_states(&graph);
    assert_eq!(before.len(), 4);

    graph.set_state(1, TaskState::Succeeded);
    graph.set_state(2, TaskState::Failed);
    graph.reconcile_blocked();
    executor.record_execution(&before, &graph, 17, 10);

    let metrics = executor.metrics();
    assert_eq!(metrics.executions_total, 1);
    assert_eq!(metrics.tasks_succeeded_total, 1);
    assert_eq!(metrics.tasks_failed_total, 1);
    assert_eq!(metrics.tasks_blocked_total, 1);
    assert_eq!(metrics.execution_duration_ms_total, 17);
    assert_eq!(metrics.execution_duration_ms_last, 17);
    assert_eq!(metrics.healthy_workers_last, 1);

    executor.record_execution(&MeteredDistributedExecutor::task_states(&graph), &graph, 5, 20_000);
    let metrics = executor.metrics();
    assert_eq!(metrics.executions_total, 2);
    assert_eq!(metrics.tasks_succeeded_total, 1);
    assert_eq!(metrics.execution_duration_ms_total, 22);
    assert_eq!(metrics.execution_duration_ms_last, 5);
    assert_eq!(metrics.healthy_workers_last, 0);
}

#[test]
fn counters_saturate() {
    let mut executor = MeteredDistributedExecutor::new(Vec::new());
    let graph = TaskGraph::default();
    executor.record_execution(&Vec::new(), &graph, u64::MAX, 0);
    executor.record_execution(&Vec::new(), &graph, 3, 0);
    assert_eq!(executor.metrics().execution_duration_ms_total, u64::MAX);
    assert_eq!(executor.metrics().execution_duration_ms_last, 3);
}

use forge::graph::{GraphError, Scheduler, TaskGraph, TaskState};

#[test]
fn dependencies_control_runnable_tasks() {
    let mut graph = TaskGraph::default();
    graph.add_task(1, "compile".to_string(), Vec::new()).unwrap();
    graph.add_task(2, "test".to_string(), vec![1]).unwrap();

    assert_eq!(graph.runnable(), vec![1]);

    graph.task_mut(1).unwrap().state = TaskState::Succeeded;
    assert_eq!(graph.runnable(), vec![2]);
}

#[test]
fn duplicate_tasks_are_rejected() {
    let mut graph = TaskGraph::default();
    graph.add_task(1, "compile".to_string(), Vec::new()).unwrap();
    assert_eq!(
        graph.add_task(1, "test".to_string(), Vec::new()),
        Err(GraphError::DuplicateTask(1))
    );
}

#[test]
fn scheduler_dispatches_ready_work() {
    let mut graph = TaskGraph::default();
    graph.add_task(1, "compile".to_string(), Vec::new()).unwrap();
    graph.add_task(2, "test".to_string(), vec![1]).unwrap();

    let mut scheduler = Scheduler::default();
    scheduler.refresh(&graph);
    assert_eq!(scheduler.next(), Some(1));
    assert_eq!(scheduler.next(), None);
}

#[test]
fn unknown_dependency_is_rejected() {
    let mut graph = TaskGraph::new();
    assert_eq!(
        graph.add_task(2, "test".to_string(), vec![1]),
        Err(GraphError::MissingDependency { task: 2, dependency: 1 })
    );
    assert_eq!(graph.len(), 0);
}

#[test]
fn self_dependency_is_rejected_as_missing() {
    let mut graph = TaskGraph::new();
    assert_eq!(
        graph.add_task(3, "loop".to_string(), vec![3]),
        Err(GraphError::MissingDependency { task: 3, dependency: 3 })
    );
    assert_eq!(graph.len(), 0);
}

#[test]
fn failed_dependency_blocks_dependents_transitively() {
    let mut graph = TaskGraph::new();
    graph.add_task(1, "compile".to_string(), Vec::new()).unwrap();
    graph.add_task(2, "test".to_string(), vec![1]).unwrap();
    graph.add_task(3, "package".to_string(), vec![2]).unwrap();
    graph.add_task(4, "lint".to_string(), Vec::new()).unwrap();
    assert!(graph.set_state(1, TaskState::Failed));
    graph.reconcile_blocked();
    assert_eq!(graph.task(2).unwrap().state, TaskState::Blocked);
    assert_eq!(graph.task(3).unwrap().state, TaskState::Blocked);
    assert_eq!(graph.task(4).unwrap().state, TaskState::Pending);
    assert_eq!(graph.pending(), vec![4]);
    assert_eq!(graph.ids_in_state(TaskState::Blocked), vec![2, 3]);
}

#[test]
fn starting_runnable_tasks_marks_them_running() {
    let mut graph = TaskGraph::new();
    graph.add_task(1, "compile".to_string(), Vec::new()).unwrap();
    graph.add_task(2, "lint".to_string(), Vec::new()).unwrap();
    graph.add_task(3, "test".to_string(), vec![1, 2]).unwrap();
    let started = graph.start_runnable();
    assert_eq!(started, vec![(1, "compile".to_string()), (2, "lint".to_string())]);
    assert_eq!(graph.task(1).unwrap().state, TaskState::Running);
    assert_eq!(graph.task(3).unwrap().state, TaskState::Pending);
    assert!(graph.runnable().is_empty());
    assert_eq!(graph.task_ids(), vec![1, 2, 3]);
}

#[test]
fn set_state_of_unknown_task_changes_nothing() {
    let mut graph = TaskGraph::new();
    graph.add_task(1, "compile".to_string(), Vec::new()).unwrap();
    assert!(!graph.set_state(9, TaskState::Failed));
    assert!(graph.task(9).is_none());
    assert_eq!(graph.task(1).unwrap().state, TaskState::Pending);
}

#[test]
fn scheduler_queues_every_runnable_task_in_order() {
    let mut graph = TaskGraph::new();
    graph.add_task(5, "a".to_string(), Vec::new()).unwrap();
    graph.add_task(6, "b".to_string(), Vec::new()).unwrap();
    let mut scheduler = Scheduler::new();
    scheduler.refresh(&graph);
    assert_eq!(scheduler.queued(), 2);
    assert_eq!(scheduler.next(), Some(5));
    assert_eq!(scheduler.next(), Some(6));
    assert_eq!(scheduler.queued(), 0);
}

#[test]
fn dependency_cycle_made_by_an_edit_is_detected() {
    let mut g = TaskGraph::default();
    g.add_task(1, "a".to_string(), vec![]).unwrap();
    g.add_task(2, "b".to_string(), vec![1]).unwrap();
    g.task_mut(1).unwrap().dependencies = vec![2];
    assert_eq!(g.add_task(3, "c".to_string(), vec![]), Err(GraphError::CycleDetected));
    assert!(g.task(3).is_none());
    assert_eq!(g.task(1).unwrap().dependencies, vec![2]);
    assert_eq!(g.task(2).unwrap().dependencies, vec![1]);
}

#[test]
fn self_loop_made_by_an_edit_is_detected() {
    let mut g = TaskGraph::default();
    g.add_task(1, "a".to_string(), vec![]).unwrap();
    g.task_mut(1).unwrap().dependencies = vec![1];
    assert_eq!(g.add_task(2, "b".to_string(), vec![]), Err(GraphError::CycleDetected));
    assert_eq!(g.len(), 1);
}

#[test]
fn dependency_on_an_unknown_task_after_an_edit_is_no_cycle() {
    let mut g = TaskGraph::default();
    g.add_task(1, "a".to_string(), vec![]).unwrap();
    g.task_mut(1).unwrap().dependencies = vec![42];
    assert_eq!(g.add_task(2, "b".to_string(), vec![1]), Ok(()));
    assert_eq!(g.len(), 2);
}

#[test]
fn blocking_propagates_through_later_dependencies() {
    let mut g = TaskGraph::default();
    g.add_task(1, "a".to_string(), vec![]).unwrap();
    g.add_task(2, "b".to_string(), vec![]).unwrap();
    g.add_task(3, "c".to_string(), vec![]).unwrap();
    g.task_mut(1).unwrap().dependencies = vec![2];
    g.task_mut(2).unwrap().dependencies = vec![3];
    g.set_state(3, TaskState::Failed);
    g.reconcile_blocked();
    assert_eq!(g.task(2).unwrap().state, TaskState::Blocked);
    assert_eq!(g.task(1).unwrap().state, TaskState::Blocked);
}

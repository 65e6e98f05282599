use forge::journal::{replay_content, ExecutionEvent, ExecutionJournal, JournalError};
use forge::journaled::JournaledDistributedExecutor;
use forge::graph::{TaskGraph, TaskState};

fn journal_bytes(events: &[ExecutionEvent]) -> Vec<u8> {
    let mut content = Vec::new();
    for event in events {
        content.extend_from_slice(&ExecutionJournal::record(event));
    }
    content
}

#[test]
fn journal_survives_reopen_and_replays_events() {
    let events = vec![
        ExecutionEvent::TaskStarted { task_id: 7, attempt: 1 },
        ExecutionEvent::TaskRetry { task_id: 7, attempt: 2 },
        ExecutionEvent::WorkerUnhealthy { address: "127.0.0.1:9100".into() },
        ExecutionEvent::TaskSucceeded { task_id: 7 },
    ];
    let content = journal_bytes(&events);
    assert_eq!(ExecutionJournal::events(&content).unwrap(), events);
}

#[test]
fn journal_preserves_escaped_worker_addresses() {
    let address = "worker\\node\n01\t9100";
    let event = ExecutionEvent::WorkerUnhealthy { address: address.into() };
    let content = journal_bytes(&[event.clone()]);
    assert_eq!(content, b"worker_unhealthy\tworker\\\\node\\n01\\t9100\n".to_vec());
    assert_eq!(replay_content(&content).unwrap(), vec![event]);
}

#[test]
fn malformed_events_are_rejected() {
    assert_eq!(replay_content(b"task_started\tbad\t1\n").unwrap_err(), JournalError::InvalidInteger);
}

#[test]
fn record_lines_follow_the_format() {
    assert_eq!(ExecutionEvent::TaskStarted { task_id: 3, attempt: 2 }.encode(), b"task_started\t3\t2".to_vec());
    assert_eq!(ExecutionEvent::TaskFailed { task_id: 9 }.encode(), b"task_failed\t9".to_vec());
    assert_eq!(ExecutionJournal::record(&ExecutionEvent::TaskSucceeded { task_id: 1 }), b"task_succeeded\t1\n".to_vec());
}

#[test]
fn decoding_errors_name_the_problem() {
    assert_eq!(ExecutionEvent::decode(b"task_succeeded").unwrap_err(), JournalError::MissingField);
    assert_eq!(ExecutionEvent::decode(b"task_failed\t1\t2").unwrap_err(), JournalError::TrailingFields);
    assert_eq!(ExecutionEvent::decode(b"task_paused\t1").unwrap_err(), JournalError::UnknownEvent);
    assert_eq!(ExecutionEvent::decode(b"worker_unhealthy").unwrap_err(), JournalError::MissingWorkerAddress);
    assert_eq!(ExecutionEvent::decode(b"worker_unhealthy\ta\\x").unwrap_err(), JournalError::InvalidEscape);
    assert_eq!(ExecutionEvent::decode(b"worker_unhealthy\ta\\").unwrap_err(), JournalError::UnterminatedEscape);
    assert_eq!(replay_content(b"\xff\n").unwrap_err(), JournalError::InvalidUtf8);
    assert_eq!(JournalError::InvalidInteger.message(), "invalid event integer");
}

#[test]
fn empty_and_carriage_return_lines_are_tolerated() {
    let events = replay_content(b"task_failed\t4\r\n\ntask_succeeded\t5").unwrap();
    assert_eq!(events, vec![ExecutionEvent::TaskFailed { task_id: 4 }, ExecutionEvent::TaskSucceeded { task_id: 5 }]);
}

#[test]
fn journaled_execution_records_start_and_terminal_state() {
    let journal = ExecutionJournal::new("forge.journal".to_string());
    assert_eq!(journal.path(), "forge.journal");
    let executor = JournaledDistributedExecutor::new(vec!["w:1".to_string()], journal);
    assert_eq!(executor.worker_count(), 1);
    assert_eq!(executor.journal().path(), "forge.journal");

    let mut graph = TaskGraph::default();
    graph.add_task(1, "echo journal".to_string(), Vec::new()).unwrap();
    graph.add_task(2, "exit 1".to_string(), Vec::new()).unwrap();
    graph.add_task(3, "echo later".to_string(), vec![2]).unwrap();
    graph.add_task(4, "echo never".to_string(), Vec::new()).unwrap();
    let pending = graph.pending();
    assert_eq!(
        JournaledDistributedExecutor::started_events(&pending),
        vec![
            ExecutionEvent::TaskStarted { task_id: 1, attempt: 1 },
            ExecutionEvent::TaskStarted { task_id: 2, attempt: 1 },
            ExecutionEvent::TaskStarted { task_id: 3, attempt: 1 },
            ExecutionEvent::TaskStarted { task_id: 4, attempt: 1 },
        ]
    );
    graph.set_state(1, TaskState::Succeeded);
    graph.set_state(2, TaskState::Failed);
    graph.reconcile_blocked();
    assert_eq!(
        JournaledDistributedExecutor::terminal_events(&graph, &pending),
        vec![
            ExecutionEvent::TaskSucceeded { task_id: 1 },
            ExecutionEvent::TaskFailed { task_id: 2 },
            ExecutionEvent::TaskFailed { task_id: 3 },
        ]
    );
}

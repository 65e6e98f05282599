use forge::executor::CoordinatorError;
use forge::protocol::{Frame, Heartbeat, MessageKind, TaskRequest, TaskResult};
use forge::registry::WorkerClient;

#[test]
fn task_request_frame_carries_the_encoded_request() {
    let bytes = WorkerClient::task_request_bytes(42, "echo distributed-forge".to_string(), Some(100)).unwrap();
    let frame = Frame::decode(&bytes).unwrap();
    assert_eq!(frame.kind, MessageKind::TaskRequest);
    let request = TaskRequest::decode(&frame.payload).unwrap();
    assert_eq!(request, TaskRequest { task_id: 42, command: "echo distributed-forge".to_string(), timeout_ms: Some(100) });
}

#[test]
fn task_result_is_read_from_a_result_frame() {
    let result = TaskResult {
        task_id: 42,
        success: true,
        timed_out: false,
        exit_code: Some(0),
        stdout: "distributed-forge\n".to_string(),
        stderr: String::new(),
    };
    let answer = Frame { kind: MessageKind::TaskResult, payload: result.encode().unwrap() }.encode().unwrap();
    assert_eq!(WorkerClient::task_result_from(&answer).unwrap(), result);
}

#[test]
fn answer_of_the_wrong_kind_is_unexpected() {
    let heartbeat = Heartbeat { worker_id: "w".to_string(), unix_seconds: 1 };
    let answer = Frame { kind: MessageKind::Heartbeat, payload: heartbeat.encode().unwrap() }.encode().unwrap();
    assert!(matches!(
        WorkerClient::task_result_from(&answer),
        Err(CoordinatorError::UnexpectedMessage(MessageKind::Heartbeat))
    ));
}

#[test]
fn undecodable_answer_is_a_protocol_error() {
    match WorkerClient::task_result_from(b"nope") {
        Err(CoordinatorError::Protocol(message)) => assert_eq!(message, "invalid frame magic"),
        other => panic!("unexpected {:?}", other),
    }
    let answer = Frame { kind: MessageKind::TaskResult, payload: vec![0, 0, 0] }.encode().unwrap();
    match WorkerClient::task_result_from(&answer) {
        Err(CoordinatorError::Protocol(message)) => assert_eq!(message, "invalid payload: truncated payload"),
        other => panic!("unexpected {:?}", other),
    }
}

#[test]
fn heartbeat_probe_and_answer() {
    let probe = WorkerClient::heartbeat_request_bytes();
    let frame = Frame::decode(&probe).unwrap();
    assert_eq!(frame.kind, MessageKind::Heartbeat);
    assert_eq!(Heartbeat::decode(&frame.payload).unwrap(), Heartbeat { worker_id: String::new(), unix_seconds: 0 });

    let heartbeat = Heartbeat { worker_id: "heartbeat-worker".to_string(), unix_seconds: 1700000000 };
    let answer = Frame { kind: MessageKind::Heartbeat, payload: heartbeat.encode().unwrap() }.encode().unwrap();
    assert_eq!(WorkerClient::heartbeat_from(&answer).unwrap(), heartbeat);
}

#[test]
fn request_above_the_frame_limit_is_an_io_error() {
    let command = "a".repeat(forge::protocol::MAX_FRAME_PAYLOAD as usize);
    match WorkerClient::task_request_bytes(1, command, None) {
        Err(CoordinatorError::Io(error)) => {
            assert_eq!(error.kind(), std::io::ErrorKind::InvalidInput);
            assert_eq!(error.to_string(), "frame payload exceeds protocol limit");
        }
        other => panic!("unexpected {:?}", other.map(|bytes| bytes.len())),
    }
}

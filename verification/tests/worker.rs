use forge::protocol::{Frame, Heartbeat, MessageKind, ProtocolError, TaskRequest, TaskResult as WireTaskResult};
use forge::worker::{
    concurrency_limit, heartbeat_frame, result_frame, wait_step, ConcurrencySlots, TaskResult, WaitStep, WorkerRequest,
    WorkerRequestError,
};

#[test]
fn worker_concurrency_is_never_zero() {
    assert_eq!(concurrency_limit(0), 1);
}

#[test]
fn requested_concurrency_is_kept() {
    assert_eq!(concurrency_limit(3), 3);
}

#[test]
fn gate_admits_up_to_its_limit() {
    let mut gate = ConcurrencySlots::new(concurrency_limit(2));
    assert!(gate.try_acquire());
    assert!(gate.try_acquire());
    assert!(!gate.try_acquire());
    assert_eq!(gate.active(), 2);
    gate.release();
    assert!(gate.try_acquire());
    assert_eq!(gate.limit(), 2);
}

#[test]
fn waiting_kills_a_command_past_its_timeout() {
    assert_eq!(wait_step(true, 500, 100), WaitStep::Finished);
    assert_eq!(wait_step(false, 100, 100), WaitStep::Kill);
    assert_eq!(wait_step(false, 99, 100), WaitStep::Poll);
}

#[test]
fn timed_out_command_reports_the_timeout() {
    let result = TaskResult::finish(true, true, Some(0), b"partial", b"", 120);
    assert!(!result.success);
    assert!(result.timed_out);
    assert_eq!(result.exit_code, None);
    assert_eq!(result.stdout, "partial");
    assert_eq!(result.stderr, "task timed out");
    assert_eq!(result.duration_ms, 120);

    let result = TaskResult::finish(true, false, None, b"", b"killed", 120);
    assert_eq!(result.stderr, "task timed out: killed");
}

#[test]
fn finished_command_reports_its_status_and_output() {
    let result = TaskResult::finish(false, true, Some(0), b"forge\n", b"", 3);
    assert!(result.success);
    assert!(!result.timed_out);
    assert_eq!(result.exit_code, Some(0));
    assert_eq!(result.stdout, "forge\n");

    let result = TaskResult::finish(false, false, Some(2), b"", b"bad \xff byte", 3);
    assert!(!result.success);
    assert_eq!(result.exit_code, Some(2));
    assert_eq!(result.stderr, "bad \u{FFFD} byte");
}

#[test]
fn request_frames_are_understood() {
    let request = TaskRequest { task_id: 5, command: "echo fast".into(), timeout_ms: Some(2000) };
    let frame = Frame { kind: MessageKind::TaskRequest, payload: request.encode().unwrap() };
    match WorkerRequest::from_frame(&frame).unwrap() {
        WorkerRequest::Run(decoded) => assert_eq!(decoded, request),
        other => panic!("unexpected {:?}", other),
    }

    let probe = Heartbeat { worker_id: String::new(), unix_seconds: 0 };
    let frame = Frame { kind: MessageKind::Heartbeat, payload: probe.encode().unwrap() };
    assert!(matches!(WorkerRequest::from_frame(&frame).unwrap(), WorkerRequest::Heartbeat));

    let frame = Frame { kind: MessageKind::Submit, payload: Vec::new() };
    let error = WorkerRequest::from_frame(&frame).unwrap_err();
    assert_eq!(error, WorkerRequestError::UnsupportedMessage(MessageKind::Submit));
    assert_eq!(error.describe(), "worker received unsupported message kind");

    let frame = Frame { kind: MessageKind::TaskRequest, payload: vec![1] };
    assert_eq!(
        WorkerRequest::from_frame(&frame).unwrap_err(),
        WorkerRequestError::Protocol(ProtocolError::InvalidPayload("truncated payload"))
    );
}

#[test]
fn answers_are_framed() {
    let result = TaskResult::finish(false, true, Some(0), b"out", b"", 1);
    let bytes = result_frame(9, result).unwrap();
    let frame = Frame::decode(&bytes).unwrap();
    assert_eq!(frame.kind, MessageKind::TaskResult);
    assert_eq!(
        WireTaskResult::decode(&frame.payload).unwrap(),
        WireTaskResult {
            task_id: 9,
            success: true,
            timed_out: false,
            exit_code: Some(0),
            stdout: "out".into(),
            stderr: String::new()
        }
    );

    let bytes = heartbeat_frame("local".to_string(), 99).unwrap();
    let frame = Frame::decode(&bytes).unwrap();
    assert_eq!(frame.kind, MessageKind::Heartbeat);
    assert_eq!(Heartbeat::decode(&frame.payload).unwrap(), Heartbeat { worker_id: "local".into(), unix_seconds: 99 });
}

use forge::protocol::{Frame, Heartbeat, MessageKind, ProtocolError, TaskRequest, TaskResult, MAX_FRAME_PAYLOAD};

#[test]
fn frame_round_trip() {
    let frame = Frame { kind: MessageKind::Heartbeat, payload: b"worker-1".to_vec() };
    let bytes = frame.encode().unwrap();
    let decoded = Frame::decode(&bytes).unwrap();
    assert_eq!(decoded, frame);
}

#[test]
fn task_request_round_trip_with_timeout() {
    let request = TaskRequest { task_id: 42, command: "echo forge".into(), timeout_ms: Some(1500) };
    let encoded = request.encode().unwrap();
    assert_eq!(TaskRequest::decode(&encoded).unwrap(), request);
}

#[test]
fn task_request_round_trip_without_timeout() {
    let request = TaskRequest { task_id: 42, command: "echo forge".into(), timeout_ms: None };
    let encoded = request.encode().unwrap();
    assert_eq!(TaskRequest::decode(&encoded).unwrap(), request);
}

#[test]
fn task_result_round_trip() {
    let result = TaskResult {
        task_id: 42,
        success: false,
        timed_out: true,
        exit_code: None,
        stdout: "out".into(),
        stderr: "task timed out".into(),
    };
    let encoded = result.encode().unwrap();
    assert_eq!(TaskResult::decode(&encoded).unwrap(), result);
}

#[test]
fn heartbeat_round_trip() {
    let heartbeat = Heartbeat { worker_id: "worker-1".into(), unix_seconds: 1234 };
    let encoded = heartbeat.encode().unwrap();
    assert_eq!(Heartbeat::decode(&encoded).unwrap(), heartbeat);
}

#[test]
fn malformed_payload_is_rejected() {
    assert_eq!(TaskRequest::decode(&[0, 0, 0]).unwrap_err(), ProtocolError::InvalidPayload("truncated payload"));
}

#[test]
fn frame_bytes_follow_the_wire_layout() {
    let frame = Frame { kind: MessageKind::TaskRequest, payload: vec![7, 8] };
    assert_eq!(frame.encode().unwrap(), vec![b'F', b'R', b'G', b'E', 1, 2, 0, 0, 0, 2, 7, 8]);
}

#[test]
fn frame_with_wrong_magic_is_rejected() {
    let bytes = [b'X', b'R', b'G', b'E', 1, 2, 0, 0, 0, 0];
    assert_eq!(Frame::decode(&bytes).unwrap_err(), ProtocolError::InvalidMagic);
    assert_eq!(Frame::header_length(&bytes).unwrap_err(), ProtocolError::InvalidMagic);
}

#[test]
fn frame_with_other_version_is_rejected() {
    let bytes = [b'F', b'R', b'G', b'E', 2, 2, 0, 0, 0, 0];
    assert_eq!(Frame::decode(&bytes).unwrap_err(), ProtocolError::UnsupportedVersion(2));
}

#[test]
fn frame_with_unknown_kind_is_rejected() {
    let bytes = [b'F', b'R', b'G', b'E', 1, 9, 0, 0, 0, 0];
    assert_eq!(Frame::decode(&bytes).unwrap_err(), ProtocolError::UnknownMessage(9));
}

#[test]
fn frame_above_the_limit_is_rejected_before_its_payload() {
    let too_long = MAX_FRAME_PAYLOAD + 1;
    let mut bytes = vec![b'F', b'R', b'G', b'E', 1, 3];
    bytes.extend_from_slice(&too_long.to_be_bytes());
    assert_eq!(Frame::header_length(&bytes).unwrap_err(), ProtocolError::FrameTooLarge(too_long));
    assert_eq!(Frame::decode(&bytes).unwrap_err(), ProtocolError::FrameTooLarge(too_long));
}

#[test]
fn truncated_frame_is_rejected() {
    let bytes = [b'F', b'R', b'G', b'E', 1, 4, 0, 0, 0, 5, 1];
    assert_eq!(Frame::header_length(&bytes).unwrap(), 5);
    assert_eq!(Frame::decode(&bytes).unwrap_err(), ProtocolError::InvalidPayload("truncated frame"));
}

#[test]
fn oversized_frame_is_not_encoded() {
    let frame = Frame { kind: MessageKind::Submit, payload: vec![0; MAX_FRAME_PAYLOAD as usize + 1] };
    assert_eq!(frame.encode().unwrap_err(), ProtocolError::InvalidPayload("frame payload exceeds protocol limit"));
}

#[test]
fn trailing_payload_bytes_are_rejected() {
    let mut encoded = Heartbeat { worker_id: "w".into(), unix_seconds: 1 }.encode().unwrap();
    encoded.push(0);
    assert_eq!(Heartbeat::decode(&encoded).unwrap_err(), ProtocolError::InvalidPayload("trailing bytes"));
}

#[test]
fn invalid_timeout_flag_is_rejected() {
    let mut encoded = TaskRequest { task_id: 1, command: "x".into(), timeout_ms: None }.encode().unwrap();
    let last = encoded.len() - 1;
    encoded[last] = 7;
    assert_eq!(TaskRequest::decode(&encoded).unwrap_err(), ProtocolError::InvalidPayload("invalid timeout flag"));
}

#[test]
fn invalid_utf8_text_is_rejected() {
    let payload = [0, 0, 0, 1, 0xff, 0, 0, 0, 0, 0, 0, 0, 1];
    assert_eq!(Heartbeat::decode(&payload).unwrap_err(), ProtocolError::InvalidUtf8);
}

#[test]
fn message_kinds_have_fixed_bytes() {
    assert_eq!(MessageKind::Submit.to_byte(), 1);
    assert_eq!(MessageKind::Heartbeat.to_byte(), 4);
    assert_eq!(MessageKind::from_byte(3), Ok(MessageKind::TaskResult));
    assert_eq!(MessageKind::from_byte(0), Err(ProtocolError::UnknownMessage(0)));
}

#[test]
fn protocol_errors_describe_themselves() {
    assert_eq!(ProtocolError::InvalidMagic.describe(), "invalid frame magic");
    assert_eq!(ProtocolError::UnsupportedVersion(7).describe(), "unsupported protocol version 7");
    assert_eq!(ProtocolError::UnknownMessage(200).describe(), "unknown message kind 200");
    assert_eq!(ProtocolError::FrameTooLarge(16777217).describe(), "frame payload too large: 16777217 bytes");
    assert_eq!(ProtocolError::InvalidPayload("truncated payload").describe(), "invalid payload: truncated payload");
    assert_eq!(ProtocolError::InvalidUtf8.describe(), "payload contains invalid UTF-8");
}

#[test]
fn task_result_with_bad_flags_or_trailing_bytes_is_rejected() {
    let result = TaskResult {
        task_id: 42,
        success: true,
        timed_out: false,
        exit_code: Some(0),
        stdout: "out".into(),
        stderr: String::new(),
    };
    let encoded = result.encode().unwrap();
    let mut bad = encoded.clone();
    bad[8] = 2;
    assert_eq!(TaskResult::decode(&bad).unwrap_err(), ProtocolError::InvalidPayload("invalid success flag"));
    let mut bad = encoded.clone();
    bad[9] = 2;
    assert_eq!(TaskResult::decode(&bad).unwrap_err(), ProtocolError::InvalidPayload("invalid timeout flag"));
    let mut longer = encoded.clone();
    longer.push(0);
    assert_eq!(TaskResult::decode(&longer).unwrap_err(), ProtocolError::InvalidPayload("trailing bytes"));
    for end in 0..encoded.len() {
        assert!(TaskResult::decode(&encoded[..end]).is_err());
    }
}

//! What a coordinator sends to a worker and how it reads the answer.
//!
//! A task request or heartbeat is one frame; the worker answers with one frame
//! of the matching kind. A payload that cannot be encoded or an answer that
//! cannot be decoded is a protocol error carrying the error's message; an
//! answer of another kind is an unexpected message.
use crate::executor::CoordinatorError;
use crate::protocol::{
    decode_frame, decode_heartbeat, decode_task_result, encode_task_request, frame_bytes, protocol_message,
    text_field, Frame, FrameView, Heartbeat, MessageKind, ProtocolError, TaskRequest, TaskRequestView, TaskResult,
    MAX_FRAME_PAYLOAD,
};
use crate::registry::WorkerClient;
use crate::wire::be_u64;
use vstd::prelude::*;

verus! {

/// `r` is the protocol error carrying the message of `e`.
pub open spec fn protocol_failure<T>(r: Result<T, CoordinatorError>, e: ProtocolError) -> bool {
    r matches Err(CoordinatorError::Protocol(m)) && m@ == protocol_message(e)
}

/// The payload of the heartbeat a coordinator sends: no worker identifier, time zero.
pub open spec fn probe_payload() -> Seq<u8> {
    text_field(Seq::empty()) + be_u64(0)
}

/// Wraps `std::io::Error::new` with the kind `InvalidInput` and `message`.
#[verifier::external_body]
fn invalid_input(message: &'static str) -> std::io::Error {
    std::io::Error::new(std::io::ErrorKind::InvalidInput, message)
}

/// The bytes of `frame`, or the I/O error a writer reports for a payload above the limit.
fn frame_to_bytes(frame: Frame) -> (r: Result<Vec<u8>, CoordinatorError>)
    ensures
        frame@.payload.len() > MAX_FRAME_PAYLOAD ==> r matches Err(CoordinatorError::Io(_)),
        frame@.payload.len() <= MAX_FRAME_PAYLOAD ==> (r matches Ok(b) && b@ == frame_bytes(frame@)),
{
    match frame.encode() {
        Ok(bytes) => Ok(bytes),
        Err(_) => Err(CoordinatorError::Io(invalid_input("frame payload exceeds protocol limit"))),
    }
}

impl WorkerClient {
    /// The frame asking a worker to run `command` as task `task_id`, stopping it
    /// after `timeout_ms` milliseconds when a timeout is given.
    pub fn task_request_bytes(task_id: u64, command: String, timeout_ms: Option<u64>) -> (r: Result<
        Vec<u8>,
        CoordinatorError,
    >)
        ensures
            match encode_task_request(TaskRequestView { task_id, command: command@, timeout_ms }) {
                Err(e) => protocol_failure(r, e),
                Ok(p) => if p.len() > MAX_FRAME_PAYLOAD {
                    r matches Err(CoordinatorError::Io(_))
                } else {
                    r matches Ok(b) && b@ == frame_bytes(FrameView { kind: MessageKind::TaskRequest, payload: p })
                },
            },
    {
        let request = TaskRequest { task_id, command, timeout_ms };
        match request.encode() {
            Ok(payload) => frame_to_bytes(Frame { kind: MessageKind::TaskRequest, payload }),
            Err(error) => Err(CoordinatorError::Protocol(error.describe())),
        }
    }

    /// The result a worker's answer to a task request carries.
    pub fn task_result_from(answer: &[u8]) -> (r: Result<TaskResult, CoordinatorError>)
        ensures
            match decode_frame(answer@) {
                Err(e) => protocol_failure(r, e),
                Ok(f) => if f.kind != MessageKind::TaskResult {
                    r matches Err(CoordinatorError::UnexpectedMessage(k)) && k == f.kind
                } else {
                    match decode_task_result(f.payload) {
                        Err(e) => protocol_failure(r, e),
                        Ok(v) => r matches Ok(t) && t@ == v,
                    }
                },
            },
    {
        let frame = match Frame::decode(answer) {
            Ok(frame) => frame,
            Err(error) => return Err(CoordinatorError::Protocol(error.describe())),
        };
        match frame.kind {
            MessageKind::TaskResult => {},
            other => return Err(CoordinatorError::UnexpectedMessage(other)),
        }
        match TaskResult::decode(frame.payload.as_slice()) {
            Ok(result) => Ok(result),
            Err(error) => Err(CoordinatorError::Protocol(error.describe())),
        }
    }

    /// The heartbeat frame a coordinator sends to probe a worker.
    pub fn heartbeat_request_bytes() -> (b: Vec<u8>)
        ensures
            b@ == frame_bytes(FrameView { kind: MessageKind::Heartbeat, payload: probe_payload() }),
    {
        let probe = Heartbeat { worker_id: String::new(), unix_seconds: 0 };
        assert(probe@.worker_id =~= Seq::<char>::empty());
        assert(vstd::utf8::encode_utf8(Seq::<char>::empty()) =~= Seq::<u8>::empty());
        let payload = match probe.encode() {
            Ok(payload) => payload,
            Err(_) => Vec::new(),
        };
        assert(payload@ == probe_payload());
        match frame_to_bytes(Frame { kind: MessageKind::Heartbeat, payload }) {
            Ok(bytes) => bytes,
            Err(_) => Vec::new(),
        }
    }

    /// The heartbeat a worker's answer to a probe carries.
    pub fn heartbeat_from(answer: &[u8]) -> (r: Result<Heartbeat, CoordinatorError>)
        ensures
            match decode_frame(answer@) {
                Err(e) => protocol_failure(r, e),
                Ok(f) => if f.kind != MessageKind::Heartbeat {
                    r matches Err(CoordinatorError::UnexpectedMessage(k)) && k == f.kind
                } else {
                    match decode_heartbeat(f.payload) {
                        Err(e) => protocol_failure(r, e),
                        Ok(v) => r matches Ok(h) && h@ == v,
                    }
                },
            },
    {
        let frame = match Frame::decode(answer) {
            Ok(frame) => frame,
            Err(error) => return Err(CoordinatorError::Protocol(error.describe())),
        };
        match frame.kind {
            MessageKind::Heartbeat => {},
            other => return Err(CoordinatorError::UnexpectedMessage(other)),
        }
        match Heartbeat::decode(frame.payload.as_slice()) {
            Ok(heartbeat) => Ok(heartbeat),
            Err(error) => Err(CoordinatorError::Protocol(error.describe())),
        }
    }
}

} // verus!

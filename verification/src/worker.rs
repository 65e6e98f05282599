//! The decisions of a worker: how many commands may run at once, when a
//! command has overrun its timeout, what a finished command reports, and how
//! a request frame is answered.
//!
//! Running the command, waiting on the concurrency gate and the network stay
//! with the caller, which hands each observation to these functions.
use crate::protocol::{
    decode_heartbeat, decode_task_request, encode_frame, encode_heartbeat, encode_task_result, Frame, FrameView,
    Heartbeat, HeartbeatView, MessageKind, ProtocolError, TaskRequest, TaskResultView,
};
use crate::protocol::TaskResult as WireTaskResult;
use crate::text::concat_text;
use vstd::prelude::*;
use vstd::utf8::{decode_utf8, valid_utf8};

verus! {

// ---------------------------------------------------------------------------
// Concurrency
// ---------------------------------------------------------------------------

/// The concurrency a worker allows when `requested` are asked for: at least one.
pub open spec fn allowed_concurrency(requested: usize) -> usize {
    if requested == 0 {
        1
    } else {
        requested
    }
}

/// The number of commands a worker runs at once when `requested` are asked for.
pub fn concurrency_limit(requested: usize) -> (n: usize)
    ensures
        n == allowed_concurrency(requested),
        n >= 1,
{
    if requested == 0 {
        1
    } else {
        requested
    }
}

/// The slots of a worker's concurrency gate: how many commands run, out of how many allowed.
#[derive(Debug, Clone, Copy, PartialEq, Eq, Structural)]
pub struct ConcurrencySlots {
    active: usize,
    limit: usize,
}

impl ConcurrencySlots {
    /// Commands running.
    pub closed spec fn running(&self) -> nat {
        self.active as nat
    }

    /// Commands allowed at once.
    pub closed spec fn allowed(&self) -> nat {
        self.limit as nat
    }

    /// Never more commands running than allowed.
    pub open spec fn wf(&self) -> bool {
        self.running() <= self.allowed()
    }

    /// A gate allowing `limit` commands at once, none running.
    pub fn new(limit: usize) -> (g: Self)
        ensures
            g.wf(),
            g.running() == 0,
            g.allowed() == limit,
    {
        ConcurrencySlots { active: 0, limit }
    }

    /// Commands allowed at once.
    pub fn limit(&self) -> (n: usize)
        ensures
            n == self.allowed(),
    {
        self.limit
    }

    /// Commands running.
    pub fn active(&self) -> (n: usize)
        ensures
            n == self.running(),
    {
        self.active
    }

    /// Takes a slot when one is free; otherwise the caller waits for a release.
    pub fn try_acquire(&mut self) -> (taken: bool)
        requires
            old(self).wf(),
        ensures
            final(self).wf(),
            taken == (old(self).running() < old(self).allowed()),
            final(self).allowed() == old(self).allowed(),
            final(self).running() == if taken {
                old(self).running() + 1
            } else {
                old(self).running()
            },
    {
        if self.active < self.limit {
            self.active = self.active + 1;
            true
        } else {
            false
        }
    }

    /// Gives back the slot of a finished command.
    pub fn release(&mut self)
        requires
            old(self).wf(),
            old(self).running() > 0,
        ensures
            final(self).wf(),
            final(self).allowed() == old(self).allowed(),
            final(self).running() == old(self).running() - 1,
    {
        self.active = self.active - 1;
    }
}

/// However acquisitions and releases interleave, a gate never has more
/// commands running than it allows: taking a slot keeps the bound, and so does
/// giving one back.
pub proof fn lemma_gate_bounds_concurrency(g: ConcurrencySlots, taken: bool, after: ConcurrencySlots)
    requires
        g.wf(),
        after.allowed() == g.allowed(),
        after.running() == if taken {
            g.running() + 1
        } else {
            g.running()
        },
        taken == (g.running() < g.allowed()),
    ensures
        after.wf(),
        after.running() <= after.allowed(),
{
}

// ---------------------------------------------------------------------------
// Timeouts
// ---------------------------------------------------------------------------

/// What a worker does while waiting for a command that has a timeout.
#[derive(Debug, Clone, Copy, PartialEq, Eq, Structural)]
pub enum WaitStep {
    /// The command has exited: collect its output.
    Finished,
    /// The timeout has passed: kill the command.
    Kill,
    /// Check again after a short sleep.
    Poll,
}

/// The next step of waiting for a command that has run `elapsed_ms` of its
/// `timeout_ms` and has (or has not) exited.
pub open spec fn next_wait_step(exited: bool, elapsed_ms: u64, timeout_ms: u64) -> WaitStep {
    if exited {
        WaitStep::Finished
    } else if elapsed_ms >= timeout_ms {
        WaitStep::Kill
    } else {
        WaitStep::Poll
    }
}

/// The next step of waiting for a command.
pub fn wait_step(exited: bool, elapsed_ms: u64, timeout_ms: u64) -> (s: WaitStep)
    ensures
        s == next_wait_step(exited, elapsed_ms, timeout_ms),
{
    if exited {
        WaitStep::Finished
    } else if elapsed_ms >= timeout_ms {
        WaitStep::Kill
    } else {
        WaitStep::Poll
    }
}

// ---------------------------------------------------------------------------
// Results
// ---------------------------------------------------------------------------

/// The text `String::from_utf8_lossy` makes of `bytes`.
pub uninterp spec fn utf8_lossy(bytes: Seq<u8>) -> Seq<char>;

/// Wraps `String::from_utf8_lossy`: the text of `bytes`, with each invalid
/// sequence replaced by U+FFFD; valid UTF-8 is decoded as it is.
#[verifier::external_body]
fn lossy_text(bytes: &[u8]) -> (s: String)
    ensures
        s@ == utf8_lossy(bytes@),
        valid_utf8(bytes@) ==> s@ == decode_utf8(bytes@),
{
    String::from_utf8_lossy(bytes).into_owned()
}

/// What a worker reports of one command.
#[derive(Debug, Clone, PartialEq, Eq)]
pub struct TaskResult {
    pub success: bool,
    pub timed_out: bool,
    pub exit_code: Option<i32>,
    pub stdout: String,
    pub stderr: String,
    pub duration_ms: u64,
}

pub struct TaskResultReport {
    pub success: bool,
    pub timed_out: bool,
    pub exit_code: Option<i32>,
    pub stdout: Seq<char>,
    pub stderr: Seq<char>,
    pub duration_ms: u64,
}

impl View for TaskResult {
    type V = TaskResultReport;

    open spec fn view(&self) -> TaskResultReport {
        TaskResultReport {
            success: self.success,
            timed_out: self.timed_out,
            exit_code: self.exit_code,
            stdout: self.stdout@,
            stderr: self.stderr@,
            duration_ms: self.duration_ms,
        }
    }
}

/// The error text of a command: its standard error, behind a timeout notice
/// when it was killed.
pub open spec fn error_text(timed_out: bool, stderr: Seq<u8>) -> Seq<char> {
    if !timed_out {
        utf8_lossy(stderr)
    } else if utf8_lossy(stderr).len() == 0 {
        "task timed out"@
    } else {
        "task timed out: "@ + utf8_lossy(stderr)
    }
}

/// The report of a command that ran `duration_ms`, was (or was not) killed at
/// its timeout, and exited with `exit_success` and `exit_code`.
pub open spec fn command_report(
    timed_out: bool,
    exit_success: bool,
    exit_code: Option<i32>,
    stdout: Seq<u8>,
    stderr: Seq<u8>,
    duration_ms: u64,
) -> TaskResultReport {
    TaskResultReport {
        success: !timed_out && exit_success,
        timed_out,
        exit_code: if timed_out {
            None
        } else {
            exit_code
        },
        stdout: utf8_lossy(stdout),
        stderr: error_text(timed_out, stderr),
        duration_ms,
    }
}

impl TaskResult {
    /// The report of a finished command, from its exit status and output.
    pub fn finish(
        timed_out: bool,
        exit_success: bool,
        exit_code: Option<i32>,
        stdout: &[u8],
        stderr: &[u8],
        duration_ms: u64,
    ) -> (r: TaskResult)
        ensures
            r@ == command_report(timed_out, exit_success, exit_code, stdout@, stderr@, duration_ms),
    {
        let existing = lossy_text(stderr);
        let stderr_text = if !timed_out {
            existing
        } else if existing.as_str().is_empty() {
            proof {
                reveal_strlit("task timed out");
            }
            "task timed out".to_owned()
        } else {
            concat_text("task timed out: ", existing.as_str())
        };
        TaskResult {
            success: !timed_out && exit_success,
            timed_out,
            exit_code: if timed_out {
                None
            } else {
                exit_code
            },
            stdout: lossy_text(stdout),
            stderr: stderr_text,
            duration_ms,
        }
    }
}

// ---------------------------------------------------------------------------
// Requests and answers
// ---------------------------------------------------------------------------

/// What a worker is asked to do.
#[derive(Debug)]
pub enum WorkerRequest {
    /// Run a command.
    Run(TaskRequest),
    /// Report liveness.
    Heartbeat,
}

/// Why a worker cannot serve a frame.
#[derive(Debug, Clone, PartialEq, Eq)]
pub enum WorkerRequestError {
    /// The payload does not decode.
    Protocol(ProtocolError),
    /// The frame is of a kind a worker does not serve.
    UnsupportedMessage(MessageKind),
}

impl WorkerRequestError {
    /// The message of this error.
    pub fn describe(&self) -> (s: String)
        ensures
            match self {
                WorkerRequestError::Protocol(e) => s@ == crate::protocol::protocol_message(*e),
                WorkerRequestError::UnsupportedMessage(_) => s@ == "worker received unsupported message kind"@,
            },
    {
        match self {
            WorkerRequestError::Protocol(e) => e.describe(),
            WorkerRequestError::UnsupportedMessage(_) => "worker received unsupported message kind".to_owned(),
        }
    }
}

impl WorkerRequest {
    /// The request a frame carries.
    pub fn from_frame(frame: &Frame) -> (r: Result<WorkerRequest, WorkerRequestError>)
        ensures
            match frame.kind {
                MessageKind::TaskRequest => match decode_task_request(frame.payload@) {
                    Ok(v) => r matches Ok(WorkerRequest::Run(t)) && t@ == v,
                    Err(e) => r == Err::<WorkerRequest, WorkerRequestError>(WorkerRequestError::Protocol(e)),
                },
                MessageKind::Heartbeat => match decode_heartbeat(frame.payload@) {
                    Ok(_) => r matches Ok(WorkerRequest::Heartbeat),
                    Err(e) => r == Err::<WorkerRequest, WorkerRequestError>(WorkerRequestError::Protocol(e)),
                },
                other => r == Err::<WorkerRequest, WorkerRequestError>(WorkerRequestError::UnsupportedMessage(other)),
            },
    {
        match frame.kind {
            MessageKind::TaskRequest => match TaskRequest::decode(frame.payload.as_slice()) {
                Ok(request) => Ok(WorkerRequest::Run(request)),
                Err(e) => Err(WorkerRequestError::Protocol(e)),
            },
            MessageKind::Heartbeat => match Heartbeat::decode(frame.payload.as_slice()) {
                Ok(_) => Ok(WorkerRequest::Heartbeat),
                Err(e) => Err(WorkerRequestError::Protocol(e)),
            },
            other => Err(WorkerRequestError::UnsupportedMessage(other)),
        }
    }
}

/// The wire result of task `task_id` that a worker report becomes.
pub open spec fn wire_result(task_id: u64, r: TaskResultReport) -> TaskResultView {
    TaskResultView {
        task_id,
        success: r.success,
        timed_out: r.timed_out,
        exit_code: r.exit_code,
        stdout: r.stdout,
        stderr: r.stderr,
    }
}

/// The frame of a payload, or the error of the payload or of the frame.
pub open spec fn framed(kind: MessageKind, payload: Result<Seq<u8>, ProtocolError>) -> Result<Seq<u8>, ProtocolError> {
    match payload {
        Err(e) => Err(e),
        Ok(p) => encode_frame(FrameView { kind, payload: p }),
    }
}

/// The frame answering task `task_id` with the report `result`.
pub fn result_frame(task_id: u64, result: TaskResult) -> (r: Result<Vec<u8>, ProtocolError>)
    ensures
        crate::protocol::bytes_result(r) == framed(
            MessageKind::TaskResult,
            encode_task_result(wire_result(task_id, result@)),
        ),
        r matches Ok(bytes) ==> {
            &&& crate::protocol::decode_frame(bytes@) matches Ok(f)
            &&& f.kind == MessageKind::TaskResult
            &&& crate::protocol::decode_task_result(f.payload) == Ok::<TaskResultView, ProtocolError>(
                TaskResultView {
                    task_id,
                    success: result@.success,
                    timed_out: result@.timed_out,
                    exit_code: result@.exit_code,
                    stdout: result@.stdout,
                    stderr: result@.stderr,
                },
            )
        },
{
    let ghost report = result@;
    let answer = WireTaskResult {
        task_id,
        success: result.success,
        timed_out: result.timed_out,
        exit_code: result.exit_code,
        stdout: result.stdout,
        stderr: result.stderr,
    };
    let payload = answer.encode()?;
    let r = Frame { kind: MessageKind::TaskResult, payload }.encode();
    proof {
        if r is Ok {
            lemma_result_frame_keeps_report(task_id, report);
        }
    }
    r
}

/// The answer a worker sends for a task keeps every field of its report: decoding
/// the frame gives a task result whose payload decodes to the task's identifier and
/// the report's success and timeout flags, exit code, standard output and standard error.
pub proof fn lemma_result_frame_keeps_report(task_id: u64, report: TaskResultReport)
    requires
        framed(MessageKind::TaskResult, encode_task_result(wire_result(task_id, report))) is Ok,
    ensures
        ({
            let bytes = framed(MessageKind::TaskResult, encode_task_result(wire_result(task_id, report)))->Ok_0;
            &&& crate::protocol::decode_frame(bytes) matches Ok(f)
            &&& f.kind == MessageKind::TaskResult
            &&& crate::protocol::decode_task_result(f.payload) == Ok::<TaskResultView, ProtocolError>(
                TaskResultView {
                    task_id,
                    success: report.success,
                    timed_out: report.timed_out,
                    exit_code: report.exit_code,
                    stdout: report.stdout,
                    stderr: report.stderr,
                },
            )
        }),
{
    let w = wire_result(task_id, report);
    let payload = encode_task_result(w)->Ok_0;
    let f = FrameView { kind: MessageKind::TaskResult, payload };
    assert(payload.len() <= crate::protocol::MAX_FRAME_PAYLOAD);
    crate::protocol::lemma_frame_round_trip(f);
    crate::protocol::lemma_task_result_round_trip(w);
}

/// The frame answering a heartbeat: the worker's identifier and the time.
pub fn heartbeat_frame(worker_id: String, unix_seconds: u64) -> (r: Result<Vec<u8>, ProtocolError>)
    ensures
        crate::protocol::bytes_result(r) == framed(
            MessageKind::Heartbeat,
            encode_heartbeat(HeartbeatView { worker_id: worker_id@, unix_seconds }),
        ),
{
    let payload = Heartbeat { worker_id, unix_seconds }.encode()?;
    Frame { kind: MessageKind::Heartbeat, payload }.encode()
}

} // verus!

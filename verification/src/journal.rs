//! The execution journal's record format.
//!
//! Each event is one line of tab-separated fields: a kind word, then decimal
//! integers, or an escaped worker address (`\` → `\\`, tab → `\t`, newline
//! → `\n`). Replaying reads the lines as `BufRead::lines` does, skips empty
//! lines and validates every record.
use crate::text::{ascii_chars, decimal, lemma_decimal_digits, lemma_parse_decimal, parse_decimal, parse_unsigned, push_decimal};
use crate::wire::{ascii_bytes, ascii_word, bytes_equal, put_slice, utf8_string};
use vstd::prelude::*;
use vstd::utf8::*;

verus! {

broadcast use vstd::string::is_ascii_spec_bytes;

/// A lifecycle event of an execution.
#[derive(Debug, Clone, PartialEq, Eq)]
pub enum ExecutionEvent {
    TaskStarted { task_id: u64, attempt: usize },
    TaskSucceeded { task_id: u64 },
    TaskFailed { task_id: u64 },
    TaskRetry { task_id: u64, attempt: usize },
    WorkerUnhealthy { address: String },
}

pub enum EventView {
    TaskStarted { task_id: u64, attempt: usize },
    TaskSucceeded { task_id: u64 },
    TaskFailed { task_id: u64 },
    TaskRetry { task_id: u64, attempt: usize },
    WorkerUnhealthy { address: Seq<char> },
}

impl View for ExecutionEvent {
    type V = EventView;

    open spec fn view(&self) -> EventView {
        match self {
            ExecutionEvent::TaskStarted { task_id, attempt } => EventView::TaskStarted {
                task_id: *task_id,
                attempt: *attempt,
            },
            ExecutionEvent::TaskSucceeded { task_id } => EventView::TaskSucceeded { task_id: *task_id },
            ExecutionEvent::TaskFailed { task_id } => EventView::TaskFailed { task_id: *task_id },
            ExecutionEvent::TaskRetry { task_id, attempt } => EventView::TaskRetry {
                task_id: *task_id,
                attempt: *attempt,
            },
            ExecutionEvent::WorkerUnhealthy { address } => EventView::WorkerUnhealthy { address: address@ },
        }
    }
}

/// Why a journal record is invalid.
#[derive(Debug, Clone, Copy, PartialEq, Eq, Structural)]
pub enum JournalError {
    /// "missing event field"
    MissingField,
    /// "invalid event integer"
    InvalidInteger,
    /// "missing worker address"
    MissingWorkerAddress,
    /// "unknown execution event"
    UnknownEvent,
    /// "trailing execution event fields"
    TrailingFields,
    /// "invalid event escape"
    InvalidEscape,
    /// "unterminated event escape"
    UnterminatedEscape,
    /// "stream did not contain valid UTF-8"
    InvalidUtf8,
}

/// The message of a journal error.
pub open spec fn journal_message(e: JournalError) -> Seq<char> {
    match e {
        JournalError::MissingField => "missing event field"@,
        JournalError::InvalidInteger => "invalid event integer"@,
        JournalError::MissingWorkerAddress => "missing worker address"@,
        JournalError::UnknownEvent => "unknown execution event"@,
        JournalError::TrailingFields => "trailing execution event fields"@,
        JournalError::InvalidEscape => "invalid event escape"@,
        JournalError::UnterminatedEscape => "unterminated event escape"@,
        JournalError::InvalidUtf8 => "stream did not contain valid UTF-8"@,
    }
}

impl JournalError {
    /// The message of this error.
    pub fn message(&self) -> (m: &'static str)
        ensures
            m@ == journal_message(*self),
    {
        match self {
            JournalError::MissingField => "missing event field",
            JournalError::InvalidInteger => "invalid event integer",
            JournalError::MissingWorkerAddress => "missing worker address",
            JournalError::UnknownEvent => "unknown execution event",
            JournalError::TrailingFields => "trailing execution event fields",
            JournalError::InvalidEscape => "invalid event escape",
            JournalError::UnterminatedEscape => "unterminated event escape",
            JournalError::InvalidUtf8 => "stream did not contain valid UTF-8",
        }
    }
}

/// An append-only journal of execution events, kept in the file at a path.
/// Appending writes an event's record; replaying reads the file back.
#[derive(Debug)]
pub struct ExecutionJournal {
    path: String,
}

impl ExecutionJournal {
    /// The journal kept at `path`.
    pub fn new(path: String) -> (j: Self)
        ensures
            j.path_view() == path@,
    {
        ExecutionJournal { path }
    }

    /// The path of the journal file.
    pub closed spec fn path_view(&self) -> Seq<char> {
        self.path@
    }

    /// The path of the journal file.
    pub fn path(&self) -> (p: &str)
        ensures
            p@ == self.path_view(),
    {
        self.path.as_str()
    }

    /// The bytes appended to the journal file for `event`: its record and a newline.
    pub fn record(event: &ExecutionEvent) -> (r: Vec<u8>)
        ensures
            r@ == encode_event(event@) + seq![newline()],
            journal_of(seq![event@]) == r@,
    {
        let mut line = event.encode();
        line.push(10);
        proof {
            let one = seq![event@];
            assert(one.drop_last() =~= Seq::<EventView>::empty());
            assert(one.last() == event@);
            assert(journal_of(one.drop_last()) =~= Seq::<u8>::empty());
            assert(journal_of(one) == journal_of(one.drop_last()) + encode_event(one.last()) + seq![newline()]);
            assert(journal_of(one) =~= line@);
        }
        line
    }

    /// The events a journal file holds.
    pub fn events(content: &[u8]) -> (r: Result<Vec<ExecutionEvent>, JournalError>)
        ensures
            events_result(r) == replay_journal(content@),
    {
        replay_content(content)
    }
}

/// Appending the record of one more event to a journal's file extends the
/// journal by that event.
pub proof fn lemma_append_record(events: Seq<EventView>, e: EventView)
    ensures
        journal_of(events.push(e)) == journal_of(events) + encode_event(e) + seq![newline()],
{
    assert(events.push(e).drop_last() =~= events);
}

// ---------------------------------------------------------------------------
// Specification
// ---------------------------------------------------------------------------

pub open spec fn tab() -> u8 {
    9
}

pub open spec fn newline() -> u8 {
    10
}

pub open spec fn backslash() -> u8 {
    92
}

pub open spec fn kw_task_started() -> Seq<u8> {
    ascii_bytes("task_started"@)
}

pub open spec fn kw_task_succeeded() -> Seq<u8> {
    ascii_bytes("task_succeeded"@)
}

pub open spec fn kw_task_failed() -> Seq<u8> {
    ascii_bytes("task_failed"@)
}

pub open spec fn kw_task_retry() -> Seq<u8> {
    ascii_bytes("task_retry"@)
}

pub open spec fn kw_worker_unhealthy() -> Seq<u8> {
    ascii_bytes("worker_unhealthy"@)
}

/// `s` split at every `sep`, as `str::split` does.
pub open spec fn split_on(s: Seq<u8>, sep: u8) -> Seq<Seq<u8>>
    decreases s.len(),
{
    if s.len() == 0 {
        seq![Seq::empty()]
    } else {
        let prev = split_on(s.drop_last(), sep);
        if s.last() == sep {
            prev.push(Seq::empty())
        } else {
            prev.update(prev.len() - 1, prev.last().push(s.last()))
        }
    }
}

/// Escaped bytes of one byte of an address.
pub open spec fn escape_byte(b: u8) -> Seq<u8> {
    if b == backslash() {
        seq![backslash(), backslash()]
    } else if b == tab() {
        seq![backslash(), 116u8]
    } else if b == newline() {
        seq![backslash(), 110u8]
    } else {
        seq![b]
    }
}

/// Escaped bytes of an address.
pub open spec fn escape(b: Seq<u8>) -> Seq<u8>
    decreases b.len(),
{
    if b.len() == 0 {
        Seq::empty()
    } else {
        escape(b.drop_last()) + escape_byte(b.last())
    }
}

/// Characters read so far and whether a `\` is pending, reading bytes as characters.
pub open spec fn unescape_state(b: Seq<u8>) -> Result<(Seq<char>, bool), JournalError>
    decreases b.len(),
{
    if b.len() == 0 {
        Ok((Seq::empty(), false))
    } else {
        match unescape_state(b.drop_last()) {
            Err(e) => Err(e),
            Ok((out, escaped)) => {
                let c = b.last();
                if escaped {
                    if c == backslash() {
                        Ok((out.push('\\'), false))
                    } else if c == 116 {
                        Ok((out.push('\t'), false))
                    } else if c == 110 {
                        Ok((out.push('\n'), false))
                    } else {
                        Err(JournalError::InvalidEscape)
                    }
                } else if c == backslash() {
                    Ok((out, true))
                } else {
                    Ok((out.push(c as char), false))
                }
            },
        }
    }
}

/// The address an escaped field holds; every other byte stands for the character of the same number.
pub open spec fn unescape(b: Seq<u8>) -> Result<Seq<char>, JournalError> {
    match unescape_state(b) {
        Err(e) => Err(e),
        Ok((out, escaped)) => if escaped {
            Err(JournalError::UnterminatedEscape)
        } else {
            Ok(out)
        },
    }
}

/// The record line of an event (without its newline).
pub open spec fn encode_event(e: EventView) -> Seq<u8> {
    match e {
        EventView::TaskStarted { task_id, attempt } => kw_task_started() + seq![tab()] + decimal(task_id as nat)
            + seq![tab()] + decimal(attempt as nat),
        EventView::TaskSucceeded { task_id } => kw_task_succeeded() + seq![tab()] + decimal(task_id as nat),
        EventView::TaskFailed { task_id } => kw_task_failed() + seq![tab()] + decimal(task_id as nat),
        EventView::TaskRetry { task_id, attempt } => kw_task_retry() + seq![tab()] + decimal(task_id as nat)
            + seq![tab()] + decimal(attempt as nat),
        EventView::WorkerUnhealthy { address } => kw_worker_unhealthy() + seq![tab()] + escape(
            encode_utf8(address),
        ),
    }
}

/// Integer field `k`.
pub open spec fn field_int(f: Seq<Seq<u8>>, k: int, max: nat) -> Result<nat, JournalError> {
    if k >= f.len() {
        Err(JournalError::MissingField)
    } else {
        match parse_unsigned(f[k], max) {
            None => Err(JournalError::InvalidInteger),
            Some(v) => Ok(v),
        }
    }
}

/// An event and the number of fields it used.
pub open spec fn decode_fields(f: Seq<Seq<u8>>) -> Result<(EventView, int), JournalError> {
    let kind = f[0];
    if kind == kw_task_started() || kind == kw_task_retry() {
        match field_int(f, 1, u64::MAX as nat) {
            Err(e) => Err(e),
            Ok(id) => match field_int(f, 2, usize::MAX as nat) {
                Err(e) => Err(e),
                Ok(attempt) => if kind == kw_task_started() {
                    Ok((EventView::TaskStarted { task_id: id as u64, attempt: attempt as usize }, 3))
                } else {
                    Ok((EventView::TaskRetry { task_id: id as u64, attempt: attempt as usize }, 3))
                },
            },
        }
    } else if kind == kw_task_succeeded() || kind == kw_task_failed() {
        match field_int(f, 1, u64::MAX as nat) {
            Err(e) => Err(e),
            Ok(id) => if kind == kw_task_succeeded() {
                Ok((EventView::TaskSucceeded { task_id: id as u64 }, 2))
            } else {
                Ok((EventView::TaskFailed { task_id: id as u64 }, 2))
            },
        }
    } else if kind == kw_worker_unhealthy() {
        if f.len() < 2 {
            Err(JournalError::MissingWorkerAddress)
        } else {
            match unescape(f[1]) {
                Err(e) => Err(e),
                Ok(address) => Ok((EventView::WorkerUnhealthy { address }, 2)),
            }
        }
    } else {
        Err(JournalError::UnknownEvent)
    }
}

/// The event of a record line.
pub open spec fn decode_event(line: Seq<u8>) -> Result<EventView, JournalError> {
    let f = split_on(line, tab());
    match decode_fields(f) {
        Err(e) => Err(e),
        Ok((ev, used)) => if f.len() > used {
            Err(JournalError::TrailingFields)
        } else {
            Ok(ev)
        },
    }
}

/// A line read by `BufRead::lines`: a terminated line loses a final `\r`.
pub open spec fn strip_cr(s: Seq<u8>) -> Seq<u8> {
    if s.len() > 0 && s.last() == 13 {
        s.drop_last()
    } else {
        s
    }
}

/// The lines of a journal, as `BufRead::lines` yields them.
pub open spec fn lines_of(content: Seq<u8>) -> Seq<Seq<u8>> {
    let pieces = split_on(content, newline());
    let n = pieces.len() as int;
    let terminated = Seq::new((n - 1) as nat, |i: int| strip_cr(pieces[i]));
    if pieces[n - 1].len() > 0 {
        terminated.push(pieces[n - 1])
    } else {
        terminated
    }
}

/// Replaying the lines `lines[..n]`.
pub open spec fn replay_upto(lines: Seq<Seq<u8>>, n: int) -> Result<Seq<EventView>, JournalError>
    decreases n,
{
    if n <= 0 {
        Ok(Seq::empty())
    } else {
        match replay_upto(lines, n - 1) {
            Err(e) => Err(e),
            Ok(events) => {
                let line = lines[n - 1];
                if !valid_utf8(line) {
                    Err(JournalError::InvalidUtf8)
                } else if line.len() == 0 {
                    Ok(events)
                } else {
                    match decode_event(line) {
                        Err(e) => Err(e),
                        Ok(ev) => Ok(events.push(ev)),
                    }
                }
            },
        }
    }
}

/// Replaying a whole journal.
pub open spec fn replay_journal(content: Seq<u8>) -> Result<Seq<EventView>, JournalError> {
    replay_upto(lines_of(content), lines_of(content).len() as int)
}

/// The journal after appending `events` to an empty file.
pub open spec fn journal_of(events: Seq<EventView>) -> Seq<u8>
    decreases events.len(),
{
    if events.len() == 0 {
        Seq::empty()
    } else {
        journal_of(events.drop_last()) + encode_event(events.last()) + seq![newline()]
    }
}

// ---------------------------------------------------------------------------
// Exec
// ---------------------------------------------------------------------------

/// Appends the escaped form of `bytes`.
fn push_escaped(buffer: &mut Vec<u8>, bytes: &[u8])
    ensures
        final(buffer)@ == old(buffer)@ + escape(bytes@),
{
    let mut i: usize = 0;
    while i < bytes.len()
        invariant
            i <= bytes.len(),
            buffer@ == old(buffer)@ + escape(bytes@.take(i as int)),
        decreases bytes.len() - i,
    {
        let b = bytes[i];
        let ghost before = buffer@;
        if b == 92 {
            buffer.push(92);
            buffer.push(92);
        } else if b == 9 {
            buffer.push(92);
            buffer.push(116);
        } else if b == 10 {
            buffer.push(92);
            buffer.push(110);
        } else {
            buffer.push(b);
        }
        proof {
            assert(bytes@.take(i + 1).drop_last() =~= bytes@.take(i as int));
            assert(buffer@ =~= before + escape_byte(b));
            assert(escape(bytes@.take(i + 1)) == escape(bytes@.take(i as int)) + escape_byte(b));
        }
        i += 1;
    }
    assert(bytes@.take(bytes@.len() as int) =~= bytes@);
}

/// Appends the UTF-8 encoding of the character numbered `b`.
fn push_byte_char(buffer: &mut Vec<u8>, b: u8, Ghost(chars): Ghost<Seq<char>>)
    requires
        old(buffer)@ == encode_utf8(chars),
    ensures
        final(buffer)@ == encode_utf8(chars.push(b as char)),
{
    proof {
        lemma_encode_utf8_push(chars, b as char);
    }
    let ghost v = b as u32;
    proof {
        assert((b as char) as u32 == v);
    }
    if b < 128 {
        buffer.push(b);
        proof {
            assert(has_width_1_encoding(v));
            assert(((v & 0x7Fu32) as u8) == b) by (bit_vector)
                requires
                    v == b as u32,
                    b < 128,
            ;
            assert(encode_scalar(v) =~= seq![b]);
        }
    } else {
        buffer.push(0xC0u8 | (b >> 6u8));
        buffer.push(0x80u8 | (b & 0x3Fu8));
        proof {
            assert(!has_width_1_encoding(v) && has_width_2_encoding(v));
            assert((0xC0u8 | ((v >> 6u32) & 0x1Fu32) as u8) == (0xC0u8 | (b >> 6u8)) && (0x80u8 | (v & 0x3Fu32) as u8)
                == (0x80u8 | (b & 0x3Fu8))) by (bit_vector)
                requires
                    v == b as u32,
            ;
            assert(encode_scalar(v) =~= seq![0xC0u8 | (b >> 6u8), 0x80u8 | (b & 0x3Fu8)]);
        }
    }
}

pub(crate) proof fn lemma_encode_utf8_concat(a: Seq<char>, b: Seq<char>)
    ensures
        encode_utf8(a + b) == encode_utf8(a) + encode_utf8(b),
    decreases a.len(),
{
    if a.len() == 0 {
        assert(a + b =~= b);
    } else {
        lemma_encode_utf8_concat(a.drop_first(), b);
        assert((a + b).drop_first() =~= a.drop_first() + b);
        assert((a + b)[0] == a[0]);
        assert(encode_utf8(a + b) =~= encode_utf8(a) + encode_utf8(b));
    }
}

pub(crate) proof fn lemma_encode_utf8_push(chars: Seq<char>, c: char)
    ensures
        encode_utf8(chars.push(c)) == encode_utf8(chars) + encode_scalar(c as u32),
{
    lemma_encode_utf8_concat(chars, seq![c]);
    assert(chars.push(c) =~= chars + seq![c]);
    assert(seq![c].drop_first() =~= Seq::<char>::empty());
    assert(seq![c][0] == c);
    assert(encode_utf8(Seq::<char>::empty()) =~= Seq::<u8>::empty());
    assert(encode_utf8(seq![c]) =~= encode_scalar(c as u32));
}

proof fn lemma_unescape_error_persists(b: Seq<u8>, k: int)
    requires
        0 <= k <= b.len(),
        unescape_state(b.take(k)) is Err,
    ensures
        unescape_state(b.take(b.len() as int)) == unescape_state(b.take(k)),
    decreases b.len() - k,
{
    if k < b.len() {
        assert(b.take(k + 1).drop_last() =~= b.take(k));
        lemma_unescape_error_persists(b, k + 1);
    }
}

/// The characters an escaped field holds.
fn unescape_field(field: &[u8]) -> (r: Result<String, JournalError>)
    ensures
        match unescape(field@) {
            Ok(cs) => r matches Ok(s) && s@ == cs,
            Err(e) => r == Err::<String, JournalError>(e),
        },
{
    let mut out: Vec<u8> = Vec::new();
    let ghost mut chars: Seq<char> = Seq::empty();
    let mut escaped = false;
    let mut i: usize = 0;
    proof {
        assert(field@.take(0) =~= Seq::<u8>::empty());
    }
    while i < field.len()
        invariant
            i <= field.len(),
            unescape_state(field@.take(i as int)) == Ok::<(Seq<char>, bool), JournalError>((chars, escaped)),
            out@ == encode_utf8(chars),
        decreases field.len() - i,
    {
        let b = field[i];
        proof {
            assert(field@.take(i + 1).drop_last() =~= field@.take(i as int));
            assert(field@.take(i + 1).last() == b);
        }
        if escaped {
            if b == 92 {
                push_byte_char(&mut out, 92, Ghost(chars));
                proof { chars = chars.push(92u8 as char); }
            } else if b == 116 {
                push_byte_char(&mut out, 9, Ghost(chars));
                proof { chars = chars.push(9u8 as char); }
            } else if b == 110 {
                push_byte_char(&mut out, 10, Ghost(chars));
                proof { chars = chars.push(10u8 as char); }
            } else {
                proof {
                    assert(unescape_state(field@.take(i + 1)) == Err::<(Seq<char>, bool), JournalError>(
                        JournalError::InvalidEscape,
                    ));
                    lemma_unescape_error_persists(field@, i + 1);
                    assert(field@.take(field@.len() as int) =~= field@);
                }
                return Err(JournalError::InvalidEscape);
            }
            escaped = false;
        } else if b == 92 {
            escaped = true;
        } else {
            push_byte_char(&mut out, b, Ghost(chars));
            proof { chars = chars.push(b as char); }
        }
        i += 1;
    }
    assert(field@.take(field.len() as int) =~= field@);
    if escaped {
        return Err(JournalError::UnterminatedEscape);
    }
    proof {
        encode_utf8_valid_utf8(chars);
        encode_utf8_decode_utf8(chars);
    }
    match utf8_string(out.as_slice()) {
        Some(s) => Ok(s),
        None => Err(JournalError::InvalidUtf8),
    }
}

pub open spec fn event_result(r: Result<ExecutionEvent, JournalError>) -> Result<EventView, JournalError> {
    match r {
        Ok(e) => Ok(e@),
        Err(e) => Err(e),
    }
}

pub open spec fn events_result(r: Result<Vec<ExecutionEvent>, JournalError>) -> Result<Seq<EventView>, JournalError> {
    match r {
        Ok(v) => Ok(v@.map_values(|e: ExecutionEvent| e@)),
        Err(e) => Err(e),
    }
}

pub open spec fn byte_rows(v: Seq<Vec<u8>>) -> Seq<Seq<u8>> {
    v.map_values(|r: Vec<u8>| r@)
}

/// `s` split at every `sep`.
pub fn split_bytes(s: &[u8], sep: u8) -> (r: Vec<Vec<u8>>)
    ensures
        byte_rows(r@) == split_on(s@, sep),
{
    let mut done: Vec<Vec<u8>> = Vec::new();
    let mut current: Vec<u8> = Vec::new();
    let mut i: usize = 0;
    proof {
        assert(s@.take(0) =~= Seq::<u8>::empty());
        assert(byte_rows(done@).push(current@) =~= split_on(s@.take(0), sep));
    }
    while i < s.len()
        invariant
            i <= s.len(),
            byte_rows(done@).push(current@) == split_on(s@.take(i as int), sep),
        decreases s.len() - i,
    {
        let b = s[i];
        let ghost prev = split_on(s@.take(i as int), sep);
        proof {
            assert(s@.take(i + 1).drop_last() =~= s@.take(i as int));
            assert(s@.take(i + 1).last() == b);
        }
        if b == sep {
            let finished = current;
            done.push(finished);
            current = Vec::new();
            proof {
                assert(byte_rows(done@) =~= prev);
                assert(byte_rows(done@).push(current@) =~= prev.push(Seq::empty()));
            }
        } else {
            let ghost cur0 = current@;
            current.push(b);
            proof {
                assert(prev.last() == cur0);
                assert(byte_rows(done@).push(current@) =~= prev.update(prev.len() - 1, prev.last().push(b)));
            }
        }
        i += 1;
    }
    done.push(current);
    assert(s@.take(s@.len() as int) =~= s@);
    assert(byte_rows(done@) =~= split_on(s@, sep));
    done
}

fn read_int_field(f: &Vec<Vec<u8>>, k: usize, max: u64) -> (r: Result<u64, JournalError>)
    ensures
        match field_int(byte_rows(f@), k as int, max as nat) {
            Ok(v) => r == Ok::<u64, JournalError>(v as u64),
            Err(e) => r == Err::<u64, JournalError>(e),
        },
{
    if k >= f.len() {
        return Err(JournalError::MissingField);
    }
    assert(byte_rows(f@)[k as int] == f@[k as int]@);
    match parse_decimal(f[k].as_slice(), max) {
        Some(v) => Ok(v),
        None => Err(JournalError::InvalidInteger),
    }
}

impl ExecutionEvent {
    /// The record line of this event, without its newline.
    pub fn encode(&self) -> (line: Vec<u8>)
        ensures
            line@ == encode_event(self@),
    {
        proof {
            reveal_strlit("task_started");
            reveal_strlit("task_succeeded");
            reveal_strlit("task_failed");
            reveal_strlit("task_retry");
            reveal_strlit("worker_unhealthy");
        }
        let mut out: Vec<u8> = Vec::new();
        match self {
            ExecutionEvent::TaskStarted { task_id, attempt } => {
                put_slice(&mut out, ascii_word("task_started"));
                out.push(9);
                push_decimal(&mut out, *task_id);
                out.push(9);
                push_decimal(&mut out, *attempt as u64);
            },
            ExecutionEvent::TaskSucceeded { task_id } => {
                put_slice(&mut out, ascii_word("task_succeeded"));
                out.push(9);
                push_decimal(&mut out, *task_id);
            },
            ExecutionEvent::TaskFailed { task_id } => {
                put_slice(&mut out, ascii_word("task_failed"));
                out.push(9);
                push_decimal(&mut out, *task_id);
            },
            ExecutionEvent::TaskRetry { task_id, attempt } => {
                put_slice(&mut out, ascii_word("task_retry"));
                out.push(9);
                push_decimal(&mut out, *task_id);
                out.push(9);
                push_decimal(&mut out, *attempt as u64);
            },
            ExecutionEvent::WorkerUnhealthy { address } => {
                put_slice(&mut out, ascii_word("worker_unhealthy"));
                out.push(9);
                push_escaped(&mut out, address.as_str().as_bytes());
            },
        }
        assert(out@ =~= encode_event(self@));
        out
    }

    /// The event of a record line.
    pub fn decode(line: &[u8]) -> (r: Result<ExecutionEvent, JournalError>)
        ensures
            event_result(r) == decode_event(line@),
    {
        proof {
            reveal_strlit("task_started");
            reveal_strlit("task_succeeded");
            reveal_strlit("task_failed");
            reveal_strlit("task_retry");
            reveal_strlit("worker_unhealthy");
        }
        let fields = split_bytes(line, 9);
        let ghost f = byte_rows(fields@);
        assert(f.len() > 0) by {
            lemma_split_nonempty(line@, 9);
        }
        let kind = fields[0].as_slice();
        assert(kind@ == f[0]);
        let started = bytes_equal(kind, ascii_word("task_started"));
        let retry = bytes_equal(kind, ascii_word("task_retry"));
        let succeeded = bytes_equal(kind, ascii_word("task_succeeded"));
        let failed = bytes_equal(kind, ascii_word("task_failed"));
        let unhealthy = bytes_equal(kind, ascii_word("worker_unhealthy"));
        let (event, used) = if started || retry {
            let task_id = read_int_field(&fields, 1, u64::MAX)?;
            let attempt = read_int_field(&fields, 2, usize::MAX as u64)?;
            if started {
                (ExecutionEvent::TaskStarted { task_id, attempt: attempt as usize }, 3usize)
            } else {
                (ExecutionEvent::TaskRetry { task_id, attempt: attempt as usize }, 3usize)
            }
        } else if succeeded || failed {
            let task_id = read_int_field(&fields, 1, u64::MAX)?;
            if succeeded {
                (ExecutionEvent::TaskSucceeded { task_id }, 2usize)
            } else {
                (ExecutionEvent::TaskFailed { task_id }, 2usize)
            }
        } else if unhealthy {
            if fields.len() < 2 {
                return Err(JournalError::MissingWorkerAddress);
            }
            assert(f[1] == fields@[1]@);
            let address = unescape_field(fields[1].as_slice())?;
            (ExecutionEvent::WorkerUnhealthy { address }, 2usize)
        } else {
            return Err(JournalError::UnknownEvent);
        };
        if fields.len() > used {
            return Err(JournalError::TrailingFields);
        }
        Ok(event)
    }
}

pub(crate) proof fn lemma_split_nonempty(s: Seq<u8>, sep: u8)
    ensures
        split_on(s, sep).len() > 0,
    decreases s.len(),
{
    if s.len() > 0 {
        lemma_split_nonempty(s.drop_last(), sep);
    }
}

proof fn lemma_replay_error_persists(lines: Seq<Seq<u8>>, k: int, n: int)
    requires
        0 <= k <= n,
        replay_upto(lines, k) is Err,
    ensures
        replay_upto(lines, n) == replay_upto(lines, k),
    decreases n - k,
{
    if k < n {
        lemma_replay_error_persists(lines, k, n - 1);
    }
}

/// Replays a journal: its lines as `BufRead::lines` reads them, empty lines skipped.
pub fn replay_content(content: &[u8]) -> (r: Result<Vec<ExecutionEvent>, JournalError>)
    ensures
        events_result(r) == replay_journal(content@),
{
    let pieces = split_bytes(content, 10);
    let ghost p = byte_rows(pieces@);
    proof {
        lemma_split_nonempty(content@, 10);
    }
    let n = pieces.len();
    let ghost lines = lines_of(content@);
    let mut events: Vec<ExecutionEvent> = Vec::new();
    let count = if pieces[n - 1].len() > 0 { n } else { n - 1 };
    assert(lines.len() == count);
    let mut i: usize = 0;
    assert(events@.map_values(|e: ExecutionEvent| e@) =~= Seq::<EventView>::empty());
    while i < count
        invariant
            i <= count,
            count == lines.len(),
            n == pieces@.len(),
            n > 0,
            p == byte_rows(pieces@),
            lines == lines_of(content@),
            p == split_on(content@, 10),
            replay_upto(lines, i as int) == Ok::<Seq<EventView>, JournalError>(events@.map_values(|e: ExecutionEvent| e@)),
        decreases count - i,
    {
        let piece = pieces[i].as_slice();
        assert(piece@ == p[i as int]);
        let line: &[u8] = if i + 1 < n && piece.len() > 0 && piece[piece.len() - 1] == 13 {
            &piece[0..piece.len() - 1]
        } else {
            piece
        };
        assert(line@ == lines[i as int]) by {
            if i + 1 < n {
                if piece@.len() > 0 && piece@.last() == 13 {
                    assert(line@ =~= piece@.drop_last());
                }
            }
        }
        if crate::wire::str_from_utf8(line).is_none() {
            proof {
                lemma_replay_error_persists(lines, i + 1, count as int);
            }
            return Err(JournalError::InvalidUtf8);
        }
        if line.len() > 0 {
            let ghost before = events@.map_values(|e: ExecutionEvent| e@);
            let decoded = ExecutionEvent::decode(line);
            let event = match decoded {
                Ok(event) => event,
                Err(e) => {
                    proof {
                        lemma_replay_error_persists(lines, i + 1, count as int);
                    }
                    return Err(e);
                },
            };
            events.push(event);
            assert(events@.map_values(|e: ExecutionEvent| e@) =~= before.push(event@));
        }
        i += 1;
    }
    Ok(events)
}

// ---------------------------------------------------------------------------
// Laws
// ---------------------------------------------------------------------------

/// No byte of `s` is `sep`.
pub open spec fn free_of(s: Seq<u8>, sep: u8) -> bool {
    forall|i: int| 0 <= i < s.len() ==> #[trigger] s[i] != sep
}

/// An event whose record decodes to itself: a worker address must be ASCII
/// (other bytes are read back one character per byte).
pub open spec fn decodable(e: EventView) -> bool {
    match e {
        EventView::WorkerUnhealthy { address } => vstd::utf8::is_ascii_chars(address),
        _ => true,
    }
}

/// An event whose record replays to itself from a journal file: a worker address
/// must be ASCII and must not end with `\r`, which reading lines removes.
pub open spec fn replayable(e: EventView) -> bool {
    match e {
        EventView::WorkerUnhealthy { address } => vstd::utf8::is_ascii_chars(address) && (address.len() == 0
            || address.last() != '\r'),
        _ => true,
    }
}

pub(crate) proof fn lemma_split_plain(s: Seq<u8>, t: Seq<u8>, sep: u8)
    requires
        free_of(t, sep),
    ensures
        split_on(s + t, sep) == split_on(s, sep).update(
            split_on(s, sep).len() - 1,
            split_on(s, sep).last() + t,
        ),
        split_on(s + t, sep).len() == split_on(s, sep).len(),
    decreases t.len(),
{
    lemma_split_nonempty(s, sep);
    if t.len() == 0 {
        assert(s + t =~= s);
        assert(split_on(s, sep).last() + t =~= split_on(s, sep).last());
        assert(split_on(s, sep).update(split_on(s, sep).len() - 1, split_on(s, sep).last())
            =~= split_on(s, sep));
    } else {
        lemma_split_plain(s, t.drop_last(), sep);
        assert((s + t).drop_last() =~= s + t.drop_last());
        assert((s + t).last() == t.last());
        let prev = split_on(s + t.drop_last(), sep);
        assert(prev.last() == split_on(s, sep).last() + t.drop_last());
        assert(prev.last().push(t.last()) =~= split_on(s, sep).last() + t);
        assert(split_on(s + t, sep) =~= split_on(s, sep).update(split_on(s, sep).len() - 1, split_on(s, sep).last() + t));
    }
}

pub(crate) proof fn lemma_split_sep(s: Seq<u8>, sep: u8)
    ensures
        split_on(s.push(sep), sep) == split_on(s, sep).push(Seq::empty()),
{
    assert(s.push(sep).drop_last() =~= s);
}

/// Splitting `a`, `b`, `c` joined by `sep`, none of which holds `sep`.
proof fn lemma_split_fields3(a: Seq<u8>, b: Seq<u8>, c: Seq<u8>, sep: u8)
    requires
        free_of(a, sep),
        free_of(b, sep),
        free_of(c, sep),
    ensures
        split_on(a, sep) == seq![a],
        split_on(a + seq![sep] + b, sep) == seq![a, b],
        split_on(a + seq![sep] + b + seq![sep] + c, sep) == seq![a, b, c],
{
    let e = Seq::<u8>::empty();
    lemma_split_plain(e, a, sep);
    assert(e + a =~= a);
    assert(split_on(e, sep) == seq![e]);
    assert(split_on(a, sep) =~= seq![a]);
    lemma_split_sep(a, sep);
    assert(a + seq![sep] =~= a.push(sep));
    lemma_split_plain(a + seq![sep], b, sep);
    assert(split_on(a + seq![sep] + b, sep) =~= seq![a, b]);
    lemma_split_sep(a + seq![sep] + b, sep);
    assert(a + seq![sep] + b + seq![sep] =~= (a + seq![sep] + b).push(sep));
    lemma_split_plain(a + seq![sep] + b + seq![sep], c, sep);
    assert(split_on(a + seq![sep] + b + seq![sep] + c, sep) =~= seq![a, b, c]);
}

pub(crate) proof fn lemma_decimal_free(v: nat)
    ensures
        free_of(decimal(v), tab()),
        free_of(decimal(v), newline()),
        crate::text::all_ascii(decimal(v)),
        decimal(v).len() > 0,
        decimal(v).last() != 13,
{
    lemma_decimal_digits(v);
    assert(crate::text::is_digit(decimal(v)[decimal(v).len() - 1]));
}

proof fn lemma_escape_props(b: Seq<u8>)
    ensures
        free_of(escape(b), tab()),
        free_of(escape(b), newline()),
        crate::text::all_ascii(b) ==> crate::text::all_ascii(escape(b)),
        b.len() > 0 && b.last() != 13 ==> escape(b).len() > 0 && escape(b).last() != 13,
        unescape_state(escape(b)) == Ok::<(Seq<char>, bool), JournalError>((ascii_chars(b), false)),
    decreases b.len(),
{
    if b.len() > 0 {
        let x = b.drop_last();
        let l = b.last();
        lemma_escape_props(x);
        let ex = escape(x);
        assert(ascii_chars(b) =~= ascii_chars(x).push(l as char));
        if l == backslash() || l == tab() || l == newline() {
            let c: u8 = if l == backslash() { 92 } else if l == tab() { 116 } else { 110 };
            assert(escape_byte(l) == seq![92u8, c]);
            assert(escape(b) =~= ex.push(92u8).push(c));
            assert(ex.push(92u8).push(c).drop_last() =~= ex.push(92u8));
            assert(ex.push(92u8).drop_last() =~= ex);
            assert(unescape_state(ex.push(92u8)) == Ok::<(Seq<char>, bool), JournalError>((ascii_chars(x), true)));
            if l == tab() {
                assert('\t' == (9u8 as char));
            } else if l == newline() {
                assert('\n' == (10u8 as char));
            } else {
                assert('\\' == (92u8 as char));
            }
        } else {
            assert(escape(b) =~= ex.push(l));
            assert(ex.push(l).drop_last() =~= ex);
        }
        assert forall|i: int| 0 <= i < escape(b).len() implies #[trigger] escape(b)[i] != tab() && escape(b)[i] != newline() by {
            if i < ex.len() {
                assert(escape(b)[i] == ex[i]);
            }
        }
        if crate::text::all_ascii(b) {
            assert forall|i: int| 0 <= i < escape(b).len() implies #[trigger] escape(b)[i] < 128 by {
                if i < ex.len() {
                    assert(escape(b)[i] == ex[i]);
                    assert(crate::text::all_ascii(x)) by {
                        assert forall|j: int| 0 <= j < x.len() implies #[trigger] x[j] < 128 by {
                            assert(x[j] == b[j]);
                        }
                    }
                } else {
                    assert(b[b.len() - 1] < 128);
                }
            }
        }
    } else {
        assert(ascii_chars(b) =~= Seq::<char>::empty());
    }
}

proof fn lemma_ascii_round_trip(address: Seq<char>)
    requires
        vstd::utf8::is_ascii_chars(address),
    ensures
        ascii_chars(encode_utf8(address)) == address,
        crate::text::all_ascii(encode_utf8(address)),
        encode_utf8(address).len() == address.len(),
        address.len() > 0 ==> encode_utf8(address).last() == address.last() as u8,
{
    vstd::utf8::is_ascii_chars_encode_utf8(address);
    let b = encode_utf8(address);
    assert forall|i: int| 0 <= i < address.len() implies #[trigger] ascii_chars(b)[i] == address[i] by {
        assert(b[i] == address[i] as u8);
        assert('\0' <= address[i] <= '\u{7f}');
    }
    assert(ascii_chars(b) =~= address);
    assert forall|i: int| 0 <= i < b.len() implies #[trigger] b[i] < 128 by {
        assert(b[i] == address[i] as u8);
        assert('\0' <= address[i] <= '\u{7f}');
    }
}

proof fn lemma_keywords()
    ensures
        kw_task_started().len() == 12,
        kw_task_retry().len() == 10,
        kw_task_succeeded().len() == 14,
        kw_task_failed().len() == 11,
        kw_worker_unhealthy().len() == 16,
        free_of(kw_task_started(), tab()) && free_of(kw_task_started(), newline()) && crate::text::all_ascii(kw_task_started()),
        free_of(kw_task_retry(), tab()) && free_of(kw_task_retry(), newline()) && crate::text::all_ascii(kw_task_retry()),
        free_of(kw_task_succeeded(), tab()) && free_of(kw_task_succeeded(), newline()) && crate::text::all_ascii(kw_task_succeeded()),
        free_of(kw_task_failed(), tab()) && free_of(kw_task_failed(), newline()) && crate::text::all_ascii(kw_task_failed()),
        free_of(kw_worker_unhealthy(), tab()) && free_of(kw_worker_unhealthy(), newline()) && crate::text::all_ascii(kw_worker_unhealthy()),
{
    reveal_strlit("task_started");
    reveal_strlit("task_succeeded");
    reveal_strlit("task_failed");
    reveal_strlit("task_retry");
    reveal_strlit("worker_unhealthy");
}

/// Decoding the record of an event whose worker address, if any, is ASCII gives the event back.
pub proof fn lemma_event_round_trip(e: EventView)
    requires
        decodable(e),
    ensures
        decode_event(encode_event(e)) == Ok::<EventView, JournalError>(e),
{
    lemma_keywords();
    let t = tab();
    match e {
        EventView::TaskStarted { task_id, attempt } => {
            lemma_decimal_free(task_id as nat);
            lemma_decimal_free(attempt as nat);
            lemma_split_fields3(kw_task_started(), decimal(task_id as nat), decimal(attempt as nat), t);
            lemma_parse_decimal(task_id as nat, u64::MAX as nat);
            lemma_parse_decimal(attempt as nat, usize::MAX as nat);
        },
        EventView::TaskRetry { task_id, attempt } => {
            lemma_decimal_free(task_id as nat);
            lemma_decimal_free(attempt as nat);
            lemma_split_fields3(kw_task_retry(), decimal(task_id as nat), decimal(attempt as nat), t);
            lemma_parse_decimal(task_id as nat, u64::MAX as nat);
            lemma_parse_decimal(attempt as nat, usize::MAX as nat);
        },
        EventView::TaskSucceeded { task_id } => {
            lemma_decimal_free(task_id as nat);
            lemma_split_fields3(kw_task_succeeded(), decimal(task_id as nat), Seq::empty(), t);
            lemma_parse_decimal(task_id as nat, u64::MAX as nat);
        },
        EventView::TaskFailed { task_id } => {
            lemma_decimal_free(task_id as nat);
            lemma_split_fields3(kw_task_failed(), decimal(task_id as nat), Seq::empty(), t);
            lemma_parse_decimal(task_id as nat, u64::MAX as nat);
        },
        EventView::WorkerUnhealthy { address } => {
            let b = encode_utf8(address);
            lemma_escape_props(b);
            lemma_ascii_round_trip(address);
            lemma_split_fields3(kw_worker_unhealthy(), escape(b), Seq::empty(), t);
        },
    }
}

/// A retry record has the layout of a start record, kind word aside: the kind word,
/// a tab, the task identifier in decimal, a tab and the attempt in decimal. Reading
/// such a line gives back the retry of that task at that attempt.
pub proof fn lemma_retry_record_layout(task_id: u64, attempt: usize)
    ensures
        encode_event(EventView::TaskRetry { task_id, attempt }) == kw_task_retry() + seq![tab()] + decimal(
            task_id as nat,
        ) + seq![tab()] + decimal(attempt as nat),
        encode_event(EventView::TaskRetry { task_id, attempt }).skip(kw_task_retry().len() as int) == encode_event(
            EventView::TaskStarted { task_id, attempt },
        ).skip(kw_task_started().len() as int),
        decode_event(
            kw_task_retry() + seq![tab()] + decimal(task_id as nat) + seq![tab()] + decimal(attempt as nat),
        ) == Ok::<EventView, JournalError>(EventView::TaskRetry { task_id, attempt }),
{
    lemma_keywords();
    let tail = seq![tab()] + decimal(task_id as nat) + seq![tab()] + decimal(attempt as nat);
    let retry = encode_event(EventView::TaskRetry { task_id, attempt });
    let started = encode_event(EventView::TaskStarted { task_id, attempt });
    assert(retry =~= kw_task_retry() + tail);
    assert(started =~= kw_task_started() + tail);
    assert(retry.skip(kw_task_retry().len() as int) =~= tail);
    assert(started.skip(kw_task_started().len() as int) =~= tail);
    lemma_event_round_trip(EventView::TaskRetry { task_id, attempt });
}

/// Lines of a journal whose lines are `lines`, each ended by a newline.
proof fn lemma_journal_lines(events: Seq<EventView>)
    requires
        forall|i: int| 0 <= i < events.len() ==> replayable(#[trigger] events[i]),
    ensures
        split_on(journal_of(events), newline()) == events.map_values(|e: EventView| encode_event(e)).push(
            Seq::empty(),
        ),
    decreases events.len(),
{
    let lines = events.map_values(|e: EventView| encode_event(e));
    if events.len() == 0 {
        assert(journal_of(events) =~= Seq::<u8>::empty());
        assert(lines =~= Seq::<Seq<u8>>::empty());
    } else {
        let prev = events.drop_last();
        assert forall|i: int| 0 <= i < prev.len() implies replayable(#[trigger] prev[i]) by {
            assert(prev[i] == events[i]);
        }
        lemma_journal_lines(prev);
        let e = events.last();
        assert(replayable(e)) by {
            assert(events[events.len() - 1] == e);
        }
        lemma_record_free(e);
        let j = journal_of(prev);
        lemma_split_plain(j, encode_event(e), newline());
        lemma_split_sep(j + encode_event(e), newline());
        assert(journal_of(events) =~= (j + encode_event(e)).push(newline()));
        assert(prev.map_values(|e: EventView| encode_event(e)).push(encode_event(e)) =~= lines);
        assert(split_on(j, newline()).last() + encode_event(e) =~= encode_event(e));
        assert(split_on(j + encode_event(e), newline()) =~= lines);
    }
}

proof fn lemma_free_concat(a: Seq<u8>, b: Seq<u8>, sep: u8)
    requires
        free_of(a, sep),
        free_of(b, sep),
    ensures
        free_of(a + b, sep),
{
    assert forall|i: int| 0 <= i < (a + b).len() implies #[trigger] (a + b)[i] != sep by {
        if i < a.len() {
            assert((a + b)[i] == a[i]);
        } else {
            assert((a + b)[i] == b[i - a.len()]);
        }
    }
}

/// Every record is one line: whatever the event, its record holds no newline.
pub proof fn lemma_record_is_one_line(e: EventView)
    ensures
        free_of(encode_event(e), newline()),
{
    lemma_keywords();
    let nl = newline();
    let t = seq![tab()];
    assert(free_of(t, nl));
    match e {
        EventView::TaskStarted { task_id, attempt } => {
            lemma_decimal_free(task_id as nat);
            lemma_decimal_free(attempt as nat);
            lemma_free_concat(kw_task_started(), t, nl);
            lemma_free_concat(kw_task_started() + t, decimal(task_id as nat), nl);
            lemma_free_concat(kw_task_started() + t + decimal(task_id as nat), t, nl);
            lemma_free_concat(kw_task_started() + t + decimal(task_id as nat) + t, decimal(attempt as nat), nl);
        },
        EventView::TaskRetry { task_id, attempt } => {
            lemma_decimal_free(task_id as nat);
            lemma_decimal_free(attempt as nat);
            lemma_free_concat(kw_task_retry(), t, nl);
            lemma_free_concat(kw_task_retry() + t, decimal(task_id as nat), nl);
            lemma_free_concat(kw_task_retry() + t + decimal(task_id as nat), t, nl);
            lemma_free_concat(kw_task_retry() + t + decimal(task_id as nat) + t, decimal(attempt as nat), nl);
        },
        EventView::TaskSucceeded { task_id } => {
            lemma_decimal_free(task_id as nat);
            lemma_free_concat(kw_task_succeeded(), t, nl);
            lemma_free_concat(kw_task_succeeded() + t, decimal(task_id as nat), nl);
        },
        EventView::TaskFailed { task_id } => {
            lemma_decimal_free(task_id as nat);
            lemma_free_concat(kw_task_failed(), t, nl);
            lemma_free_concat(kw_task_failed() + t, decimal(task_id as nat), nl);
        },
        EventView::WorkerUnhealthy { address } => {
            lemma_escape_props(encode_utf8(address));
            lemma_free_concat(kw_worker_unhealthy(), t, nl);
            lemma_free_concat(kw_worker_unhealthy() + t, escape(encode_utf8(address)), nl);
        },
    }
}

/// The record of a replayable event: no newline, ASCII, not empty, no final `\r`.
proof fn lemma_record_free(e: EventView)
    requires
        replayable(e),
    ensures
        free_of(encode_event(e), newline()),
        crate::text::all_ascii(encode_event(e)),
        encode_event(e).len() > 0,
        encode_event(e).last() != 13,
{
    lemma_keywords();
    let r = encode_event(e);
    match e {
        EventView::TaskStarted { task_id, attempt } => {
            lemma_decimal_free(task_id as nat);
            lemma_decimal_free(attempt as nat);
            lemma_concat_props(kw_task_started() + seq![tab()] + decimal(task_id as nat) + seq![tab()], decimal(attempt as nat));
        },
        EventView::TaskRetry { task_id, attempt } => {
            lemma_decimal_free(task_id as nat);
            lemma_decimal_free(attempt as nat);
            lemma_concat_props(kw_task_retry() + seq![tab()] + decimal(task_id as nat) + seq![tab()], decimal(attempt as nat));
        },
        EventView::TaskSucceeded { task_id } => {
            lemma_decimal_free(task_id as nat);
            lemma_concat_props(kw_task_succeeded() + seq![tab()], decimal(task_id as nat));
        },
        EventView::TaskFailed { task_id } => {
            lemma_decimal_free(task_id as nat);
            lemma_concat_props(kw_task_failed() + seq![tab()], decimal(task_id as nat));
        },
        EventView::WorkerUnhealthy { address } => {
            let b = encode_utf8(address);
            lemma_escape_props(b);
            lemma_ascii_round_trip(address);
            if address.len() > 0 {
                assert(b.last() == address.last() as u8);
                assert(address.last() != '\r');
                assert('\0' <= address.last() <= '\u{7f}') by {
                    assert(address[address.len() - 1] == address.last());
                }
                assert(b.last() != 13);
                lemma_concat_props(kw_worker_unhealthy() + seq![tab()], escape(b));
            } else {
                assert(b.len() == 0);
                assert(escape(b) =~= Seq::<u8>::empty());
                assert(r =~= kw_worker_unhealthy() + seq![tab()]);
                lemma_concat_props(kw_worker_unhealthy(), seq![tab()]);
            }
        },
    }
}

proof fn lemma_concat_props(a: Seq<u8>, b: Seq<u8>)
    requires
        free_of(b, newline()),
        crate::text::all_ascii(b),
        b.len() > 0,
        b.last() != 13,
        forall|i: int| 0 <= i < a.len() ==> #[trigger] a[i] != newline() && a[i] < 128,
    ensures
        free_of(a + b, newline()),
        crate::text::all_ascii(a + b),
        (a + b).len() > 0,
        (a + b).last() != 13,
{
    assert forall|i: int| 0 <= i < (a + b).len() implies #[trigger] (a + b)[i] != newline() && (a + b)[i] < 128 by {
        if i >= a.len() {
            assert((a + b)[i] == b[i - a.len()]);
        }
    }
    assert((a + b).last() == b.last());
}

/// ASCII bytes are valid UTF-8.
pub(crate) proof fn lemma_ascii_valid(b: Seq<u8>)
    requires
        crate::text::all_ascii(b),
    ensures
        valid_utf8(b),
{
    let cs = ascii_chars(b);
    assert(vstd::utf8::is_ascii_chars(cs));
    vstd::utf8::is_ascii_chars_encode_utf8(cs);
    assert(encode_utf8(cs) =~= b);
    encode_utf8_valid_utf8(cs);
}

/// Replaying a journal that holds the records of replayable events gives the events back.
pub proof fn lemma_journal_replays_appended_events(events: Seq<EventView>)
    requires
        forall|i: int| 0 <= i < events.len() ==> replayable(#[trigger] events[i]),
    ensures
        replay_journal(journal_of(events)) == Ok::<Seq<EventView>, JournalError>(events),
{
    let content = journal_of(events);
    let lines = events.map_values(|e: EventView| encode_event(e));
    lemma_journal_lines(events);
    let pieces = split_on(content, newline());
    assert(lines_of(content) =~= lines) by {
        assert forall|i: int| 0 <= i < lines.len() implies #[trigger] strip_cr(pieces[i]) == lines[i] by {
            lemma_record_free(events[i]);
        }
    }
    assert forall|n: int| 0 <= n <= events.len() implies #[trigger] replay_upto(lines, n) == Ok::<Seq<EventView>, JournalError>(
        events.take(n),
    ) by {
        lemma_replay_prefix(events, n);
    }
    assert(events.take(events.len() as int) =~= events);
}

proof fn lemma_replay_prefix(events: Seq<EventView>, n: int)
    requires
        forall|i: int| 0 <= i < events.len() ==> replayable(#[trigger] events[i]),
        0 <= n <= events.len(),
    ensures
        replay_upto(events.map_values(|e: EventView| encode_event(e)), n) == Ok::<Seq<EventView>, JournalError>(
            events.take(n),
        ),
    decreases n,
{
    if n > 0 {
        lemma_replay_prefix(events, n - 1);
        let e = events[n - 1];
        lemma_record_free(e);
        lemma_ascii_valid(encode_event(e));
        lemma_event_round_trip(e);
        assert(events.take(n) =~= events.take(n - 1).push(e));
    } else {
        assert(events.take(0) =~= Seq::<EventView>::empty());
    }
}

} // verus!

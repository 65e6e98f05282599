//! Job records and their line format: `JOB_ID \t STATUS` per line.
//!
//! Reading a store file keeps, for each job, the last well-formed line
//! (a decimal job identifier, a tab, the status); lines without a tab or
//! with a bad identifier are skipped, and text that is not UTF-8 is refused.
use crate::journal::{
    free_of, lemma_ascii_valid, lemma_decimal_free, lemma_split_nonempty, lemma_split_plain,
    lemma_encode_utf8_push, lemma_split_sep, lines_of, split_bytes, split_on, strip_cr,
};
use crate::text::{decimal, lemma_parse_decimal, parse_decimal, parse_unsigned, push_decimal};
use crate::wire::{put_slice, str_from_utf8, utf8_string};
use vstd::prelude::*;
use vstd::utf8::*;

verus! {

broadcast use {vstd::utf8::encode_utf8_valid_utf8, vstd::utf8::encode_utf8_decode_utf8};

/// The persisted state of one job.
#[derive(Debug, Clone, PartialEq, Eq)]
pub struct JobRecord {
    pub job_id: u64,
    pub status: String,
}

pub struct JobRecordView {
    pub job_id: u64,
    pub status: Seq<char>,
}

impl View for JobRecord {
    type V = JobRecordView;

    open spec fn view(&self) -> JobRecordView {
        JobRecordView { job_id: self.job_id, status: self.status@ }
    }
}

/// Why a store file could not be read.
#[derive(Debug, Clone, Copy, PartialEq, Eq, Structural)]
pub enum StoreError {
    /// A line is not valid UTF-8.
    InvalidUtf8,
}

// ---------------------------------------------------------------------------
// Specification
// ---------------------------------------------------------------------------

/// Some record has identifier `id`.
pub open spec fn has_job(jobs: Seq<JobRecordView>, id: u64) -> bool {
    exists|i: int| 0 <= i < jobs.len() && #[trigger] jobs[i].job_id == id
}

/// Position of the record of job `id`.
pub open spec fn job_index(jobs: Seq<JobRecordView>, id: u64) -> int {
    choose|i: int| 0 <= i < jobs.len() && #[trigger] jobs[i].job_id == id
}

/// One record per job.
pub open spec fn jobs_unique(jobs: Seq<JobRecordView>) -> bool {
    forall|i: int, j: int|
        0 <= i < jobs.len() && 0 <= j < jobs.len() && i != j ==> #[trigger] jobs[i].job_id != #[trigger] jobs[j].job_id
}

/// Records after inserting `r`, replacing the record of the same job.
pub open spec fn upserted(jobs: Seq<JobRecordView>, r: JobRecordView) -> Seq<JobRecordView> {
    if has_job(jobs, r.job_id) {
        jobs.update(job_index(jobs, r.job_id), r)
    } else {
        jobs.push(r)
    }
}

/// The parts of `s` before and after its first `sep`.
pub open spec fn split_first(s: Seq<u8>, sep: u8) -> Option<(Seq<u8>, Seq<u8>)>
    decreases s.len(),
{
    if s.len() == 0 {
        None
    } else if s[0] == sep {
        Some((Seq::empty(), s.drop_first()))
    } else {
        match split_first(s.drop_first(), sep) {
            Some((a, b)) => Some((seq![s[0]] + a, b)),
            None => None,
        }
    }
}

/// The record a line holds, if it is well formed.
pub open spec fn parse_record(line: Seq<u8>) -> Option<JobRecordView> {
    match split_first(line, 9) {
        None => None,
        Some((id, status)) => match parse_unsigned(id, u64::MAX as nat) {
            None => None,
            Some(v) => Some(JobRecordView { job_id: v as u64, status: decode_utf8(status) }),
        },
    }
}

/// Records read from `lines[..n]`.
pub open spec fn parse_upto(lines: Seq<Seq<u8>>, n: int) -> Result<Seq<JobRecordView>, StoreError>
    decreases n,
{
    if n <= 0 {
        Ok(Seq::empty())
    } else {
        match parse_upto(lines, n - 1) {
            Err(e) => Err(e),
            Ok(jobs) => if !valid_utf8(lines[n - 1]) {
                Err(StoreError::InvalidUtf8)
            } else {
                match parse_record(lines[n - 1]) {
                    None => Ok(jobs),
                    Some(r) => Ok(upserted(jobs, r)),
                }
            },
        }
    }
}

/// Records read from a store file.
pub open spec fn parse_store(content: Seq<u8>) -> Result<Seq<JobRecordView>, StoreError> {
    parse_upto(lines_of(content), lines_of(content).len() as int)
}

/// The line of a record (without its newline).
pub open spec fn record_line(r: JobRecordView) -> Seq<u8> {
    decimal(r.job_id as nat) + seq![9u8] + encode_utf8(r.status)
}

/// A store file holding `jobs`, one line each.
pub open spec fn render_store(jobs: Seq<JobRecordView>) -> Seq<u8>
    decreases jobs.len(),
{
    if jobs.len() == 0 {
        Seq::empty()
    } else {
        render_store(jobs.drop_last()) + record_line(jobs.last()) + seq![10u8]
    }
}

// ---------------------------------------------------------------------------
// The store
// ---------------------------------------------------------------------------

/// Job records, one per job, in the order jobs were first recorded.
#[derive(Debug)]
pub struct JobStore {
    jobs: Vec<JobRecord>,
}

impl View for JobStore {
    type V = Seq<JobRecordView>;

    closed spec fn view(&self) -> Seq<JobRecordView> {
        self.jobs@.map_values(|r: JobRecord| r@)
    }
}

proof fn lemma_job_index(jobs: Seq<JobRecordView>, id: u64, i: int)
    requires
        jobs_unique(jobs),
        0 <= i < jobs.len(),
        jobs[i].job_id == id,
    ensures
        has_job(jobs, id),
        job_index(jobs, id) == i,
{
    let j = job_index(jobs, id);
    assert(jobs[i].job_id == id);
}

proof fn lemma_upserted_unique(jobs: Seq<JobRecordView>, r: JobRecordView)
    requires
        jobs_unique(jobs),
    ensures
        jobs_unique(upserted(jobs, r)),
{
    let u = upserted(jobs, r);
    if has_job(jobs, r.job_id) {
        let k = job_index(jobs, r.job_id);
        assert forall|i: int, j: int| 0 <= i < u.len() && 0 <= j < u.len() && i != j implies #[trigger] u[i].job_id
            != #[trigger] u[j].job_id by {
            assert(u[i].job_id == jobs[i].job_id);
            assert(u[j].job_id == jobs[j].job_id);
        }
    } else {
        assert forall|i: int, j: int| 0 <= i < u.len() && 0 <= j < u.len() && i != j implies #[trigger] u[i].job_id
            != #[trigger] u[j].job_id by {
            if i < jobs.len() && j < jobs.len() {
                assert(u[i] == jobs[i] && u[j] == jobs[j]);
            } else if i < jobs.len() {
                assert(u[i] == jobs[i]);
            } else {
                assert(u[j] == jobs[j]);
            }
        }
    }
}

impl JobStore {
    /// One record per job.
    pub open spec fn wf(&self) -> bool {
        jobs_unique(self@)
    }

    /// An empty store.
    pub fn new() -> (s: Self)
        ensures
            s@ == Seq::<JobRecordView>::empty(),
            s.wf(),
    {
        let s = JobStore { jobs: Vec::new() };
        assert(s@ =~= Seq::<JobRecordView>::empty());
        s
    }

    /// Number of records.
    pub fn len(&self) -> (n: usize)
        ensures
            n == self@.len(),
    {
        self.jobs.len()
    }

    fn position(&self, job_id: u64) -> (r: Option<usize>)
        requires
            self.wf(),
        ensures
            match r {
                Some(i) => i < self@.len() && self@[i as int].job_id == job_id && job_index(self@, job_id) == i
                    && has_job(self@, job_id),
                None => !has_job(self@, job_id),
            },
    {
        let mut i: usize = 0;
        while i < self.jobs.len()
            invariant
                i <= self.jobs.len(),
                self.wf(),
                forall|j: int| 0 <= j < i ==> #[trigger] self@[j].job_id != job_id,
            decreases self.jobs.len() - i,
        {
            if self.jobs[i].job_id == job_id {
                proof {
                    lemma_job_index(self@, job_id, i as int);
                }
                return Some(i);
            }
            i += 1;
        }
        None
    }

    /// Records `record`, replacing the record of the same job.
    pub fn upsert(&mut self, record: JobRecord)
        requires
            old(self).wf(),
        ensures
            final(self).wf(),
            final(self)@ == upserted(old(self)@, record@),
    {
        let ghost before = self@;
        let ghost rv = record@;
        match self.position(record.job_id) {
            Some(i) => {
                self.jobs.remove(i);
                self.jobs.insert(i, record);
                assert(self@ =~= before.update(i as int, rv));
            },
            None => {
                self.jobs.push(record);
                assert(self@ =~= before.push(rv));
            },
        }
        proof {
            lemma_upserted_unique(before, rv);
        }
    }

    /// The record of job `job_id`.
    pub fn get(&self, job_id: u64) -> (r: Option<&JobRecord>)
        requires
            self.wf(),
        ensures
            match r {
                Some(rec) => has_job(self@, job_id) && rec@ == self@[job_index(self@, job_id)],
                None => !has_job(self@, job_id),
            },
    {
        match self.position(job_id) {
            Some(i) => Some(&self.jobs[i]),
            None => None,
        }
    }

    /// The store file holding these records.
    pub fn render(&self) -> (out: Vec<u8>)
        ensures
            out@ == render_store(self@),
    {
        let mut out: Vec<u8> = Vec::new();
        let mut i: usize = 0;
        proof {
            assert(self@.take(0) =~= Seq::<JobRecordView>::empty());
        }
        while i < self.jobs.len()
            invariant
                i <= self.jobs.len(),
                out@ == render_store(self@.take(i as int)),
            decreases self.jobs.len() - i,
        {
            let record = &self.jobs[i];
            push_decimal(&mut out, record.job_id);
            out.push(9);
            put_slice(&mut out, record.status.as_str().as_bytes());
            out.push(10);
            proof {
                assert(self@.take(i + 1).drop_last() =~= self@.take(i as int));
                assert(self@.take(i + 1).last() == record@);
                assert(out@ =~= render_store(self@.take(i as int)) + record_line(record@) + seq![10u8]);
            }
            i += 1;
        }
        assert(self@.take(self@.len() as int) =~= self@);
        out
    }

    /// The records of a store file.
    pub fn parse(content: &[u8]) -> (r: Result<JobStore, StoreError>)
        ensures
            match parse_store(content@) {
                Ok(jobs) => r matches Ok(s) && s@ == jobs && s.wf(),
                Err(e) => r matches Err(e2) && e2 == e,
            },
    {
        let pieces = split_bytes(content, 10);
        let ghost p = crate::journal::byte_rows(pieces@);
        proof {
            lemma_split_nonempty(content@, 10);
        }
        let n = pieces.len();
        let ghost lines = lines_of(content@);
        let count = if pieces[n - 1].len() > 0 { n } else { n - 1 };
        assert(lines.len() == count);
        let mut store = JobStore::new();
        let mut i: usize = 0;
        while i < count
            invariant
                i <= count,
                count == lines.len(),
                n == pieces@.len(),
                n > 0,
                p == crate::journal::byte_rows(pieces@),
                lines == lines_of(content@),
                p == split_on(content@, 10),
                store.wf(),
                parse_upto(lines, i as int) == Ok::<Seq<JobRecordView>, StoreError>(store@),
            decreases count - i,
        {
            let piece = pieces[i].as_slice();
            assert(piece@ == p[i as int]);
            let line: &[u8] = if i + 1 < n && piece.len() > 0 && piece[piece.len() - 1] == 13 {
                &piece[0..piece.len() - 1]
            } else {
                piece
            };
            assert(line@ == lines[i as int]) by {
                if i + 1 < n {
                    if piece@.len() > 0 && piece@.last() == 13 {
                        assert(line@ =~= piece@.drop_last());
                    }
                }
            }
            if str_from_utf8(line).is_none() {
                proof {
                    lemma_parse_error_persists(lines, i + 1, count as int);
                }
                return Err(StoreError::InvalidUtf8);
            }
            match parse_line(line) {
                Some(record) => store.upsert(record),
                None => {},
            }
            i += 1;
        }
        Ok(store)
    }
}

proof fn lemma_parse_error_persists(lines: Seq<Seq<u8>>, k: int, n: int)
    requires
        0 <= k <= n,
        parse_upto(lines, k) is Err,
    ensures
        parse_upto(lines, n) == parse_upto(lines, k),
    decreases n - k,
{
    if k < n {
        lemma_parse_error_persists(lines, k, n - 1);
    }
}

pub(crate) proof fn lemma_split_first_at(s: Seq<u8>, sep: u8, i: int)
    requires
        0 <= i < s.len(),
        s[i] == sep,
        forall|j: int| 0 <= j < i ==> #[trigger] s[j] != sep,
    ensures
        split_first(s, sep) == Some((s.take(i), s.skip(i + 1))),
    decreases i,
{
    if i > 0 {
        lemma_split_first_at(s.drop_first(), sep, i - 1);
        assert(seq![s[0]] + s.drop_first().take(i - 1) =~= s.take(i));
        assert(s.drop_first().skip(i) =~= s.skip(i + 1));
    } else {
        assert(s.take(0) =~= Seq::<u8>::empty());
        assert(s.drop_first() =~= s.skip(1));
    }
}

pub(crate) proof fn lemma_split_first_none(s: Seq<u8>, sep: u8)
    requires
        free_of(s, sep),
    ensures
        split_first(s, sep) is None,
    decreases s.len(),
{
    if s.len() > 0 {
        lemma_split_first_none(s.drop_first(), sep);
    }
}

/// A valid UTF-8 line stays valid after the byte following an ASCII byte.
pub(crate) proof fn lemma_valid_after_ascii(line: Seq<u8>, i: int)
    requires
        valid_utf8(line),
        0 <= i < line.len(),
        line[i] < 128,
    ensures
        valid_utf8(line.skip(i + 1)),
        valid_utf8(line.take(i)),
{
    is_char_boundary_iff_is_leading_byte(line, i);
    valid_utf8_split(line, i);
    assert(line.subrange(0, i) =~= line.take(i));
    let t = line.subrange(i, line.len() as int);
    assert(t[0] == line[i]);
    assert(pop_first_scalar(t) =~= line.skip(i + 1));
}

/// The record of a line that is valid UTF-8.
fn parse_line(line: &[u8]) -> (r: Option<JobRecord>)
    requires
        valid_utf8(line@),
    ensures
        match parse_record(line@) {
            Some(rec) => r matches Some(x) && x@ == rec,
            None => r is None,
        },
{
    let mut i: usize = 0;
    while i < line.len() && line[i] != 9
        invariant
            i <= line.len(),
            forall|j: int| 0 <= j < i ==> #[trigger] line@[j] != 9,
        decreases line.len() - i,
    {
        i += 1;
    }
    if i == line.len() {
        proof {
            lemma_split_first_none(line@, 9);
        }
        return None;
    }
    proof {
        lemma_split_first_at(line@, 9, i as int);
        lemma_valid_after_ascii(line@, i as int);
    }
    let id_bytes = &line[0..i];
    let status_bytes = &line[i + 1..line.len()];
    assert(id_bytes@ =~= line@.take(i as int));
    assert(status_bytes@ =~= line@.skip(i + 1));
    match parse_decimal(id_bytes, u64::MAX) {
        None => None,
        Some(job_id) => match utf8_string(status_bytes) {
            Some(status) => Some(JobRecord { job_id, status }),
            None => None,
        },
    }
}

// ---------------------------------------------------------------------------
// Laws
// ---------------------------------------------------------------------------

/// Reading a job after an upsert gives the upserted record; every other job
/// reads as before, and the records stay one per job.
pub proof fn lemma_get_after_upsert(jobs: Seq<JobRecordView>, r: JobRecordView, id: u64)
    requires
        jobs_unique(jobs),
    ensures
        jobs_unique(upserted(jobs, r)),
        has_job(upserted(jobs, r), r.job_id),
        upserted(jobs, r)[job_index(upserted(jobs, r), r.job_id)] == r,
        id != r.job_id ==> has_job(upserted(jobs, r), id) == has_job(jobs, id),
        id != r.job_id && has_job(jobs, id) ==> upserted(jobs, r)[job_index(upserted(jobs, r), id)] == jobs[job_index(
            jobs,
            id,
        )],
{
    lemma_upserted_unique(jobs, r);
    let u = upserted(jobs, r);
    let p = if has_job(jobs, r.job_id) {
        job_index(jobs, r.job_id)
    } else {
        jobs.len() as int
    };
    assert(u[p] == r);
    lemma_job_index(u, r.job_id, p);
    if id != r.job_id {
        if has_job(jobs, id) {
            let q = job_index(jobs, id);
            assert(q != p);
            assert(u[q] == jobs[q]);
            lemma_job_index(u, id, q);
        }
        if has_job(u, id) {
            let q = job_index(u, id);
            assert(q != p);
            assert(u[q] == jobs[q]);
        }
    }
}

/// A status that survives a store file: no newline, and no final carriage return.
pub open spec fn storable_status(s: Seq<char>) -> bool {
    &&& forall|i: int| 0 <= i < s.len() ==> #[trigger] s[i] != '\n'
    &&& (s.len() == 0 || s.last() != '\r')
}

proof fn lemma_scalar_bytes(c: char)
    ensures
        forall|k: int|
            0 <= k < encode_scalar(c as u32).len() ==> (#[trigger] encode_scalar(c as u32)[k] == 10u8 ==> c == '\n')
                && (encode_scalar(c as u32)[k] == 13u8 ==> c == '\r'),
        encode_scalar(c as u32).len() > 0,
{
    let v = c as u32;
    assert(forall|x: u8| (0xC0u8 | x) >= 0x80u8 && (0x80u8 | x) >= 0x80u8 && (0xE0u8 | x) >= 0x80u8 && (0xF0u8 | x)
        >= 0x80u8) by (bit_vector);
    if has_width_1_encoding(v) {
        assert(((v & 0x7Fu32) as u8) as u32 == v) by (bit_vector)
            requires
                v <= 0x7f,
        ;
        if (v & 0x7Fu32) as u8 == 10u8 {
            assert(v == 10);
            assert(c == '\n');
        }
        if (v & 0x7Fu32) as u8 == 13u8 {
            assert(v == 13);
            assert(c == '\r');
        }
    }
}

/// A text none of whose characters is the ASCII character `b` encodes to bytes free of `b`.
pub(crate) proof fn lemma_text_free_of(s: Seq<char>, b: u8)
    requires
        b < 128,
        forall|i: int| 0 <= i < s.len() ==> (#[trigger] s[i]) as u32 != b as u32,
    ensures
        free_of(encode_utf8(s), b),
    decreases s.len(),
{
    if s.len() > 0 {
        let x = s.drop_last();
        let c = s.last();
        assert forall|i: int| 0 <= i < x.len() implies (#[trigger] x[i]) as u32 != b as u32 by {
            assert(x[i] == s[i]);
        }
        lemma_text_free_of(x, b);
        lemma_encode_utf8_push(x, c);
        assert(s =~= x.push(c));
        assert(c as u32 != b as u32) by {
            assert(s[s.len() - 1] == c);
        }
        let v = c as u32;
        let ec = encode_scalar(v);
        assert(forall|y: u8| (0xC0u8 | y) >= 0x80u8 && (0x80u8 | y) >= 0x80u8 && (0xE0u8 | y) >= 0x80u8 && (0xF0u8
            | y) >= 0x80u8) by (bit_vector);
        if has_width_1_encoding(v) {
            assert(((v & 0x7Fu32) as u8) as u32 == v) by (bit_vector)
                requires
                    v <= 0x7f,
            ;
        }
        assert forall|k: int| 0 <= k < ec.len() implies #[trigger] ec[k] != b by {
            if has_width_1_encoding(v) && ec[k] == b {
                assert(v == b as u32);
            }
        }
        let ex = encode_utf8(x);
        assert forall|k: int| 0 <= k < encode_utf8(s).len() implies #[trigger] encode_utf8(s)[k] != b by {
            if k < ex.len() {
                assert(encode_utf8(s)[k] == ex[k]);
            } else {
                assert(encode_utf8(s)[k] == ec[k - ex.len()]);
            }
        }
    }
}

pub(crate) proof fn lemma_utf8_text_bytes(s: Seq<char>)
    ensures
        (forall|i: int| 0 <= i < s.len() ==> #[trigger] s[i] != '\n') ==> free_of(encode_utf8(s), 10),
        s.len() > 0 && s.last() != '\r' ==> encode_utf8(s).len() > 0 && encode_utf8(s).last() != 13,
    decreases s.len(),
{
    if s.len() > 0 {
        let x = s.drop_last();
        let c = s.last();
        lemma_utf8_text_bytes(x);
        lemma_encode_utf8_push(x, c);
        assert(s =~= x.push(c));
        lemma_scalar_bytes(c);
        let ex = encode_utf8(x);
        let ec = encode_scalar(c as u32);
        if forall|i: int| 0 <= i < s.len() ==> #[trigger] s[i] != '\n' {
            assert forall|i: int| 0 <= i < x.len() implies #[trigger] x[i] != '\n' by {
                assert(x[i] == s[i]);
            }
            assert(s[s.len() - 1] != '\n');
            assert forall|k: int| 0 <= k < encode_utf8(s).len() implies #[trigger] encode_utf8(s)[k] != 10 by {
                if k < ex.len() {
                    assert(encode_utf8(s)[k] == ex[k]);
                } else {
                    assert(encode_utf8(s)[k] == ec[k - ex.len()]);
                }
            }
        }
        if c != '\r' {
            assert(encode_utf8(s).last() == ec[ec.len() - 1]);
        }
    }
}

proof fn lemma_record_line(r: JobRecordView)
    requires
        storable_status(r.status),
    ensures
        free_of(record_line(r), 10),
        record_line(r).len() > 0,
        record_line(r).last() != 13,
        valid_utf8(record_line(r)),
        parse_record(record_line(r)) == Some(r),
{
    let d = decimal(r.job_id as nat);
    let e = encode_utf8(r.status);
    let line = record_line(r);
    lemma_decimal_free(r.job_id as nat);
    lemma_utf8_text_bytes(r.status);
    assert forall|k: int| 0 <= k < line.len() implies #[trigger] line[k] != 10 by {
        if k < d.len() {
            assert(line[k] == d[k]);
        } else if k == d.len() {
        } else {
            assert(line[k] == e[k - d.len() - 1]);
        }
    }
    if r.status.len() > 0 {
        assert(line.last() == e.last());
    } else {
        assert(e.len() == 0) by {
            assert(r.status =~= Seq::<char>::empty());
        }
        assert(line.last() == 9);
    }
    let head = d + seq![9u8];
    assert(crate::text::all_ascii(head)) by {
        assert forall|k: int| 0 <= k < head.len() implies #[trigger] head[k] < 128 by {
            if k < d.len() {
                assert(head[k] == d[k]);
            }
        }
    }
    lemma_ascii_valid(head);
    valid_utf8_concat(head, e);
    assert(line =~= head + e);
    assert forall|j: int| 0 <= j < d.len() implies #[trigger] line[j] != 9 by {
        assert(line[j] == d[j]);
    }
    lemma_split_first_at(line, 9, d.len() as int);
    assert(line.take(d.len() as int) =~= d);
    assert(line.skip(d.len() + 1int) =~= e);
    lemma_parse_decimal(r.job_id as nat, u64::MAX as nat);
}

proof fn lemma_store_lines(jobs: Seq<JobRecordView>)
    requires
        forall|i: int| 0 <= i < jobs.len() ==> storable_status(#[trigger] jobs[i].status),
    ensures
        split_on(render_store(jobs), 10) == jobs.map_values(|r: JobRecordView| record_line(r)).push(Seq::empty()),
    decreases jobs.len(),
{
    let lines = jobs.map_values(|r: JobRecordView| record_line(r));
    if jobs.len() == 0 {
        assert(render_store(jobs) =~= Seq::<u8>::empty());
        assert(lines =~= Seq::<Seq<u8>>::empty());
    } else {
        let prev = jobs.drop_last();
        assert forall|i: int| 0 <= i < prev.len() implies storable_status(#[trigger] prev[i].status) by {
            assert(prev[i] == jobs[i]);
        }
        lemma_store_lines(prev);
        let r = jobs.last();
        assert(storable_status(r.status)) by {
            assert(jobs[jobs.len() - 1] == r);
        }
        lemma_record_line(r);
        let j = render_store(prev);
        lemma_split_plain(j, record_line(r), 10);
        lemma_split_sep(j + record_line(r), 10);
        assert(render_store(jobs) =~= (j + record_line(r)).push(10u8));
        assert(prev.map_values(|r: JobRecordView| record_line(r)).push(record_line(r)) =~= lines);
        assert(split_on(j, 10).last() + record_line(r) =~= record_line(r));
        assert(split_on(j + record_line(r), 10) =~= lines);
    }
}

proof fn lemma_parse_prefix(jobs: Seq<JobRecordView>, n: int)
    requires
        jobs_unique(jobs),
        forall|i: int| 0 <= i < jobs.len() ==> storable_status(#[trigger] jobs[i].status),
        0 <= n <= jobs.len(),
    ensures
        parse_upto(jobs.map_values(|r: JobRecordView| record_line(r)), n) == Ok::<Seq<JobRecordView>, StoreError>(
            jobs.take(n),
        ),
    decreases n,
{
    if n > 0 {
        lemma_parse_prefix(jobs, n - 1);
        let r = jobs[n - 1];
        lemma_record_line(r);
        assert(!has_job(jobs.take(n - 1), r.job_id)) by {
            if has_job(jobs.take(n - 1), r.job_id) {
                let i = choose|i: int| 0 <= i < n - 1 && #[trigger] jobs.take(n - 1)[i].job_id == r.job_id;
                assert(jobs[i].job_id == jobs[n - 1].job_id);
            }
        }
        assert(jobs.take(n) =~= jobs.take(n - 1).push(r));
    } else {
        assert(jobs.take(0) =~= Seq::<JobRecordView>::empty());
    }
}

/// Reading back a rendered store gives the same records, when no status holds a
/// newline or ends with a carriage return.
pub proof fn lemma_store_round_trip(jobs: Seq<JobRecordView>)
    requires
        jobs_unique(jobs),
        forall|i: int| 0 <= i < jobs.len() ==> storable_status(#[trigger] jobs[i].status),
    ensures
        parse_store(render_store(jobs)) == Ok::<Seq<JobRecordView>, StoreError>(jobs),
{
    let content = render_store(jobs);
    let lines = jobs.map_values(|r: JobRecordView| record_line(r));
    lemma_store_lines(jobs);
    let pieces = split_on(content, 10);
    assert(lines_of(content) =~= lines) by {
        assert forall|i: int| 0 <= i < lines.len() implies #[trigger] strip_cr(pieces[i]) == lines[i] by {
            lemma_record_line(jobs[i]);
        }
    }
    lemma_parse_prefix(jobs, jobs.len() as int);
    assert(jobs.take(jobs.len() as int) =~= jobs);
}

} // verus!

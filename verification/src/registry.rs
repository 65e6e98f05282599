//! Worker addresses, worker health records and the registry that keeps them
//! ordered by address.
//!
//! Times are milliseconds on one clock; `clock_millis` reads the system clock.
use vstd::prelude::*;
use vstd::utf8::*;

verus! {

broadcast use {vstd::utf8::encode_utf8_decode_utf8, vstd::utf8::encode_utf8_valid_utf8};

// ---------------------------------------------------------------------------
// Clock
// ---------------------------------------------------------------------------

#[verifier::external_type_specification]
#[verifier::external_body]
pub struct ExSystemTime(std::time::SystemTime);

/// Wraps `std::time::SystemTime::now`; nothing is promised of the reading.
#[verifier::external_body]
fn system_now() -> std::time::SystemTime {
    std::time::SystemTime::now()
}

/// Wraps `SystemTime::duration_since(UNIX_EPOCH)`; `None` for a clock set before the epoch.
#[verifier::external_body]
fn since_unix_epoch(t: std::time::SystemTime) -> Option<std::time::Duration> {
    t.duration_since(std::time::UNIX_EPOCH).ok()
}

/// Wraps `Duration::as_millis`; nothing is stated of the value read from the clock.
#[verifier::external_body]
fn duration_millis(d: std::time::Duration) -> u128 {
    d.as_millis()
}

/// Milliseconds since the Unix epoch, saturated to `u64`; 0 when the clock is before the epoch.
pub fn clock_millis() -> u64 {
    match since_unix_epoch(system_now()) {
        Some(d) => {
            let ms = duration_millis(d);
            if ms > u64::MAX as u128 {
                u64::MAX
            } else {
                ms as u64
            }
        },
        None => 0,
    }
}

// ---------------------------------------------------------------------------
// Address order
// ---------------------------------------------------------------------------

/// Lexicographic order of byte strings (the order of `String` and `str`).
pub open spec fn bytes_less(a: Seq<u8>, b: Seq<u8>) -> bool
    decreases a.len(),
{
    if a.len() == 0 {
        b.len() > 0
    } else if b.len() == 0 {
        false
    } else if a[0] != b[0] {
        a[0] < b[0]
    } else {
        bytes_less(a.drop_first(), b.drop_first())
    }
}

/// Order of addresses: that of their UTF-8 bytes.
pub open spec fn address_less(a: Seq<char>, b: Seq<char>) -> bool {
    bytes_less(encode_utf8(a), encode_utf8(b))
}

proof fn lemma_bytes_less_irreflexive(a: Seq<u8>)
    ensures
        !bytes_less(a, a),
    decreases a.len(),
{
    if a.len() > 0 {
        lemma_bytes_less_irreflexive(a.drop_first());
    }
}

proof fn lemma_bytes_less_transitive(a: Seq<u8>, b: Seq<u8>, c: Seq<u8>)
    requires
        bytes_less(a, b),
        bytes_less(b, c),
    ensures
        bytes_less(a, c),
    decreases a.len(),
{
    if a.len() > 0 && b.len() > 0 && c.len() > 0 && a[0] == b[0] && b[0] == c[0] {
        lemma_bytes_less_transitive(a.drop_first(), b.drop_first(), c.drop_first());
    }
}

proof fn lemma_bytes_less_total(a: Seq<u8>, b: Seq<u8>)
    requires
        a != b,
    ensures
        bytes_less(a, b) || bytes_less(b, a),
    decreases a.len(),
{
    if a.len() > 0 && b.len() > 0 && a[0] == b[0] {
        if a.drop_first() == b.drop_first() {
            assert(a =~= seq![a[0]] + a.drop_first());
            assert(b =~= seq![b[0]] + b.drop_first());
        }
        lemma_bytes_less_total(a.drop_first(), b.drop_first());
    } else if a.len() == 0 && b.len() == 0 {
        assert(a =~= b);
    }
}

proof fn lemma_bytes_less_asymmetric(a: Seq<u8>, b: Seq<u8>)
    requires
        bytes_less(a, b),
    ensures
        !bytes_less(b, a),
{
    if bytes_less(b, a) {
        lemma_bytes_less_transitive(a, b, a);
        lemma_bytes_less_irreflexive(a);
    }
}

proof fn lemma_bytes_less_skip(a: Seq<u8>, b: Seq<u8>, i: int)
    requires
        0 <= i <= a.len(),
        i <= b.len(),
        forall|j: int| 0 <= j < i ==> a[j] == b[j],
    ensures
        bytes_less(a, b) == bytes_less(a.skip(i), b.skip(i)),
    decreases i,
{
    if i > 0 {
        lemma_bytes_less_skip(a.drop_first(), b.drop_first(), i - 1);
        assert(a.drop_first().skip(i - 1) =~= a.skip(i));
        assert(b.drop_first().skip(i - 1) =~= b.skip(i));
    } else {
        assert(a.skip(0) =~= a);
        assert(b.skip(0) =~= b);
    }
}

/// Whether `a` comes before `b` in byte order.
pub fn bytes_lt(a: &[u8], b: &[u8]) -> (r: bool)
    ensures
        r == bytes_less(a@, b@),
{
    let mut i: usize = 0;
    while i < a.len() && i < b.len() && a[i] == b[i]
        invariant
            i <= a.len(),
            i <= b.len(),
            forall|j: int| 0 <= j < i ==> a@[j] == b@[j],
        decreases a.len() - i,
    {
        i += 1;
    }
    proof {
        lemma_bytes_less_skip(a@, b@, i as int);
    }
    if i == a.len() {
        i < b.len()
    } else if i == b.len() {
        false
    } else {
        a[i] < b[i]
    }
}

/// Whether two texts are equal.
pub fn text_eq(a: &str, b: &str) -> (r: bool)
    ensures
        r == (a@ == b@),
{
    let r = crate::wire::bytes_equal(a.as_bytes(), b.as_bytes());
    proof {
        if encode_utf8(a@) == encode_utf8(b@) {
            assert(decode_utf8(encode_utf8(a@)) == decode_utf8(encode_utf8(b@)));
        }
    }
    r
}

// ---------------------------------------------------------------------------
// Worker clients
// ---------------------------------------------------------------------------

/// Where a worker listens, and how long to wait when connecting to it.
#[derive(Debug)]
pub struct WorkerClient {
    address: String,
    connect_timeout_ms: u64,
}

pub struct WorkerClientView {
    pub address: Seq<char>,
    pub connect_timeout_ms: u64,
}

impl View for WorkerClient {
    type V = WorkerClientView;

    closed spec fn view(&self) -> WorkerClientView {
        WorkerClientView { address: self.address@, connect_timeout_ms: self.connect_timeout_ms }
    }
}

/// Default connect timeout of a worker client.
pub const DEFAULT_CONNECT_TIMEOUT_MS: u64 = 5000;

impl Clone for WorkerClient {
    fn clone(&self) -> (c: Self)
        ensures
            c@ == self@,
    {
        WorkerClient { address: self.address.clone(), connect_timeout_ms: self.connect_timeout_ms }
    }
}

impl WorkerClient {
    /// A client for `address` with the default connect timeout.
    pub fn new(address: String) -> (c: Self)
        ensures
            c@ == (WorkerClientView { address: address@, connect_timeout_ms: DEFAULT_CONNECT_TIMEOUT_MS }),
    {
        WorkerClient { address, connect_timeout_ms: DEFAULT_CONNECT_TIMEOUT_MS }
    }

    /// The same client with another connect timeout.
    pub fn with_connect_timeout(self, timeout_ms: u64) -> (c: Self)
        ensures
            c@ == (WorkerClientView { connect_timeout_ms: timeout_ms, ..self@ }),
    {
        WorkerClient { connect_timeout_ms: timeout_ms, ..self }
    }

    /// The worker's address.
    pub fn address(&self) -> (a: &str)
        ensures
            a@ == self@.address,
    {
        self.address.as_str()
    }

    /// The connect timeout.
    pub fn connect_timeout_ms(&self) -> (t: u64)
        ensures
            t == self@.connect_timeout_ms,
    {
        self.connect_timeout_ms
    }
}

// ---------------------------------------------------------------------------
// Worker records
// ---------------------------------------------------------------------------

/// Health of a worker.
#[derive(Debug, Clone, Copy, PartialEq, Eq, Structural)]
pub enum WorkerHealth {
    Healthy,
    Unhealthy,
}

/// What the registry knows of one worker.
#[derive(Debug)]
pub struct WorkerRecord {
    pub address: String,
    pub worker_id: Option<String>,
    pub last_seen: Option<u64>,
    pub health: WorkerHealth,
}

pub struct WorkerRecordView {
    pub address: Seq<char>,
    pub worker_id: Option<Seq<char>>,
    pub last_seen: Option<u64>,
    pub health: WorkerHealth,
}

pub open spec fn opt_text_view(s: Option<String>) -> Option<Seq<char>> {
    match s {
        Some(t) => Some(t@),
        None => None,
    }
}

impl View for WorkerRecord {
    type V = WorkerRecordView;

    open spec fn view(&self) -> WorkerRecordView {
        WorkerRecordView {
            address: self.address@,
            worker_id: opt_text_view(self.worker_id),
            last_seen: self.last_seen,
            health: self.health,
        }
    }
}

/// A worker is healthy when marked so and seen within `timeout` of `now`.
pub open spec fn record_healthy(r: WorkerRecordView, now: u64, timeout: u64) -> bool {
    &&& r.health == WorkerHealth::Healthy
    &&& r.last_seen matches Some(seen) && (if now >= seen {
        now - seen
    } else {
        0
    }) <= timeout
}

/// The record of a worker not yet probed.
pub open spec fn fresh_record(address: Seq<char>) -> WorkerRecordView {
    WorkerRecordView { address, worker_id: None, last_seen: None, health: WorkerHealth::Unhealthy }
}

impl WorkerRecord {
    fn new(address: String) -> (r: Self)
        ensures
            r@ == fresh_record(address@),
    {
        WorkerRecord { address, worker_id: None, last_seen: None, health: WorkerHealth::Unhealthy }
    }

    /// Whether the worker is marked healthy and was seen at most `timeout` before `now`.
    pub fn is_healthy(&self, now: u64, timeout: u64) -> (r: bool)
        ensures
            r == record_healthy(self@, now, timeout),
    {
        match self.health {
            WorkerHealth::Healthy => match self.last_seen {
                Some(seen) => now.saturating_sub(seen) <= timeout,
                None => false,
            },
            WorkerHealth::Unhealthy => false,
        }
    }
}

// ---------------------------------------------------------------------------
// The registry
// ---------------------------------------------------------------------------

/// Default time after which a worker's heartbeat is stale.
pub const DEFAULT_HEARTBEAT_TIMEOUT_MS: u64 = 15000;

/// Records sorted by strictly increasing address.
pub open spec fn sorted_by_address(records: Seq<WorkerRecordView>) -> bool {
    forall|i: int, j: int|
        0 <= i < j < records.len() ==> address_less(#[trigger] records[i].address, #[trigger] records[j].address)
}

/// The addresses of the records.
pub open spec fn addresses_of(records: Seq<WorkerRecordView>) -> Set<Seq<char>> {
    Set::new(|a: Seq<char>| exists|i: int| 0 <= i < records.len() && #[trigger] records[i].address == a)
}

/// The clients of the healthy records among the first `n`, in address order.
pub open spec fn healthy_upto(records: Seq<WorkerRecordView>, now: u64, timeout: u64, n: int) -> Seq<Seq<char>>
    decreases n,
{
    if n <= 0 {
        Seq::empty()
    } else {
        let prev = healthy_upto(records, now, timeout, n - 1);
        if record_healthy(records[n - 1], now, timeout) {
            prev.push(records[n - 1].address)
        } else {
            prev
        }
    }
}

/// The addresses of the healthy workers, in address order.
pub open spec fn healthy_addresses(records: Seq<WorkerRecordView>, now: u64, timeout: u64) -> Seq<Seq<char>> {
    healthy_upto(records, now, timeout, records.len() as int)
}

/// A record marked unhealthy.
pub open spec fn marked_unhealthy(r: WorkerRecordView) -> WorkerRecordView {
    WorkerRecordView { health: WorkerHealth::Unhealthy, ..r }
}

/// A record after health refresh.
pub open spec fn refreshed(r: WorkerRecordView, now: u64, timeout: u64) -> WorkerRecordView {
    if record_healthy(r, now, timeout) {
        r
    } else {
        marked_unhealthy(r)
    }
}

/// A record after a probe answered with `worker_id` (`None`: the probe failed) at `now`.
pub open spec fn probed(r: WorkerRecordView, worker_id: Option<Seq<char>>, now: u64) -> WorkerRecordView {
    match worker_id {
        Some(id) => WorkerRecordView {
            worker_id: Some(id),
            last_seen: Some(now),
            health: WorkerHealth::Healthy,
            ..r
        },
        None => marked_unhealthy(r),
    }
}

/// `now` is no earlier than any heartbeat recorded in `records`.
pub open spec fn not_before_seen(records: Seq<WorkerRecordView>, now: u64) -> bool {
    forall|i: int| 0 <= i < records.len() ==> ((#[trigger] records[i]).last_seen matches Some(seen) ==> seen <= now)
}

/// Each address among the healthy ones of the first `n` records is that of a healthy record among them.
proof fn lemma_healthy_upto_member(records: Seq<WorkerRecordView>, now: u64, timeout: u64, n: int, a: Seq<char>)
    requires
        0 <= n <= records.len(),
        healthy_upto(records, now, timeout, n).contains(a),
    ensures
        exists|k: int| 0 <= k < n && #[trigger] records[k].address == a && record_healthy(records[k], now, timeout),
    decreases n,
{
    if n > 0 {
        let prev = healthy_upto(records, now, timeout, n - 1);
        if record_healthy(records[n - 1], now, timeout) && a == records[n - 1].address {
            assert(records[n - 1].address == a);
        } else {
            if record_healthy(records[n - 1], now, timeout) {
                let x = choose|x: int| 0 <= x < prev.push(records[n - 1].address).len() && #[trigger] prev.push(
                    records[n - 1].address,
                )[x] == a;
                assert(x < prev.len());
                assert(prev[x] == a);
            }
            lemma_healthy_upto_member(records, now, timeout, n - 1, a);
        }
    }
}

/// A worker whose last heartbeat is more than the heartbeat timeout before `now`, or
/// that was never seen, is not among the workers healthy at `now`.
pub proof fn lemma_stale_worker_excluded(records: Seq<WorkerRecordView>, now: u64, timeout: u64, i: int)
    requires
        sorted_by_address(records),
        0 <= i < records.len(),
        match records[i].last_seen {
            Some(seen) => seen + timeout < now,
            None => true,
        },
    ensures
        !healthy_addresses(records, now, timeout).contains(records[i].address),
{
    let a = records[i].address;
    if healthy_addresses(records, now, timeout).contains(a) {
        lemma_healthy_upto_member(records, now, timeout, records.len() as int, a);
        let k = choose|k: int|
            0 <= k < records.len() && #[trigger] records[k].address == a && record_healthy(records[k], now, timeout);
        lemma_bytes_less_irreflexive(encode_utf8(a));
        if k < i {
            assert(address_less(records[k].address, records[i].address));
        } else if k > i {
            assert(address_less(records[i].address, records[k].address));
        }
    }
}

/// Some record is for `address`.
pub open spec fn has_address(records: Seq<WorkerRecordView>, address: Seq<char>) -> bool {
    exists|i: int| 0 <= i < records.len() && #[trigger] records[i].address == address
}

/// Health of a set of workers, keyed and ordered by address.
#[derive(Debug)]
pub struct WorkerRegistry {
    workers: Vec<WorkerRecord>,
    heartbeat_timeout: u64,
}

pub struct WorkerRegistryView {
    pub records: Seq<WorkerRecordView>,
    pub heartbeat_timeout: u64,
}

impl View for WorkerRegistry {
    type V = WorkerRegistryView;

    closed spec fn view(&self) -> WorkerRegistryView {
        WorkerRegistryView {
            records: self.workers@.map_values(|r: WorkerRecord| r@),
            heartbeat_timeout: self.heartbeat_timeout,
        }
    }
}

/// `clients` are the clients of the workers of `reg` healthy at `now`, in address order.
pub open spec fn healthy_clients(reg: WorkerRegistryView, now: u64, clients: Seq<WorkerClient>) -> bool {
    &&& clients.len() == healthy_addresses(reg.records, now, reg.heartbeat_timeout).len()
    &&& forall|i: int|
        0 <= i < clients.len() ==> #[trigger] clients[i]@ == (WorkerClientView {
            address: healthy_addresses(reg.records, now, reg.heartbeat_timeout)[i],
            connect_timeout_ms: DEFAULT_CONNECT_TIMEOUT_MS,
        })
}

/// `after` is `before` with every worker not healthy at `now` marked unhealthy.
pub open spec fn refreshed_at(before: WorkerRegistryView, now: u64, after: WorkerRegistryView) -> bool {
    &&& after.heartbeat_timeout == before.heartbeat_timeout
    &&& after.records.len() == before.records.len()
    &&& forall|i: int|
        0 <= i < before.records.len() ==> #[trigger] after.records[i] == refreshed(
            before.records[i],
            now,
            before.heartbeat_timeout,
        )
}

impl WorkerRegistry {
    /// Records are in strictly increasing address order.
    pub open spec fn wf(&self) -> bool {
        sorted_by_address(self@.records)
    }

    /// A registry of unprobed workers at the given addresses; a repeated address is kept once.
    pub fn new(addresses: Vec<String>) -> (reg: Self)
        ensures
            reg.wf(),
            reg@.heartbeat_timeout == DEFAULT_HEARTBEAT_TIMEOUT_MS,
            forall|a: Seq<char>|
                has_address(reg@.records, a) <==> exists|k: int| 0 <= k < addresses@.len() && #[trigger] addresses@[k]@ == a,
            forall|i: int| 0 <= i < reg@.records.len() ==> #[trigger] reg@.records[i] == fresh_record(reg@.records[i].address),
    {
        let mut reg = WorkerRegistry { workers: Vec::new(), heartbeat_timeout: DEFAULT_HEARTBEAT_TIMEOUT_MS };
        assert(reg@.records =~= Seq::<WorkerRecordView>::empty());
        let mut addresses = addresses;
        let ghost input = addresses@;
        let mut k: usize = 0;
        while k < addresses.len()
            invariant
                k <= addresses.len(),
                addresses@ == input,
                reg.wf(),
                reg@.heartbeat_timeout == DEFAULT_HEARTBEAT_TIMEOUT_MS,
                forall|a: Seq<char>|
                    has_address(reg@.records, a) <==> exists|k2: int| 0 <= k2 < k && #[trigger] input[k2]@ == a,
                forall|i: int| 0 <= i < reg@.records.len() ==> #[trigger] reg@.records[i] == fresh_record(reg@.records[i].address),
            decreases addresses.len() - k,
        {
            let address = addresses[k].clone();
            let ghost before = reg@.records;
            reg.insert_fresh(address);
            proof {
                assert forall|a: Seq<char>|
                    has_address(reg@.records, a) <==> exists|k2: int| 0 <= k2 < k + 1 && #[trigger] input[k2]@ == a by {
                    if a == input[k as int]@ {
                        assert(has_address(reg@.records, a));
                    }
                    if has_address(before, a) {
                        let k2 = choose|k2: int| 0 <= k2 < k && #[trigger] input[k2]@ == a;
                    }
                }
            }
            k += 1;
        }
        reg
    }

    /// Inserts an unprobed record for `address` at its place in address order;
    /// an existing record for the address is replaced.
    fn insert_fresh(&mut self, address: String)
        requires
            old(self).wf(),
            forall|i: int| 0 <= i < old(self)@.records.len() ==> #[trigger] old(self)@.records[i] == fresh_record(old(self)@.records[i].address),
        ensures
            final(self).wf(),
            final(self)@.heartbeat_timeout == old(self)@.heartbeat_timeout,
            forall|a: Seq<char>| has_address(final(self)@.records, a) <==> (has_address(old(self)@.records, a) || a == address@),
            forall|i: int| 0 <= i < final(self)@.records.len() ==> #[trigger] final(self)@.records[i] == fresh_record(final(self)@.records[i].address),
    {
        let key = address.as_str().as_bytes();
        let ghost recs = self@.records;
        let mut i: usize = 0;
        while i < self.workers.len() && bytes_lt(self.workers[i].address.as_str().as_bytes(), key)
            invariant
                i <= self.workers.len(),
                self@.records == recs,
                self.wf(),
                key@ == encode_utf8(address@),
                forall|j: int| 0 <= j < i ==> address_less(#[trigger] recs[j].address, address@),
            decreases self.workers.len() - i,
        {
            i += 1;
        }
        let n = self.workers.len();
        if i < n && text_eq(self.workers[i].address.as_str(), address.as_str()) {
            // Already present with the same (fresh) record.
            return;
        }
        proof {
            if i < n {
                assert(encode_utf8(recs[i as int].address) != encode_utf8(address@)) by {
                    if encode_utf8(recs[i as int].address) == encode_utf8(address@) {
                        assert(decode_utf8(encode_utf8(recs[i as int].address)) == decode_utf8(encode_utf8(address@)));
                    }
                }
                lemma_bytes_less_total(encode_utf8(recs[i as int].address), encode_utf8(address@));
                assert(address_less(address@, recs[i as int].address));
                assert forall|j: int| i <= j < n implies address_less(address@, #[trigger] recs[j].address) by {
                    if j > i {
                        lemma_bytes_less_transitive(encode_utf8(address@), encode_utf8(recs[i as int].address), encode_utf8(recs[j].address));
                    }
                }
            }
        }
        let record = WorkerRecord::new(address);
        let ghost rv = record@;
        self.workers.insert(i, record);
        proof {
            assert(self@.records =~= recs.insert(i as int, rv));
            assert forall|x: int, y: int| 0 <= x < y < self@.records.len() implies address_less(
                #[trigger] self@.records[x].address, #[trigger] self@.records[y].address) by {
                if y < i {
                } else if x < i && y == i {
                } else if x < i && y > i {
                    assert(address_less(recs[x].address, rv.address));
                    assert(address_less(rv.address, recs[y - 1].address));
                    lemma_bytes_less_transitive(encode_utf8(recs[x].address), encode_utf8(rv.address), encode_utf8(recs[y - 1].address));
                } else if x == i {
                    assert(address_less(rv.address, recs[y - 1].address));
                } else {
                    assert(address_less(recs[x - 1].address, recs[y - 1].address));
                }
            }
            assert forall|a: Seq<char>| has_address(self@.records, a) <==> (has_address(recs, a) || a == rv.address) by {
                if has_address(recs, a) {
                    let j = choose|j: int| 0 <= j < recs.len() && #[trigger] recs[j].address == a;
                    if j < i {
                        assert(self@.records[j].address == a);
                    } else {
                        assert(self@.records[j + 1].address == a);
                    }
                }
                if a == rv.address {
                    assert(self@.records[i as int].address == a);
                }
                if has_address(self@.records, a) {
                    let j = choose|j: int| 0 <= j < self@.records.len() && #[trigger] self@.records[j].address == a;
                    if j < i {
                        assert(recs[j].address == a);
                    } else if j > i {
                        assert(recs[j - 1].address == a);
                    }
                }
            }
        }
    }

    /// The same registry with another heartbeat timeout, at least one millisecond.
    pub fn with_heartbeat_timeout(self, timeout_ms: u64) -> (reg: Self)
        ensures
            reg@.records == self@.records,
            reg@.heartbeat_timeout == if timeout_ms == 0 { 1 } else { timeout_ms },
            self.wf() ==> reg.wf(),
    {
        WorkerRegistry { workers: self.workers, heartbeat_timeout: if timeout_ms == 0 { 1 } else { timeout_ms } }
    }

    /// Number of registered workers.
    pub fn worker_count(&self) -> (n: usize)
        ensures
            n == self@.records.len(),
    {
        self.workers.len()
    }

    /// The heartbeat timeout.
    pub fn heartbeat_timeout(&self) -> (t: u64)
        ensures
            t == self@.heartbeat_timeout,
    {
        self.heartbeat_timeout
    }

    fn position(&self, address: &str) -> (r: Option<usize>)
        requires
            self.wf(),
        ensures
            match r {
                Some(i) => i < self@.records.len() && self@.records[i as int].address == address@,
                None => !has_address(self@.records, address@),
            },
    {
        let mut i: usize = 0;
        while i < self.workers.len()
            invariant
                i <= self.workers.len(),
                forall|j: int| 0 <= j < i ==> #[trigger] self@.records[j].address != address@,
            decreases self.workers.len() - i,
        {
            if text_eq(self.workers[i].address.as_str(), address) {
                return Some(i);
            }
            i += 1;
        }
        None
    }

    /// The record of the worker at `address`.
    pub fn record(&self, address: &str) -> (r: Option<&WorkerRecord>)
        requires
            self.wf(),
        ensures
            r is Some <==> has_address(self@.records, address@),
            r matches Some(rec) ==> exists|i: int|
                0 <= i < self@.records.len() && #[trigger] self@.records[i] == rec@ && rec@.address == address@,
    {
        match self.position(address) {
            Some(i) => Some(&self.workers[i]),
            None => None,
        }
    }

    /// The addresses of all workers, in address order.
    pub fn addresses(&self) -> (r: Vec<String>)
        ensures
            r@.len() == self@.records.len(),
            forall|i: int| 0 <= i < r@.len() ==> #[trigger] r@[i]@ == self@.records[i].address,
    {
        let mut out: Vec<String> = Vec::new();
        let mut i: usize = 0;
        while i < self.workers.len()
            invariant
                i <= self.workers.len(),
                out@.len() == i,
                forall|j: int| 0 <= j < i ==> #[trigger] out@[j]@ == self@.records[j].address,
            decreases self.workers.len() - i,
        {
            out.push(self.workers[i].address.clone());
            i += 1;
        }
        out
    }

    /// The workers a probe asks for a heartbeat: one client per worker, in address order.
    pub fn probe_targets(&self) -> (r: Vec<WorkerClient>)
        ensures
            r@.len() == self@.records.len(),
            forall|i: int|
                0 <= i < r@.len() ==> #[trigger] r@[i]@ == (WorkerClientView {
                    address: self@.records[i].address,
                    connect_timeout_ms: DEFAULT_CONNECT_TIMEOUT_MS,
                }),
    {
        let mut out: Vec<WorkerClient> = Vec::new();
        let mut i: usize = 0;
        while i < self.workers.len()
            invariant
                i <= self.workers.len(),
                out@.len() == i,
                forall|j: int|
                    0 <= j < i ==> #[trigger] out@[j]@ == (WorkerClientView {
                        address: self@.records[j].address,
                        connect_timeout_ms: DEFAULT_CONNECT_TIMEOUT_MS,
                    }),
            decreases self.workers.len() - i,
        {
            out.push(WorkerClient::new(self.workers[i].address.clone()));
            i += 1;
        }
        out
    }

    /// Clients for the workers healthy at `now`, in address order.
    pub fn healthy_workers_at(&self, now: u64) -> (r: Vec<WorkerClient>)
        ensures
            r@.len() == healthy_addresses(self@.records, now, self@.heartbeat_timeout).len(),
            forall|i: int|
                0 <= i < r@.len() ==> #[trigger] r@[i]@ == (WorkerClientView {
                    address: healthy_addresses(self@.records, now, self@.heartbeat_timeout)[i],
                    connect_timeout_ms: DEFAULT_CONNECT_TIMEOUT_MS,
                }),
    {
        let ghost t = self@.heartbeat_timeout;
        let mut out: Vec<WorkerClient> = Vec::new();
        let mut i: usize = 0;
        while i < self.workers.len()
            invariant
                i <= self.workers.len(),
                t == self@.heartbeat_timeout,
                out@.len() == healthy_upto(self@.records, now, t, i as int).len(),
                forall|j: int|
                    0 <= j < out@.len() ==> #[trigger] out@[j]@ == (WorkerClientView {
                        address: healthy_upto(self@.records, now, t, i as int)[j],
                        connect_timeout_ms: DEFAULT_CONNECT_TIMEOUT_MS,
                    }),
            decreases self.workers.len() - i,
        {
            let record = &self.workers[i];
            assert(record@ == self@.records[i as int]);
            if record.is_healthy(now, self.heartbeat_timeout) {
                out.push(WorkerClient::new(record.address.clone()));
            }
            i += 1;
        }
        out
    }

    /// The current time: the clock reading, raised to the latest recorded heartbeat
    /// where the clock reads earlier, so that time on the one clock never runs back.
    fn current_time(&self) -> (now: u64)
        ensures
            not_before_seen(self@.records, now),
    {
        let mut now = clock_millis();
        let mut i: usize = 0;
        while i < self.workers.len()
            invariant
                i <= self.workers.len(),
                forall|j: int| 0 <= j < i ==> ((#[trigger] self@.records[j]).last_seen matches Some(seen) ==> seen <= now),
            decreases self.workers.len() - i,
        {
            assert(self.workers@[i as int]@ == self@.records[i as int]);
            match self.workers[i].last_seen {
                Some(seen) => {
                    if seen > now {
                        now = seen;
                    }
                },
                None => {},
            }
            i += 1;
        }
        now
    }

    /// Clients for the workers healthy now (read from the clock), in address order:
    /// those healthy at the time read, which is no earlier than any recorded heartbeat.
    pub fn healthy_workers(&self) -> (r: Vec<WorkerClient>)
        ensures
            exists|now: u64| not_before_seen(self@.records, now) && #[trigger] healthy_clients(self@, now, r@),
    {
        let now = self.current_time();
        let r = self.healthy_workers_at(now);
        assert(healthy_clients(self@, now, r@));
        r
    }

    /// Records the answer of a probe at `now`: an answer with an identifier marks the
    /// worker healthy and seen; `None` (no answer) marks it unhealthy.
    pub fn record_probe(&mut self, address: &str, worker_id: Option<String>, now: u64)
        requires
            old(self).wf(),
        ensures
            final(self).wf(),
            final(self)@.heartbeat_timeout == old(self)@.heartbeat_timeout,
            final(self)@.records.len() == old(self)@.records.len(),
            forall|i: int|
                0 <= i < old(self)@.records.len() ==> #[trigger] final(self)@.records[i] == if old(self)@.records[i].address
                    == address@ {
                    probed(old(self)@.records[i], opt_text_view(worker_id), now)
                } else {
                    old(self)@.records[i]
                },
    {
        match self.position(address) {
            Some(i) => {
                let ghost recs = self@.records;
                let mut record = self.workers.remove(i);
                match worker_id {
                    Some(id) => {
                        record.worker_id = Some(id);
                        record.last_seen = Some(now);
                        record.health = WorkerHealth::Healthy;
                    },
                    None => {
                        record.health = WorkerHealth::Unhealthy;
                    },
                }
                self.workers.insert(i, record);
                proof {
                    assert(self@.records =~= recs.update(i as int, probed(recs[i as int], opt_text_view(worker_id), now)));
                    assert forall|x: int| 0 <= x < recs.len() implies #[trigger] self@.records[x] == if recs[x].address == address@ {
                        probed(recs[x], opt_text_view(worker_id), now)
                    } else {
                        recs[x]
                    } by {
                        if x != i && recs[x].address == address@ {
                            lemma_bytes_less_irreflexive(encode_utf8(address@));
                        }
                    }
                }
            },
            None => {},
        }
    }

    /// Marks the worker at `address` unhealthy.
    pub fn mark_unhealthy(&mut self, address: &str)
        requires
            old(self).wf(),
        ensures
            final(self).wf(),
            final(self)@.heartbeat_timeout == old(self)@.heartbeat_timeout,
            final(self)@.records.len() == old(self)@.records.len(),
            forall|i: int|
                0 <= i < old(self)@.records.len() ==> #[trigger] final(self)@.records[i] == if old(self)@.records[i].address
                    == address@ {
                    marked_unhealthy(old(self)@.records[i])
                } else {
                    old(self)@.records[i]
                },
    {
        self.record_probe(address, None, 0);
    }

    /// Marks unhealthy every worker not healthy at `now`.
    pub fn refresh_health_at(&mut self, now: u64)
        requires
            old(self).wf(),
        ensures
            final(self).wf(),
            final(self)@.heartbeat_timeout == old(self)@.heartbeat_timeout,
            final(self)@.records.len() == old(self)@.records.len(),
            forall|i: int|
                0 <= i < old(self)@.records.len() ==> #[trigger] final(self)@.records[i] == refreshed(
                    old(self)@.records[i],
                    now,
                    old(self)@.heartbeat_timeout,
                ),
    {
        let ghost recs = self@.records;
        let mut i: usize = 0;
        while i < self.workers.len()
            invariant
                i <= self.workers.len(),
                self@.records.len() == recs.len(),
                self@.heartbeat_timeout == old(self)@.heartbeat_timeout,
                recs == old(self)@.records,
                forall|j: int| 0 <= j < i ==> #[trigger] self@.records[j] == refreshed(recs[j], now, self@.heartbeat_timeout),
                forall|j: int| i <= j < recs.len() ==> #[trigger] self@.records[j] == recs[j],
            decreases self.workers.len() - i,
        {
            if !self.workers[i].is_healthy(now, self.heartbeat_timeout) {
                let ghost before = self@.records;
                let mut record = self.workers.remove(i);
                record.health = WorkerHealth::Unhealthy;
                self.workers.insert(i, record);
                assert(self@.records =~= before.update(i as int, marked_unhealthy(before[i as int])));
            }
            i += 1;
        }
        proof {
            assert forall|x: int, y: int| 0 <= x < y < self@.records.len() implies address_less(
                #[trigger] self@.records[x].address, #[trigger] self@.records[y].address) by {
                assert(self@.records[x].address == recs[x].address);
                assert(self@.records[y].address == recs[y].address);
            }
        }
    }

    /// Marks unhealthy every worker not healthy now (read from the clock, and no
    /// earlier than any recorded heartbeat).
    pub fn refresh_health(&mut self)
        requires
            old(self).wf(),
        ensures
            final(self).wf(),
            exists|now: u64| not_before_seen(old(self)@.records, now) && #[trigger] refreshed_at(
                old(self)@,
                now,
                final(self)@,
            ),
    {
        let now = self.current_time();
        let ghost before = self@;
        self.refresh_health_at(now);
        assert(refreshed_at(before, now, self@));
    }
}

} // verus!

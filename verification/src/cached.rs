//! Distributed execution that skips tasks whose results are cached.
//!
//! Before an execution, each pending task is looked up in the cache index by
//! its cache key; a task whose artifact is present is marked succeeded without
//! running. After the execution, every task that was pending, succeeded and
//! was not served from the cache has its command stored as an artifact and
//! indexed under its key. The completed tasks are reported in ascending order,
//! each once.
use crate::cache::{cache_key, cache_key_text, has_key, key_index, CacheEntryView, CacheStore, entry_inserted};
use crate::executor::{DistributedExecutor, DistributedExecutorView};
use crate::graph::{has_id, index_of, TaskGraph, TaskId, TaskState, TaskView};
use vstd::prelude::*;
use vstd::utf8::encode_utf8;

verus! {

/// What the cache index holds for one pending task: its key and, when the key
/// is indexed, the name of the artifact it points to.
#[derive(Debug, Clone, PartialEq, Eq)]
pub struct CacheLookup {
    pub task_id: TaskId,
    pub key: String,
    pub artifact_hash: Option<String>,
}

pub struct CacheLookupView {
    pub task_id: TaskId,
    pub key: Seq<char>,
    pub artifact_hash: Option<Seq<char>>,
}

impl View for CacheLookup {
    type V = CacheLookupView;

    open spec fn view(&self) -> CacheLookupView {
        CacheLookupView {
            task_id: self.task_id,
            key: self.key@,
            artifact_hash: match self.artifact_hash {
                Some(h) => Some(h@),
                None => None,
            },
        }
    }
}

/// An artifact to store for a task that ran: its command, indexed under its key.
#[derive(Debug, Clone, PartialEq, Eq)]
pub struct CacheWrite {
    pub task_id: TaskId,
    pub key: String,
    pub content: Vec<u8>,
}

pub struct CacheWriteView {
    pub task_id: TaskId,
    pub key: Seq<char>,
    pub content: Seq<u8>,
}

impl View for CacheWrite {
    type V = CacheWriteView;

    open spec fn view(&self) -> CacheWriteView {
        CacheWriteView { task_id: self.task_id, key: self.key@, content: self.content@ }
    }
}

/// The artifact the index records for `key`.
pub open spec fn indexed_artifact(entries: Seq<CacheEntryView>, key: Seq<char>) -> Option<Seq<char>> {
    if has_key(entries, key) {
        Some(entries[key_index(entries, key)].artifact_hash)
    } else {
        None
    }
}

/// The lookups of the tasks `pending` (those present in `tasks`), in order.
pub open spec fn lookups_of(
    tasks: Seq<TaskView>,
    entries: Seq<CacheEntryView>,
    timeout_ms: Option<u64>,
    pending: Seq<TaskId>,
) -> Seq<CacheLookupView>
    decreases pending.len(),
{
    if pending.len() == 0 {
        Seq::empty()
    } else {
        let earlier = lookups_of(tasks, entries, timeout_ms, pending.drop_last());
        let id = pending.last();
        if has_id(tasks, id) {
            let key = cache_key_text(tasks[index_of(tasks, id)].command, timeout_ms);
            earlier.push(CacheLookupView { task_id: id, key, artifact_hash: indexed_artifact(entries, key) })
        } else {
            earlier
        }
    }
}

/// The identifiers of `ids` that name a task of `tasks`, in order.
pub open spec fn present_ids(tasks: Seq<TaskView>, ids: Seq<TaskId>) -> Seq<TaskId>
    decreases ids.len(),
{
    if ids.len() == 0 {
        Seq::empty()
    } else if has_id(tasks, ids.last()) {
        present_ids(tasks, ids.drop_last()).push(ids.last())
    } else {
        present_ids(tasks, ids.drop_last())
    }
}

/// The artifacts to store after an execution: for each task of `pending` that
/// succeeded and was not served from the cache, its command under its key.
pub open spec fn writes_of(
    tasks: Seq<TaskView>,
    timeout_ms: Option<u64>,
    pending: Seq<TaskId>,
    cached: Seq<TaskId>,
) -> Seq<CacheWriteView>
    decreases pending.len(),
{
    if pending.len() == 0 {
        Seq::empty()
    } else {
        let earlier = writes_of(tasks, timeout_ms, pending.drop_last(), cached);
        let id = pending.last();
        if has_id(tasks, id) && tasks[index_of(tasks, id)].state == TaskState::Succeeded && !cached.contains(id) {
            let command = tasks[index_of(tasks, id)].command;
            earlier.push(
                CacheWriteView { task_id: id, key: cache_key_text(command, timeout_ms), content: encode_utf8(command) },
            )
        } else {
            earlier
        }
    }
}

/// An artifact indexed for a task that ran is found by the next lookup of a task
/// with the same command under the same task timeout: the key of the write is
/// the cache key of the command and that timeout, the lookup uses the same key,
/// and once the artifact `h` is recorded under it the lookup is a hit on `h`.
pub proof fn lemma_written_artifact_is_found(
    ran: Seq<TaskView>,
    next: Seq<TaskView>,
    entries: Seq<CacheEntryView>,
    timeout_ms: Option<u64>,
    id: TaskId,
    cached: Seq<TaskId>,
    h: Seq<char>,
)
    requires
        has_id(ran, id),
        has_id(next, id),
        ran[index_of(ran, id)].state == TaskState::Succeeded,
        !cached.contains(id),
        next[index_of(next, id)].command == ran[index_of(ran, id)].command,
        crate::cache::keys_unique(entries),
    ensures
        ({
            let w = writes_of(ran, timeout_ms, seq![id], cached);
            &&& w.len() == 1
            &&& w[0].task_id == id
            &&& w[0].key == cache_key_text(ran[index_of(ran, id)].command, timeout_ms)
            &&& lookups_of(
                next,
                entry_inserted(entries, CacheEntryView { key: w[0].key, artifact_hash: h }),
                timeout_ms,
                seq![id],
            ) == seq![CacheLookupView { task_id: id, key: w[0].key, artifact_hash: Some(h) }]
        }),
{
    let s = seq![id];
    assert(s.drop_last() =~= Seq::<TaskId>::empty());
    assert(s.last() == id);
    let key = cache_key_text(ran[index_of(ran, id)].command, timeout_ms);
    let e = CacheEntryView { key, artifact_hash: h };
    let e2 = entry_inserted(entries, e);
    if has_key(entries, key) {
        let i = key_index(entries, key);
        assert(e2 == entries.update(i, e));
        assert forall|a: int, b: int| 0 <= a < e2.len() && 0 <= b < e2.len() && a != b implies #[trigger] e2[a].key
            != #[trigger] e2[b].key by {
            if a != i && b != i {
                assert(e2[a] == entries[a] && e2[b] == entries[b]);
            } else if a == i {
                assert(e2[b] == entries[b]);
            } else {
                assert(e2[a] == entries[a]);
            }
        }
        crate::cache::lemma_key_index(e2, key, i);
    } else {
        let i = entries.len() as int;
        assert(e2 == entries.push(e));
        assert forall|a: int, b: int| 0 <= a < e2.len() && 0 <= b < e2.len() && a != b implies #[trigger] e2[a].key
            != #[trigger] e2[b].key by {
            if a != i && b != i {
                assert(e2[a] == entries[a] && e2[b] == entries[b]);
            } else if a == i {
                assert(e2[b] == entries[b]);
            } else {
                assert(e2[a] == entries[a]);
            }
        }
        crate::cache::lemma_key_index(e2, key, i);
    }
    assert(indexed_artifact(e2, key) == Some(h));
    assert(lookups_of(next, e2, timeout_ms, s.drop_last()) == Seq::<CacheLookupView>::empty());
    assert(writes_of(ran, timeout_ms, s.drop_last(), cached) == Seq::<CacheWriteView>::empty());
    assert(cache_key_text(next[index_of(next, id)].command, timeout_ms) == key);
    assert(writes_of(ran, timeout_ms, s, cached) =~= seq![
        CacheWriteView { task_id: id, key, content: encode_utf8(ran[index_of(ran, id)].command) },
    ]);
    assert(lookups_of(next, e2, timeout_ms, s) =~= seq![
        CacheLookupView { task_id: id, key, artifact_hash: Some(h) },
    ]);
}

/// Each identifier is smaller than the next.
pub open spec fn ascending(ids: Seq<TaskId>) -> bool {
    forall|i: int, j: int| 0 <= i < j < ids.len() ==> ids[i] < ids[j]
}

pub open spec fn lookup_views(v: Seq<CacheLookup>) -> Seq<CacheLookupView> {
    v.map_values(|l: CacheLookup| l@)
}

pub open spec fn write_views(v: Seq<CacheWrite>) -> Seq<CacheWriteView> {
    v.map_values(|w: CacheWrite| w@)
}

/// Whether `ids` holds `id`.
fn holds_id(ids: &Vec<TaskId>, id: TaskId) -> (r: bool)
    ensures
        r == ids@.contains(id),
{
    let mut i: usize = 0;
    while i < ids.len()
        invariant
            i <= ids.len(),
            forall|j: int| 0 <= j < i ==> ids@[j] != id,
        decreases ids.len() - i,
    {
        if ids[i] == id {
            assert(ids@[i as int] == id);
            return true;
        }
        i += 1;
    }
    false
}

/// Adds `x` to an ascending list, keeping it ascending and free of repeats.
fn insert_ascending(v: &mut Vec<TaskId>, x: TaskId)
    requires
        ascending(old(v)@),
    ensures
        ascending(final(v)@),
        forall|y: TaskId| final(v)@.contains(y) <==> (old(v)@.contains(y) || y == x),
{
    let mut i: usize = 0;
    while i < v.len() && v[i] < x
        invariant
            i <= v.len(),
            forall|j: int| 0 <= j < i ==> v@[j] < x,
        decreases v.len() - i,
    {
        i += 1;
    }
    if i < v.len() && v[i] == x {
        assert(v@[i as int] == x);
        return;
    }
    let ghost old_v = v@;
    v.insert(i, x);
    proof {
        let n = v@;
        assert(forall|k: int| 0 <= k < i ==> n[k] == old_v[k]);
        assert(n[i as int] == x);
        assert(forall|k: int| i < k < n.len() ==> n[k] == old_v[k - 1]);
        assert forall|j: int, k: int| 0 <= j < k < n.len() implies n[j] < n[k] by {
            if k < i {
            } else if k == i {
            } else if j < i {
                assert(old_v[j] < x && x <= old_v[i as int] && old_v[i as int] <= old_v[k - 1]);
            } else if j == i {
                assert(x <= old_v[i as int] && old_v[i as int] <= old_v[k - 1]);
            } else {
            }
        }
        assert forall|y: TaskId| n.contains(y) <==> (old_v.contains(y) || y == x) by {
            if n.contains(y) {
                let k = choose|k: int| 0 <= k < n.len() && #[trigger] n[k] == y;
                if k < i {
                    assert(old_v[k] == y);
                } else if k > i {
                    assert(old_v[k - 1] == y);
                }
            }
            if old_v.contains(y) {
                let k = choose|k: int| 0 <= k < old_v.len() && #[trigger] old_v[k] == y;
                if k < i {
                    assert(n[k] == y);
                } else {
                    assert(n[k + 1] == y);
                }
            }
            if y == x {
                assert(n[i as int] == y);
            }
        }
    }
}

/// A distributed executor with a cache of task results.
#[derive(Debug)]
pub struct CachedDistributedExecutor {
    executor: DistributedExecutor,
    cache: CacheStore,
    root: String,
    task_timeout: Option<u64>,
}

impl CachedDistributedExecutor {
    /// The executor that does the work.
    pub closed spec fn inner(&self) -> DistributedExecutor {
        self.executor
    }

    /// The entries of the cache index.
    pub closed spec fn index(&self) -> Seq<CacheEntryView> {
        self.cache@
    }

    /// The directory holding the artifacts and the cache index.
    pub closed spec fn root_path(&self) -> Seq<char> {
        self.root@
    }

    /// The task timeout that cache keys are computed with.
    pub closed spec fn key_timeout(&self) -> Option<u64> {
        self.task_timeout
    }

    /// The executor and its index are well formed, and both use the same task timeout.
    pub open spec fn wf(&self) -> bool {
        &&& self.inner().wf()
        &&& crate::cache::keys_unique(self.index())
        &&& self.inner()@.task_timeout == self.key_timeout()
    }

    /// An executor for the workers at `addresses`, keeping its artifacts under
    /// `root` and indexing them in `cache`; no task timeout.
    pub fn new(addresses: Vec<String>, root: String, cache: CacheStore) -> (e: Self)
        requires
            cache.wf(),
        ensures
            e.wf(),
            crate::executor::starts_fresh(e.inner()@, addresses@),
            e.key_timeout() is None,
            e.index() == cache@,
            e.root_path() == root@,
    {
        CachedDistributedExecutor { executor: DistributedExecutor::new(addresses), cache, root, task_timeout: None }
    }

    /// The same executor with `max_attempts` attempts per task, at least one.
    pub fn with_max_attempts(self, max_attempts: usize) -> (e: Self)
        requires
            self.wf(),
        ensures
            e.wf(),
            e.inner()@ == (DistributedExecutorView {
                max_attempts: if max_attempts == 0 {
                    1
                } else {
                    max_attempts
                },
                ..self.inner()@
            }),
            e.index() == self.index(),
            e.root_path() == self.root_path(),
            e.key_timeout() == self.key_timeout(),
    {
        CachedDistributedExecutor { executor: self.executor.with_max_attempts(max_attempts), ..self }
    }

    /// The same executor with a task timeout, which also enters every cache key.
    pub fn with_task_timeout(self, timeout_ms: u64) -> (e: Self)
        requires
            self.wf(),
        ensures
            e.wf(),
            e.inner()@ == (DistributedExecutorView { task_timeout: Some(timeout_ms), ..self.inner()@ }),
            e.key_timeout() == Some(timeout_ms),
            e.index() == self.index(),
            e.root_path() == self.root_path(),
    {
        CachedDistributedExecutor {
            executor: self.executor.with_task_timeout(timeout_ms),
            task_timeout: Some(timeout_ms),
            ..self
        }
    }

    /// Number of configured workers.
    pub fn worker_count(&self) -> (n: usize)
        ensures
            n == self.inner()@.workers.len(),
    {
        self.executor.worker_count()
    }

    /// Number of workers healthy now (read from the clock): those healthy at the time read,
    /// which is no earlier than any recorded heartbeat.
    pub fn healthy_worker_count(&self) -> (n: usize)
        ensures
            exists|now: u64|
                crate::registry::not_before_seen(self.inner()@.registry.records, now)
                    && n == #[trigger] crate::registry::healthy_addresses(
                    self.inner()@.registry.records,
                    now,
                    self.inner()@.registry.heartbeat_timeout,
                ).len(),
    {
        self.executor.healthy_worker_count()
    }

    /// The directory holding the artifacts and the cache index.
    pub fn root(&self) -> (r: &str)
        ensures
            r@ == self.root_path(),
    {
        self.root.as_str()
    }

    /// The cache index.
    pub fn cache(&self) -> (c: &CacheStore)
        ensures
            c@ == self.index(),
    {
        &self.cache
    }

    /// The executor that does the work; the cache stays as it is.
    pub fn executor_mut(&mut self) -> (r: &mut DistributedExecutor)
        ensures
            *r == old(self).inner(),
            final(self).inner() == *final(r),
            final(self).index() == old(self).index(),
            final(self).root_path() == old(self).root_path(),
            final(self).key_timeout() == old(self).key_timeout(),
    {
        &mut self.executor
    }

    /// What the index holds for each task of `pending`.
    pub fn lookups(&self, graph: &TaskGraph, pending: &Vec<TaskId>) -> (r: Vec<CacheLookup>)
        requires
            self.wf(),
            graph.wf(),
        ensures
            lookup_views(r@) == lookups_of(graph@, self.index(), self.key_timeout(), pending@),
    {
        let mut out: Vec<CacheLookup> = Vec::new();
        let mut i: usize = 0;
        while i < pending.len()
            invariant
                self.wf(),
                graph.wf(),
                i <= pending.len(),
                lookup_views(out@) == lookups_of(graph@, self.index(), self.key_timeout(), pending@.take(i as int)),
            decreases pending.len() - i,
        {
            let task_id = pending[i];
            let ghost prefix = pending@.take(i + 1);
            proof {
                assert(prefix.drop_last() =~= pending@.take(i as int));
                assert(prefix.last() == task_id);
            }
            let ghost before = out@;
            match graph.task(task_id) {
                Some(task) => {
                    let key = cache_key(task.command.as_str(), self.task_timeout);
                    let artifact_hash = match self.cache.lookup(key.as_str()) {
                        Some(entry) => Some(entry.artifact_hash.clone()),
                        None => None,
                    };
                    let lookup = CacheLookup { task_id, key, artifact_hash };
                    out.push(lookup);
                    assert(out@ =~= before.push(lookup));
                },
                None => {},
            }
            assert(lookup_views(out@) =~= lookups_of(graph@, self.index(), self.key_timeout(), prefix));
            i += 1;
        }
        assert(pending@.take(pending@.len() as int) =~= pending@);
        out
    }

    /// Marks the tasks `hits`, whose results are cached, as succeeded; returns
    /// those of them that are in the graph.
    pub fn mark_cached(graph: &mut TaskGraph, hits: &Vec<TaskId>) -> (cached: Vec<TaskId>)
        requires
            old(graph).wf(),
        ensures
            final(graph).wf(),
            final(graph)@.len() == old(graph)@.len(),
            forall|i: int|
                0 <= i < old(graph)@.len() ==> #[trigger] final(graph)@[i] == if hits@.contains(old(graph)@[i].id) {
                    TaskView { state: TaskState::Succeeded, ..old(graph)@[i] }
                } else {
                    old(graph)@[i]
                },
            cached@ == present_ids(old(graph)@, hits@),
    {
        let ghost g0 = graph@;
        let mut cached: Vec<TaskId> = Vec::new();
        let mut i: usize = 0;
        while i < hits.len()
            invariant
                graph.wf(),
                i <= hits.len(),
                graph@.len() == g0.len(),
                forall|k: int|
                    0 <= k < g0.len() ==> #[trigger] graph@[k] == if hits@.take(i as int).contains(g0[k].id) {
                        TaskView { state: TaskState::Succeeded, ..g0[k] }
                    } else {
                        g0[k]
                    },
                cached@ == present_ids(g0, hits@.take(i as int)),
            decreases hits.len() - i,
        {
            let task_id = hits[i];
            let ghost prefix = hits@.take(i + 1);
            let ghost g_before = graph@;
            proof {
                assert(prefix.drop_last() =~= hits@.take(i as int));
                assert(prefix.last() == task_id);
                assert forall|k: int| 0 <= k < g0.len() implies #[trigger] g_before[k].id == g0[k].id by {}
                assert(has_id(g_before, task_id) == has_id(g0, task_id)) by {
                    if has_id(g0, task_id) {
                        let k = choose|k: int| 0 <= k < g0.len() && #[trigger] g0[k].id == task_id;
                        assert(g_before[k].id == task_id);
                    }
                    if has_id(g_before, task_id) {
                        let k = choose|k: int| 0 <= k < g_before.len() && #[trigger] g_before[k].id == task_id;
                        assert(g0[k].id == task_id);
                    }
                }
            }
            let found = graph.set_state(task_id, TaskState::Succeeded);
            if found {
                cached.push(task_id);
            }
            proof {
                assert forall|k: int| 0 <= k < g0.len() implies #[trigger] graph@[k] == if prefix.contains(g0[k].id) {
                    TaskView { state: TaskState::Succeeded, ..g0[k] }
                } else {
                    g0[k]
                } by {
                    if g0[k].id == task_id {
                        assert(prefix[i as int] == task_id);
                        crate::graph::lemma_index_of_unique(g_before, task_id, k);
                    } else {
                        if prefix.contains(g0[k].id) {
                            let x = choose|x: int| 0 <= x < prefix.len() && #[trigger] prefix[x] == g0[k].id;
                            assert(hits@.take(i as int)[x] == g0[k].id);
                        }
                        if hits@.take(i as int).contains(g0[k].id) {
                            let x = choose|x: int| 0 <= x < i && #[trigger] hits@.take(i as int)[x] == g0[k].id;
                            assert(prefix[x] == g0[k].id);
                        }
                        if has_id(g_before, task_id) {
                            let j = index_of(g_before, task_id);
                            assert(j != k);
                        }
                    }
                }
            }
            i += 1;
        }
        assert(hits@.take(hits@.len() as int) =~= hits@);
        cached
    }

    /// The artifacts to store for the tasks of `pending` that succeeded
    /// without being served from the cache (`cached`).
    pub fn cache_writes(&self, graph: &TaskGraph, pending: &Vec<TaskId>, cached: &Vec<TaskId>) -> (r: Vec<
        CacheWrite,
    >)
        requires
            graph.wf(),
        ensures
            write_views(r@) == writes_of(graph@, self.key_timeout(), pending@, cached@),
    {
        let mut out: Vec<CacheWrite> = Vec::new();
        let mut i: usize = 0;
        while i < pending.len()
            invariant
                graph.wf(),
                i <= pending.len(),
                write_views(out@) == writes_of(graph@, self.key_timeout(), pending@.take(i as int), cached@),
            decreases pending.len() - i,
        {
            let task_id = pending[i];
            let ghost prefix = pending@.take(i + 1);
            proof {
                assert(prefix.drop_last() =~= pending@.take(i as int));
                assert(prefix.last() == task_id);
            }
            let ghost before = out@;
            match graph.task(task_id) {
                Some(task) => {
                    if task.state == TaskState::Succeeded && !holds_id(cached, task_id) {
                        let key = cache_key(task.command.as_str(), self.task_timeout);
                        let mut content: Vec<u8> = Vec::new();
                        crate::wire::put_slice(&mut content, task.command.as_str().as_bytes());
                        let write = CacheWrite { task_id, key, content };
                        out.push(write);
                        assert(out@ =~= before.push(write));
                    }
                },
                None => {},
            }
            assert(write_views(out@) =~= writes_of(graph@, self.key_timeout(), prefix, cached@));
            i += 1;
        }
        assert(pending@.take(pending@.len() as int) =~= pending@);
        out
    }

    /// Indexes the artifact `artifact_hash` under `key`.
    pub fn record_artifact(&mut self, key: String, artifact_hash: String)
        requires
            old(self).wf(),
        ensures
            final(self).wf(),
            final(self).index() == entry_inserted(
                old(self).index(),
                CacheEntryView { key: key@, artifact_hash: artifact_hash@ },
            ),
            final(self).inner() == old(self).inner(),
            final(self).root_path() == old(self).root_path(),
            final(self).key_timeout() == old(self).key_timeout(),
    {
        self.cache.insert(key, artifact_hash);
    }

    /// The tasks completed by an execution: those served from the cache and
    /// those that ran, in ascending order, each once.
    pub fn merge_completed(cached: &Vec<TaskId>, completed: &Vec<TaskId>) -> (r: Vec<TaskId>)
        ensures
            ascending(r@),
            forall|id: TaskId| r@.contains(id) <==> (cached@.contains(id) || completed@.contains(id)),
    {
        let mut out: Vec<TaskId> = Vec::new();
        let mut i: usize = 0;
        while i < cached.len()
            invariant
                i <= cached.len(),
                ascending(out@),
                forall|id: TaskId| out@.contains(id) <==> cached@.take(i as int).contains(id),
            decreases cached.len() - i,
        {
            let ghost before = out@;
            insert_ascending(&mut out, cached[i]);
            proof {
                assert forall|id: TaskId| out@.contains(id) <==> cached@.take(i + 1).contains(id) by {
                    if cached@.take(i + 1).contains(id) {
                        let x = choose|x: int| 0 <= x < i + 1 && #[trigger] cached@.take(i + 1)[x] == id;
                        if x < i {
                            assert(cached@.take(i as int)[x] == id);
                        }
                    }
                    if cached@.take(i as int).contains(id) {
                        let x = choose|x: int| 0 <= x < i && #[trigger] cached@.take(i as int)[x] == id;
                        assert(cached@.take(i + 1)[x] == id);
                    }
                    if id == cached@[i as int] {
                        assert(cached@.take(i + 1)[i as int] == id);
                    }
                }
            }
            i += 1;
        }
        proof {
            assert(cached@.take(cached@.len() as int) =~= cached@);
            assert(completed@.take(0) =~= Seq::<TaskId>::empty());
        }
        let mut j: usize = 0;
        while j < completed.len()
            invariant
                j <= completed.len(),
                ascending(out@),
                forall|id: TaskId| out@.contains(id) <==> (cached@.contains(id) || completed@.take(j as int).contains(id)),
            decreases completed.len() - j,
        {
            insert_ascending(&mut out, completed[j]);
            proof {
                assert forall|id: TaskId| out@.contains(id) <==> (cached@.contains(id) || completed@.take(j + 1).contains(id)) by {
                    if completed@.take(j + 1).contains(id) {
                        let x = choose|x: int| 0 <= x < j + 1 && #[trigger] completed@.take(j + 1)[x] == id;
                        if x < j {
                            assert(completed@.take(j as int)[x] == id);
                        }
                    }
                    if completed@.take(j as int).contains(id) {
                        let x = choose|x: int| 0 <= x < j && #[trigger] completed@.take(j as int)[x] == id;
                        assert(completed@.take(j + 1)[x] == id);
                    }
                    if id == completed@[j as int] {
                        assert(completed@.take(j + 1)[j as int] == id);
                    }
                }
            }
            j += 1;
        }
        proof {
            assert(cached@.take(cached@.len() as int) =~= cached@);
            assert(completed@.take(completed@.len() as int) =~= completed@);
        }
        out
    }
}

} // verus!

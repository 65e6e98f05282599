//! Execution metrics and their Prometheus text form.
//!
//! A metered executor counts executions, their duration, and the tasks that an
//! execution moved into `Succeeded`, `Failed` or `Blocked`. Every counter
//! saturates at `u64::MAX`.
use crate::executor::{DistributedExecutor, DistributedExecutorView};
use crate::graph::{state_of, TaskGraph, TaskId, TaskState, TaskView};
use crate::registry::healthy_addresses;
use crate::text::{all_ascii, ascii_chars, ascii_string, decimal, lemma_decimal_digits, push_decimal};
use crate::wire::{ascii_bytes, ascii_word, put_slice};
use vstd::prelude::*;

verus! {

/// Counters of a metered executor.
#[derive(Debug, Clone, Copy, PartialEq, Eq, Structural)]
pub struct MetricsSnapshot {
    pub executions_total: u64,
    pub tasks_succeeded_total: u64,
    pub tasks_failed_total: u64,
    pub tasks_blocked_total: u64,
    pub execution_duration_ms_total: u64,
    pub execution_duration_ms_last: u64,
    pub workers_configured: usize,
    pub healthy_workers_last: usize,
}

/// All counters zero.
pub open spec fn zero_metrics() -> MetricsSnapshot {
    MetricsSnapshot {
        executions_total: 0,
        tasks_succeeded_total: 0,
        tasks_failed_total: 0,
        tasks_blocked_total: 0,
        execution_duration_ms_total: 0,
        execution_duration_ms_last: 0,
        workers_configured: 0,
        healthy_workers_last: 0,
    }
}

impl Default for MetricsSnapshot {
    fn default() -> (m: Self)
        ensures
            m == zero_metrics(),
    {
        MetricsSnapshot {
            executions_total: 0,
            tasks_succeeded_total: 0,
            tasks_failed_total: 0,
            tasks_blocked_total: 0,
            execution_duration_ms_total: 0,
            execution_duration_ms_last: 0,
            workers_configured: 0,
            healthy_workers_last: 0,
        }
    }
}

/// One exposition line: the metric's name, a space, its value, a newline.
pub open spec fn metric_line(name: Seq<char>, value: nat) -> Seq<u8> {
    ascii_bytes(name) + seq![32u8] + decimal(value) + seq![10u8]
}

/// The Prometheus text exposition of a snapshot, one line per counter.
pub open spec fn prometheus_bytes(m: MetricsSnapshot) -> Seq<u8> {
    metric_line("forge_executions_total"@, m.executions_total as nat) + metric_line(
        "forge_tasks_succeeded_total"@,
        m.tasks_succeeded_total as nat,
    ) + metric_line("forge_tasks_failed_total"@, m.tasks_failed_total as nat) + metric_line(
        "forge_tasks_blocked_total"@,
        m.tasks_blocked_total as nat,
    ) + metric_line("forge_execution_duration_ms_total"@, m.execution_duration_ms_total as nat) + metric_line(
        "forge_execution_duration_ms_last"@,
        m.execution_duration_ms_last as nat,
    ) + metric_line("forge_workers_configured"@, m.workers_configured as nat) + metric_line(
        "forge_workers_healthy"@,
        m.healthy_workers_last as nat,
    )
}

fn push_metric(out: &mut Vec<u8>, name: &str, value: u64)
    requires
        vstd::string::is_ascii(name),
        all_ascii(old(out)@),
    ensures
        final(out)@ == old(out)@ + metric_line(name@, value as nat),
        all_ascii(final(out)@),
{
    let ghost start = out@;
    put_slice(out, ascii_word(name));
    out.push(32);
    push_decimal(out, value);
    out.push(10);
    proof {
        lemma_decimal_digits(value as nat);
        let line = metric_line(name@, value as nat);
        assert(out@ =~= start + line);
        assert forall|i: int| 0 <= i < out@.len() implies #[trigger] out@[i] < 128 by {
            if i >= start.len() {
                let k = i - start.len();
                let nb = ascii_bytes(name@);
                if k < nb.len() {
                    assert(out@[i] == nb[k]);
                    assert(name@[k] <= '\u{7f}');
                } else if k > nb.len() && k < nb.len() + 1 + decimal(value as nat).len() {
                    assert(out@[i] == decimal(value as nat)[k - nb.len() - 1]);
                }
            }
        }
    }
}

impl MetricsSnapshot {
    /// The counters in the Prometheus text exposition format.
    pub fn render_prometheus(&self) -> (s: String)
        ensures
            s@ == ascii_chars(prometheus_bytes(*self)),
    {
        proof {
            reveal_strlit("forge_executions_total");
            reveal_strlit("forge_tasks_succeeded_total");
            reveal_strlit("forge_tasks_failed_total");
            reveal_strlit("forge_tasks_blocked_total");
            reveal_strlit("forge_execution_duration_ms_total");
            reveal_strlit("forge_execution_duration_ms_last");
            reveal_strlit("forge_workers_configured");
            reveal_strlit("forge_workers_healthy");
        }
        let mut out: Vec<u8> = Vec::new();
        push_metric(&mut out, "forge_executions_total", self.executions_total);
        push_metric(&mut out, "forge_tasks_succeeded_total", self.tasks_succeeded_total);
        push_metric(&mut out, "forge_tasks_failed_total", self.tasks_failed_total);
        push_metric(&mut out, "forge_tasks_blocked_total", self.tasks_blocked_total);
        push_metric(&mut out, "forge_execution_duration_ms_total", self.execution_duration_ms_total);
        push_metric(&mut out, "forge_execution_duration_ms_last", self.execution_duration_ms_last);
        push_metric(&mut out, "forge_workers_configured", self.workers_configured as u64);
        push_metric(&mut out, "forge_workers_healthy", self.healthy_workers_last as u64);
        assert(out@ =~= prometheus_bytes(*self));
        ascii_string(out.as_slice())
    }
}

// ---------------------------------------------------------------------------
// Counting state changes
// ---------------------------------------------------------------------------

/// Each task with its state, in graph order.
pub open spec fn state_pairs(tasks: Seq<TaskView>) -> Seq<(TaskId, TaskState)> {
    Seq::new(tasks.len(), |i: int| (tasks[i].id, tasks[i].state))
}

/// How many of the tasks of `before` were moved into state `s`.
pub open spec fn changes_into(before: Seq<(TaskId, TaskState)>, tasks: Seq<TaskView>, s: TaskState) -> nat
    decreases before.len(),
{
    if before.len() == 0 {
        0
    } else {
        changes_into(before.drop_last(), tasks, s) + if state_of(tasks, before.last().0) == Some(s)
            && before.last().1 != s {
            1nat
        } else {
            0nat
        }
    }
}

/// `v + k`, saturating at `u64::MAX`.
pub open spec fn saturated(v: u64, k: nat) -> u64 {
    if v + k > u64::MAX {
        u64::MAX
    } else {
        (v + k) as u64
    }
}

/// The counters after one execution that took `elapsed_ms`, moved the tasks of
/// `before` to their states in `tasks`, and left `healthy` workers healthy.
pub open spec fn recorded(
    m: MetricsSnapshot,
    before: Seq<(TaskId, TaskState)>,
    tasks: Seq<TaskView>,
    elapsed_ms: u64,
    healthy: usize,
) -> MetricsSnapshot {
    MetricsSnapshot {
        executions_total: saturated(m.executions_total, 1),
        execution_duration_ms_total: saturated(m.execution_duration_ms_total, elapsed_ms as nat),
        execution_duration_ms_last: elapsed_ms,
        healthy_workers_last: healthy,
        tasks_succeeded_total: saturated(
            m.tasks_succeeded_total,
            changes_into(before, tasks, TaskState::Succeeded),
        ),
        tasks_failed_total: saturated(m.tasks_failed_total, changes_into(before, tasks, TaskState::Failed)),
        tasks_blocked_total: saturated(m.tasks_blocked_total, changes_into(before, tasks, TaskState::Blocked)),
        workers_configured: m.workers_configured,
    }
}

/// Counting the changes into one state, one task more.
proof fn lemma_saturated_step(v: u64, k: nat, d: nat)
    ensures
        saturated(saturated(v, k), d) == saturated(v, k + d),
{
}

// ---------------------------------------------------------------------------
// The metered executor
// ---------------------------------------------------------------------------

/// A distributed executor that keeps metrics of its executions.
#[derive(Debug)]
pub struct MeteredDistributedExecutor {
    executor: DistributedExecutor,
    metrics: MetricsSnapshot,
}

impl MeteredDistributedExecutor {
    /// The executor that does the work.
    pub closed spec fn inner(&self) -> DistributedExecutor {
        self.executor
    }

    /// The counters.
    pub closed spec fn counters(&self) -> MetricsSnapshot {
        self.metrics
    }

    /// The executor is well formed.
    pub open spec fn wf(&self) -> bool {
        self.inner().wf()
    }

    /// A metered executor for the workers at `addresses`; counters start at zero.
    pub fn new(addresses: Vec<String>) -> (e: Self)
        ensures
            e.wf(),
            crate::executor::starts_fresh(e.inner()@, addresses@),
            e.counters() == (MetricsSnapshot { workers_configured: addresses@.len() as usize, ..zero_metrics() }),
    {
        let executor = DistributedExecutor::new(addresses);
        let workers_configured = executor.worker_count();
        MeteredDistributedExecutor {
            executor,
            metrics: MetricsSnapshot { workers_configured, ..MetricsSnapshot::default() },
        }
    }

    /// The same executor with `max_attempts` attempts per task, at least one.
    pub fn with_max_attempts(self, max_attempts: usize) -> (e: Self)
        requires
            self.wf(),
        ensures
            e.wf(),
            e.inner()@ == (DistributedExecutorView {
                max_attempts: if max_attempts == 0 {
                    1
                } else {
                    max_attempts
                },
                ..self.inner()@
            }),
            e.counters() == self.counters(),
    {
        MeteredDistributedExecutor {
            executor: self.executor.with_max_attempts(max_attempts),
            metrics: self.metrics,
        }
    }

    /// The same executor with a task timeout.
    pub fn with_task_timeout(self, timeout_ms: u64) -> (e: Self)
        requires
            self.wf(),
        ensures
            e.wf(),
            e.inner()@ == (DistributedExecutorView { task_timeout: Some(timeout_ms), ..self.inner()@ }),
            e.counters() == self.counters(),
    {
        MeteredDistributedExecutor { executor: self.executor.with_task_timeout(timeout_ms), metrics: self.metrics }
    }

    /// Number of configured workers.
    pub fn worker_count(&self) -> (n: usize)
        ensures
            n == self.inner()@.workers.len(),
    {
        self.executor.worker_count()
    }

    /// Number of workers healthy now (read from the clock): those healthy at the time read,
    /// which is no earlier than any recorded heartbeat.
    pub fn healthy_worker_count(&self) -> (n: usize)
        ensures
            exists|now: u64|
                crate::registry::not_before_seen(self.inner()@.registry.records, now)
                    && n == #[trigger] crate::registry::healthy_addresses(
                    self.inner()@.registry.records,
                    now,
                    self.inner()@.registry.heartbeat_timeout,
                ).len(),
    {
        self.executor.healthy_worker_count()
    }

    /// The counters.
    pub fn metrics(&self) -> (m: MetricsSnapshot)
        ensures
            m == self.counters(),
    {
        self.metrics
    }

    /// The executor that does the work; the counters stay as they are.
    pub fn executor_mut(&mut self) -> (r: &mut DistributedExecutor)
        ensures
            *r == old(self).inner(),
            final(self).inner() == *final(r),
            final(self).counters() == old(self).counters(),
    {
        &mut self.executor
    }

    /// Each task of `graph` with its state, to be handed to `record_execution`.
    pub fn task_states(graph: &TaskGraph) -> (r: Vec<(TaskId, TaskState)>)
        requires
            graph.wf(),
        ensures
            r@ == state_pairs(graph@),
    {
        let ids = graph.task_ids();
        let mut out: Vec<(TaskId, TaskState)> = Vec::new();
        let mut i: usize = 0;
        while i < ids.len()
            invariant
                graph.wf(),
                ids@ == crate::graph::all_ids(graph@),
                i <= ids.len(),
                out@ =~= state_pairs(graph@).take(i as int),
            decreases ids.len() - i,
        {
            let id = ids[i];
            proof {
                crate::graph::lemma_index_of_unique(graph@, graph@[i as int].id, i as int);
            }
            match graph.task(id) {
                Some(task) => out.push((id, task.state)),
                None => {},
            }
            i += 1;
        }
        assert(state_pairs(graph@).take(ids@.len() as int) =~= state_pairs(graph@));
        out
    }

    /// Records one execution that took `elapsed_ms`: `before` holds the states
    /// of the tasks when it started, `graph` the graph after it, and `now` the
    /// time at which worker health is read.
    pub fn record_execution(
        &mut self,
        before: &Vec<(TaskId, TaskState)>,
        graph: &TaskGraph,
        elapsed_ms: u64,
        now: u64,
    )
        requires
            old(self).wf(),
            graph.wf(),
        ensures
            final(self).wf(),
            final(self).inner() == old(self).inner(),
            final(self).counters() == recorded(
                old(self).counters(),
                before@,
                graph@,
                elapsed_ms,
                healthy_addresses(
                    old(self).inner()@.registry.records,
                    now,
                    old(self).inner()@.registry.heartbeat_timeout,
                ).len() as usize,
            ),
    {
        let ghost m0 = self.metrics;
        self.metrics.executions_total = self.metrics.executions_total.saturating_add(1);
        self.metrics.execution_duration_ms_total = self.metrics.execution_duration_ms_total.saturating_add(
            elapsed_ms,
        );
        self.metrics.execution_duration_ms_last = elapsed_ms;
        self.metrics.healthy_workers_last = self.executor.healthy_worker_count_at(now);
        let mut i: usize = 0;
        while i < before.len()
            invariant
                graph.wf(),
                i <= before.len(),
                self.executor == old(self).inner(),
                self.metrics.executions_total == saturated(m0.executions_total, 1),
                self.metrics.execution_duration_ms_total == saturated(
                    m0.execution_duration_ms_total,
                    elapsed_ms as nat,
                ),
                self.metrics.execution_duration_ms_last == elapsed_ms,
                self.metrics.workers_configured == m0.workers_configured,
                self.metrics.healthy_workers_last == healthy_addresses(
                    old(self).inner()@.registry.records,
                    now,
                    old(self).inner()@.registry.heartbeat_timeout,
                ).len(),
                self.metrics.tasks_succeeded_total == saturated(
                    m0.tasks_succeeded_total,
                    changes_into(before@.take(i as int), graph@, TaskState::Succeeded),
                ),
                self.metrics.tasks_failed_total == saturated(
                    m0.tasks_failed_total,
                    changes_into(before@.take(i as int), graph@, TaskState::Failed),
                ),
                self.metrics.tasks_blocked_total == saturated(
                    m0.tasks_blocked_total,
                    changes_into(before@.take(i as int), graph@, TaskState::Blocked),
                ),
            decreases before.len() - i,
        {
            let (task_id, previous) = before[i];
            let ghost prefix = before@.take(i + 1);
            proof {
                assert(prefix.drop_last() =~= before@.take(i as int));
                assert(prefix.last() == (task_id, previous));
                lemma_saturated_step(
                    m0.tasks_succeeded_total,
                    changes_into(before@.take(i as int), graph@, TaskState::Succeeded),
                    (changes_into(prefix, graph@, TaskState::Succeeded) - changes_into(
                        before@.take(i as int),
                        graph@,
                        TaskState::Succeeded,
                    )) as nat,
                );
                lemma_saturated_step(
                    m0.tasks_failed_total,
                    changes_into(before@.take(i as int), graph@, TaskState::Failed),
                    (changes_into(prefix, graph@, TaskState::Failed) - changes_into(
                        before@.take(i as int),
                        graph@,
                        TaskState::Failed,
                    )) as nat,
                );
                lemma_saturated_step(
                    m0.tasks_blocked_total,
                    changes_into(before@.take(i as int), graph@, TaskState::Blocked),
                    (changes_into(prefix, graph@, TaskState::Blocked) - changes_into(
                        before@.take(i as int),
                        graph@,
                        TaskState::Blocked,
                    )) as nat,
                );
            }
            match graph.task(task_id) {
                Some(task) => {
                    let current = task.state;
                    if previous != current {
                        match current {
                            TaskState::Succeeded => {
                                self.metrics.tasks_succeeded_total = self.metrics.tasks_succeeded_total.saturating_add(
                                    1,
                                );
                            },
                            TaskState::Failed => {
                                self.metrics.tasks_failed_total = self.metrics.tasks_failed_total.saturating_add(1);
                            },
                            TaskState::Blocked => {
                                self.metrics.tasks_blocked_total = self.metrics.tasks_blocked_total.saturating_add(1);
                            },
                            _ => {},
                        }
                    }
                },
                None => {},
            }
            i += 1;
        }
        assert(before@.take(before@.len() as int) =~= before@);
    }
}

} // verus!

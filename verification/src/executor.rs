//! Distributed execution of a task graph: the decisions of the coordinator.
//!
//! An execution alternates rounds. `DistributedExecutor::plan_round` refreshes
//! worker health, propagates blocked dependencies, and either ends the
//! execution or starts every runnable task, assigning workers round-robin.
//! The assignments are carried out elsewhere (they need the network), and
//! each outcome is handed back to `DistributedExecutor::apply_outcome`:
//! success completes the task; a command failure or timeout retries it while
//! attempts remain, without touching worker health; a worker failure marks
//! the worker unhealthy and retries the task the same way.
use crate::graph::{
    index_of, pending_ids, reconciled, runnable_ids, started, state_of, TaskGraph, TaskId, TaskState, TaskView,
};
use crate::protocol::{MessageKind, TaskResult};
use crate::registry::{
    healthy_addresses, refreshed, WorkerClient, WorkerClientView, WorkerRegistry, WorkerRegistryView,
};
use std::collections::BTreeMap;
use vstd::prelude::*;

verus! {

#[verifier::external_type_specification]
#[verifier::external_body]
pub struct ExIoError(std::io::Error);

/// Why a distributed execution stopped.
#[derive(Debug)]
pub enum CoordinatorError {
    Io(std::io::Error),
    Protocol(String),
    UnexpectedMessage(MessageKind),
    NoWorkers,
    NoHealthyWorkers,
    SchedulerStalled,
}

/// How one dispatched task ended.
#[derive(Debug, Clone, Copy, PartialEq, Eq, Structural)]
pub enum TaskOutcome {
    /// The command succeeded.
    Succeeded,
    /// The worker stopped the command at its timeout.
    TimedOut,
    /// The command ran and failed.
    CommandFailed,
    /// The worker could not be reached or answered wrongly.
    WorkerFailed,
}

/// The outcome of a worker's answer.
pub open spec fn outcome_of(succeeded: bool, timed_out: bool, reached: bool) -> TaskOutcome {
    if !reached {
        TaskOutcome::WorkerFailed
    } else if succeeded {
        TaskOutcome::Succeeded
    } else if timed_out {
        TaskOutcome::TimedOut
    } else {
        TaskOutcome::CommandFailed
    }
}

impl TaskOutcome {
    /// Classifies the answer of a worker to a task request.
    pub fn classify(result: &Result<TaskResult, CoordinatorError>) -> (o: TaskOutcome)
        ensures
            o == match result {
                Ok(r) => outcome_of(r.success, r.timed_out, true),
                Err(_) => TaskOutcome::WorkerFailed,
            },
    {
        match result {
            Ok(r) => if r.success {
                TaskOutcome::Succeeded
            } else if r.timed_out {
                TaskOutcome::TimedOut
            } else {
                TaskOutcome::CommandFailed
            },
            Err(_) => TaskOutcome::WorkerFailed,
        }
    }
}

/// One task to run on one worker.
#[derive(Debug)]
pub struct Assignment {
    pub task_id: TaskId,
    pub worker: WorkerClient,
    pub command: String,
    pub timeout_ms: Option<u64>,
}

/// What the coordinator does next.
#[derive(Debug)]
pub enum RoundPlan {
    /// Nothing is pending any more: the execution is complete.
    Complete,
    /// No worker is healthy.
    NoHealthyWorkers,
    /// Tasks are pending but none can run.
    Stalled,
    /// Run these tasks, in this order.
    Dispatch(Vec<Assignment>),
}

/// State of one execution across rounds.
#[derive(Debug)]
pub struct ExecutionRun {
    completed: Vec<TaskId>,
    attempts: BTreeMap<TaskId, usize>,
    worker_index: usize,
}

pub struct ExecutionRunView {
    pub completed: Seq<TaskId>,
    pub attempts: Map<TaskId, usize>,
    pub worker_index: usize,
}

impl View for ExecutionRun {
    type V = ExecutionRunView;

    closed spec fn view(&self) -> ExecutionRunView {
        ExecutionRunView { completed: self.completed@, attempts: self.attempts@, worker_index: self.worker_index }
    }
}

/// Number of times a task was dispatched in a run.
pub open spec fn attempts_of(attempts: Map<TaskId, usize>, id: TaskId) -> nat {
    if attempts.contains_key(id) {
        attempts[id] as nat
    } else {
        0
    }
}

/// Attempts after one more dispatch of each of `ids`.
pub open spec fn bumped(attempts: Map<TaskId, usize>, ids: Seq<TaskId>) -> Map<TaskId, usize>
    decreases ids.len(),
{
    if ids.len() == 0 {
        attempts
    } else {
        let prev = bumped(attempts, ids.drop_last());
        prev.insert(ids.last(), (attempts_of(prev, ids.last()) + 1) as usize)
    }
}

/// The tasks a run completed are distinct and have all succeeded.
pub open spec fn completed_inv(tasks: Seq<TaskView>, completed: Seq<TaskId>) -> bool {
    &&& completed.no_duplicates()
    &&& forall|x: int| 0 <= x < completed.len() ==> state_of(tasks, #[trigger] completed[x]) == Some(TaskState::Succeeded)
}

/// A task that has succeeded in `a` has succeeded in `b` too, when `b` has the
/// same tasks as `a` and keeps every succeeded state.
proof fn lemma_succeeded_kept(a: Seq<TaskView>, b: Seq<TaskView>, completed: Seq<TaskId>)
    requires
        crate::graph::graph_wf(a),
        crate::graph::same_shape(a, b),
        forall|i: int| 0 <= i < a.len() && a[i].state == TaskState::Succeeded ==> #[trigger] b[i].state == TaskState::Succeeded,
        completed_inv(a, completed),
    ensures
        completed_inv(b, completed),
{
    crate::graph::lemma_state_change_keeps_wf(a, b);
    assert forall|x: int| 0 <= x < completed.len() implies state_of(b, #[trigger] completed[x]) == Some(TaskState::Succeeded) by {
        let id = completed[x];
        assert(state_of(a, id) == Some(TaskState::Succeeded));
        let i = index_of(a, id);
        assert(b[i].id == id);
        crate::graph::lemma_index_of_unique(b, id, i);
    }
}

/// No task was dispatched more than `max` times, and a pending task may still be dispatched.
pub open spec fn run_inv(tasks: Seq<TaskView>, attempts: Map<TaskId, usize>, max: usize) -> bool {
    forall|i: int|
        0 <= i < tasks.len() ==> attempts_of(attempts, #[trigger] tasks[i].id) <= max && (tasks[i].state
            == TaskState::Pending ==> attempts_of(attempts, tasks[i].id) < max)
}

impl ExecutionRun {
    /// A run that has dispatched nothing yet.
    pub fn new() -> (r: Self)
        ensures
            r@.completed == Seq::<TaskId>::empty(),
            r@.attempts == Map::<TaskId, usize>::empty(),
            r@.worker_index == 0,
    {
        ExecutionRun { completed: Vec::new(), attempts: BTreeMap::new(), worker_index: 0 }
    }

    /// Tasks completed so far, in completion order.
    pub fn completed(&self) -> (c: &Vec<TaskId>)
        ensures
            c@ == self@.completed,
    {
        &self.completed
    }

    /// Takes the completed tasks.
    pub fn into_completed(self) -> (c: Vec<TaskId>)
        ensures
            c@ == self@.completed,
    {
        self.completed
    }

    fn attempts_lookup(&self, task_id: TaskId) -> (r: Option<usize>)
        ensures
            r == if self@.attempts.contains_key(task_id) {
                Some(self@.attempts[task_id])
            } else {
                None
            },
    {
        broadcast use {vstd::laws_cmp::group_laws_cmp, vstd::std_specs::btree::group_btree_axioms};

        match self.attempts.get(&task_id) {
            Some(n) => Some(*n),
            None => None,
        }
    }

    fn attempts_store(&mut self, task_id: TaskId, n: usize)
        ensures
            final(self)@ == (ExecutionRunView { attempts: old(self)@.attempts.insert(task_id, n), ..old(self)@ }),
    {
        broadcast use {vstd::laws_cmp::group_laws_cmp, vstd::std_specs::btree::group_btree_axioms};

        self.attempts.insert(task_id, n);
    }

    /// How many times `task_id` was dispatched.
    pub fn attempts(&self, task_id: TaskId) -> (n: usize)
        ensures
            n == attempts_of(self@.attempts, task_id),
    {
        match self.attempts_lookup(task_id) {
            Some(n) => n,
            None => 0,
        }
    }

    /// The next worker slot of the round-robin.
    pub fn worker_index(&self) -> (n: usize)
        ensures
            n == self@.worker_index,
    {
        self.worker_index
    }

    fn bump(&mut self, task_id: TaskId, max: usize)
        requires
            attempts_of(old(self)@.attempts, task_id) < max,
        ensures
            final(self)@ == (ExecutionRunView {
                attempts: old(self)@.attempts.insert(task_id, (attempts_of(old(self)@.attempts, task_id) + 1) as usize),
                ..old(self)@
            }),
    {
        let n = self.attempts(task_id);
        self.attempts_store(task_id, n + 1);
    }
}

/// Value of a distributed executor.
pub struct DistributedExecutorView {
    pub workers: Seq<WorkerClientView>,
    pub registry: WorkerRegistryView,
    pub max_attempts: usize,
    pub task_timeout: Option<u64>,
}

/// Runs a task graph on remote workers.
#[derive(Debug)]
pub struct DistributedExecutor {
    workers: Vec<WorkerClient>,
    registry: WorkerRegistry,
    max_attempts: usize,
    task_timeout: Option<u64>,
}

impl View for DistributedExecutor {
    type V = DistributedExecutorView;

    closed spec fn view(&self) -> DistributedExecutorView {
        DistributedExecutorView {
            workers: self.workers@.map_values(|w: WorkerClient| w@),
            registry: self.registry@,
            max_attempts: self.max_attempts,
            task_timeout: self.task_timeout,
        }
    }
}

/// Records of a registry after a health refresh at `now`.
pub open spec fn refreshed_registry(reg: WorkerRegistryView, now: u64) -> WorkerRegistryView {
    WorkerRegistryView {
        records: Seq::new(reg.records.len(), |i: int| refreshed(reg.records[i], now, reg.heartbeat_timeout)),
        ..reg
    }
}

/// Value of an assignment.
pub struct AssignmentView {
    pub task_id: TaskId,
    pub worker: WorkerClientView,
    pub command: Seq<char>,
    pub timeout_ms: Option<u64>,
}

impl View for Assignment {
    type V = AssignmentView;

    open spec fn view(&self) -> AssignmentView {
        AssignmentView {
            task_id: self.task_id,
            worker: self.worker@,
            command: self.command@,
            timeout_ms: self.timeout_ms,
        }
    }
}

/// The assignment of the `k`-th runnable task of a round.
pub open spec fn planned_assignment(
    g: Seq<TaskView>,
    healthy: Seq<Seq<char>>,
    worker_index: usize,
    timeout: Option<u64>,
    k: int,
) -> AssignmentView {
    let id = runnable_ids(g)[k];
    AssignmentView {
        task_id: id,
        worker: WorkerClientView {
            address: healthy[(worker_index + k) % (healthy.len() as int)],
            connect_timeout_ms: crate::registry::DEFAULT_CONNECT_TIMEOUT_MS,
        },
        command: g[index_of(g, id)].command,
        timeout_ms: timeout,
    }
}

/// State of a task after an outcome, given the attempts it has had.
pub open spec fn state_after(outcome: TaskOutcome, attempt: nat, max: usize) -> TaskState {
    if outcome == TaskOutcome::Succeeded {
        TaskState::Succeeded
    } else if attempt < max {
        TaskState::Pending
    } else {
        TaskState::Failed
    }
}

/// A success completes a task. Every other outcome, a timeout, a failed command and an
/// unreachable worker alike, sends the task back to pending while it has had fewer than
/// `max` attempts, and fails it once it has had `max`.
pub proof fn lemma_outcome_retry_rule(outcome: TaskOutcome, attempt: nat, max: usize)
    ensures
        outcome == TaskOutcome::Succeeded ==> state_after(outcome, attempt, max) == TaskState::Succeeded,
        outcome != TaskOutcome::Succeeded ==> ((state_after(outcome, attempt, max) == TaskState::Pending)
            <==> attempt < max),
        outcome != TaskOutcome::Succeeded ==> ((state_after(outcome, attempt, max) == TaskState::Failed)
            <==> attempt >= max),
        state_after(TaskOutcome::TimedOut, attempt, max) == state_after(TaskOutcome::CommandFailed, attempt, max),
        state_after(TaskOutcome::WorkerFailed, attempt, max) == state_after(
            TaskOutcome::CommandFailed,
            attempt,
            max,
        ),
{
}

/// `e` is a new executor for the workers at `addresses`: one client per address,
/// every worker unprobed, one attempt per task and no task timeout.
pub open spec fn starts_fresh(e: DistributedExecutorView, addresses: Seq<String>) -> bool {
    &&& e.workers.len() == addresses.len()
    &&& forall|i: int|
        0 <= i < addresses.len() ==> #[trigger] e.workers[i] == (WorkerClientView {
            address: addresses[i]@,
            connect_timeout_ms: crate::registry::DEFAULT_CONNECT_TIMEOUT_MS,
        })
    &&& e.max_attempts == 1
    &&& e.task_timeout is None
    &&& e.registry.heartbeat_timeout == crate::registry::DEFAULT_HEARTBEAT_TIMEOUT_MS
    &&& forall|a: Seq<char>|
        crate::registry::has_address(e.registry.records, a) <==> exists|k: int|
            0 <= k < addresses.len() && #[trigger] addresses[k]@ == a
    &&& forall|i: int|
        0 <= i < e.registry.records.len() ==> #[trigger] e.registry.records[i] == crate::registry::fresh_record(
            e.registry.records[i].address,
        )
}

impl DistributedExecutor {
    /// The invariant: a well-formed registry and at least one attempt per task.
    pub open spec fn wf(&self) -> bool {
        &&& self.registry().wf()
        &&& self@.max_attempts >= 1
    }

    /// The worker registry.
    pub closed spec fn registry(&self) -> WorkerRegistry {
        self.registry
    }

    /// An executor for the workers at `addresses`: one attempt per task, no task timeout.
    pub fn new(addresses: Vec<String>) -> (e: Self)
        ensures
            e.wf(),
            starts_fresh(e@, addresses@),
    {
        let mut workers: Vec<WorkerClient> = Vec::new();
        let mut i: usize = 0;
        while i < addresses.len()
            invariant
                i <= addresses.len(),
                workers@.len() == i,
                forall|j: int| 0 <= j < i ==> (#[trigger] workers@[j])@.address == addresses@[j]@,
                forall|j: int| 0 <= j < i ==> (#[trigger] workers@[j])@.connect_timeout_ms
                    == crate::registry::DEFAULT_CONNECT_TIMEOUT_MS,
            decreases addresses.len() - i,
        {
            workers.push(WorkerClient::new(addresses[i].clone()));
            i += 1;
        }
        let ghost ws = workers@;
        let registry = WorkerRegistry::new(addresses);
        let e = DistributedExecutor { workers, registry, max_attempts: 1, task_timeout: None };
        assert forall|j: int| 0 <= j < ws.len() implies (#[trigger] e@.workers[j]) == ws[j]@ by {}
        e
    }

    /// The same executor with `max_attempts` attempts per task, at least one.
    pub fn with_max_attempts(self, max_attempts: usize) -> (e: Self)
        requires
            self.wf(),
        ensures
            e.wf(),
            e@ == (DistributedExecutorView { max_attempts: if max_attempts == 0 { 1 } else { max_attempts }, ..self@ }),
    {
        DistributedExecutor { max_attempts: if max_attempts == 0 { 1 } else { max_attempts }, ..self }
    }

    /// The same executor with a task timeout.
    pub fn with_task_timeout(self, timeout_ms: u64) -> (e: Self)
        requires
            self.wf(),
        ensures
            e.wf(),
            e@ == (DistributedExecutorView { task_timeout: Some(timeout_ms), ..self@ }),
    {
        DistributedExecutor { task_timeout: Some(timeout_ms), ..self }
    }

    /// The same executor without a task timeout.
    pub fn without_task_timeout(self) -> (e: Self)
        requires
            self.wf(),
        ensures
            e.wf(),
            e@ == (DistributedExecutorView { task_timeout: None, ..self@ }),
    {
        DistributedExecutor { task_timeout: None, ..self }
    }

    /// Number of configured workers.
    pub fn worker_count(&self) -> (n: usize)
        ensures
            n == self@.workers.len(),
    {
        self.workers.len()
    }

    /// Attempts allowed per task.
    pub fn max_attempts(&self) -> (n: usize)
        ensures
            n == self@.max_attempts,
    {
        self.max_attempts
    }

    /// The task timeout.
    pub fn task_timeout(&self) -> (t: Option<u64>)
        ensures
            t == self@.task_timeout,
    {
        self.task_timeout
    }

    /// Number of workers healthy at `now`.
    pub fn healthy_worker_count_at(&self, now: u64) -> (n: usize)
        ensures
            n == healthy_addresses(self@.registry.records, now, self@.registry.heartbeat_timeout).len(),
    {
        self.registry.healthy_workers_at(now).len()
    }

    /// Number of workers healthy now (read from the clock): those healthy at the time read,
    /// which is no earlier than any recorded heartbeat.
    pub fn healthy_worker_count(&self) -> (n: usize)
        ensures
            exists|now: u64|
                crate::registry::not_before_seen(self@.registry.records, now) && n == #[trigger] healthy_addresses(
                    self@.registry.records,
                    now,
                    self@.registry.heartbeat_timeout,
                ).len(),
    {
        let clients = self.registry.healthy_workers();
        proof {
            let now = choose|now: u64|
                crate::registry::not_before_seen(self.registry@.records, now) && crate::registry::healthy_clients(
                    self.registry@,
                    now,
                    clients@,
                );
            assert(clients@.len() == healthy_addresses(self@.registry.records, now, self@.registry.heartbeat_timeout).len());
        }
        clients.len()
    }

    /// The worker registry.
    pub fn worker_registry(&self) -> (r: &WorkerRegistry)
        ensures
            r@ == self@.registry,
            self.wf() ==> r.wf(),
    {
        &self.registry
    }

    /// Records a probe answer for `address` at `now` (`None`: no answer).
    pub fn record_probe(&mut self, address: &str, worker_id: Option<String>, now: u64)
        requires
            old(self).wf(),
        ensures
            final(self).wf(),
            final(self)@.workers == old(self)@.workers,
            final(self)@.max_attempts == old(self)@.max_attempts,
            final(self)@.task_timeout == old(self)@.task_timeout,
            final(self)@.registry.heartbeat_timeout == old(self)@.registry.heartbeat_timeout,
            final(self)@.registry.records.len() == old(self)@.registry.records.len(),
            forall|i: int|
                0 <= i < old(self)@.registry.records.len() ==> #[trigger] final(self)@.registry.records[i] == if old(
                    self,
                )@.registry.records[i].address == address@ {
                    crate::registry::probed(
                        old(self)@.registry.records[i],
                        crate::registry::opt_text_view(worker_id),
                        now,
                    )
                } else {
                    old(self)@.registry.records[i]
                },
    {
        self.registry.record_probe(address, worker_id, now);
    }

    /// Starts an execution: an empty run, or `NoWorkers` when no worker is configured.
    pub fn begin(&self) -> (r: Result<ExecutionRun, CoordinatorError>)
        ensures
            self@.workers.len() == 0 ==> r matches Err(CoordinatorError::NoWorkers),
            self@.workers.len() > 0 ==> (r matches Ok(run) && run@.completed == Seq::<TaskId>::empty()
                && run@.attempts == Map::<TaskId, usize>::empty() && run@.worker_index == 0),
    {
        if self.workers.len() == 0 {
            Err(CoordinatorError::NoWorkers)
        } else {
            Ok(ExecutionRun::new())
        }
    }

    /// Plans the next round of an execution at time `now`.
    #[verifier::rlimit(80)]
    #[verifier::spinoff_prover]
    pub fn plan_round(&mut self, graph: &mut TaskGraph, run: &mut ExecutionRun, now: u64) -> (plan: RoundPlan)
        requires
            old(self).wf(),
            old(graph).wf(),
            run_inv(old(graph)@, old(run)@.attempts, old(self)@.max_attempts),
            completed_inv(old(graph)@, old(run)@.completed),
            old(run)@.worker_index + old(graph)@.len() <= usize::MAX,
        ensures
            final(self).wf(),
            final(graph).wf(),
            run_inv(final(graph)@, final(run)@.attempts, final(self)@.max_attempts),
            completed_inv(final(graph)@, final(run)@.completed),
            final(self)@ == (DistributedExecutorView {
                registry: refreshed_registry(old(self)@.registry, now),
                ..old(self)@
            }),
            ({
                let healthy = healthy_addresses(
                    final(self)@.registry.records,
                    now,
                    final(self)@.registry.heartbeat_timeout,
                );
                let g1 = reconciled(old(graph)@);
                let ids = runnable_ids(g1);
                if healthy.len() == 0 {
                    &&& plan is NoHealthyWorkers
                    &&& final(graph)@ == old(graph)@
                    &&& final(run)@ == old(run)@
                } else if ids.len() == 0 {
                    &&& final(graph)@ == g1
                    &&& final(run)@ == old(run)@
                    &&& if pending_ids(g1).len() == 0 {
                        plan is Complete
                    } else {
                        plan is Stalled
                    }
                } else {
                    &&& final(graph)@ == started(g1)
                    &&& final(run)@.completed == old(run)@.completed
                    &&& final(run)@.worker_index == old(run)@.worker_index + ids.len()
                    &&& final(run)@.attempts == bumped(old(run)@.attempts, ids)
                    &&& plan matches RoundPlan::Dispatch(a) && a@.len() == ids.len() && forall|k: int|
                        0 <= k < a@.len() ==> (#[trigger] a@[k])@ == planned_assignment(
                            g1,
                            healthy,
                            old(run)@.worker_index,
                            old(self)@.task_timeout,
                            k,
                        )
                }
            }),
    {
        let ghost reg0 = self.registry@;
        self.registry.refresh_health_at(now);
        assert(self.registry@ == refreshed_registry(reg0, now)) by {
            assert(self.registry@.records =~= refreshed_registry(reg0, now).records);
        }
        let healthy = self.registry.healthy_workers_at(now);
        if healthy.len() == 0 {
            return RoundPlan::NoHealthyWorkers;
        }
        let ghost g0 = graph@;
        graph.reconcile_blocked();
        proof {
            crate::graph::lemma_reconcile_only_blocks_pending(g0);
            lemma_succeeded_kept(g0, graph@, run@.completed);
            assert forall|i: int| 0 <= i < graph@.len() implies attempts_of(run@.attempts, #[trigger] graph@[i].id)
                <= self.max_attempts && (graph@[i].state == TaskState::Pending ==> attempts_of(
                run@.attempts,
                graph@[i].id,
            ) < self.max_attempts) by {
                assert(graph@[i].id == g0[i].id);
            }
        }
        let ghost g1 = graph@;
        let starts = graph.start_runnable();
        if starts.len() == 0 {
            proof {
                assert forall|i: int| 0 <= i < g1.len() implies !crate::graph::is_runnable(g1, #[trigger] g1[i]) by {
                    crate::graph::lemma_runnable_member(g1, i);
                }
                assert(started(g1) =~= g1);
            }
            if graph.pending().len() == 0 {
                return RoundPlan::Complete;
            } else {
                return RoundPlan::Stalled;
            }
        }
        proof {
            lemma_runnable_upto_len(g1, g1.len() as int);
        }
        let assignments = self.assign(&healthy, starts, run, Ghost(g1));
        proof {
            self.lemma_started_keeps_inv(g1, graph@, old(run)@.attempts, run@.attempts);
            crate::graph::lemma_state_change_keeps_wf(g1, graph@);
            assert(crate::graph::same_shape(g1, graph@)) by {
                assert forall|i: int| 0 <= i < g1.len() implies #[trigger] g1[i].id == graph@[i].id
                    && g1[i].dependencies == graph@[i].dependencies && g1[i].command == graph@[i].command by {
                    assert(graph@[i] == started(g1)[i]);
                }
            }
            lemma_succeeded_kept(g1, graph@, run@.completed);
        }
        RoundPlan::Dispatch(assignments)
    }

    proof fn lemma_started_keeps_inv(&self, g1: Seq<TaskView>, g2: Seq<TaskView>, a0: Map<TaskId, usize>, a1: Map<TaskId, usize>)
        requires
            crate::graph::graph_wf(g1),
            g2 == started(g1),
            run_inv(g1, a0, self.max_attempts),
            a1 == bumped(a0, runnable_ids(g1)),
        ensures
            run_inv(g2, a1, self.max_attempts),
    {
        let ids = runnable_ids(g1);
        lemma_bumped(g1, a0, self.max_attempts, ids.len() as int);
        assert(ids.take(ids.len() as int) =~= ids);
        assert forall|i: int| 0 <= i < g2.len() implies attempts_of(a1, #[trigger] g2[i].id) <= self.max_attempts && (
        g2[i].state == TaskState::Pending ==> attempts_of(a1, g2[i].id) < self.max_attempts) by {
            assert(g2[i].id == g1[i].id);
            crate::graph::lemma_runnable_member(g1, i);
            assert(attempts_of(a1, g1[i].id) == attempts_of(a0, g1[i].id) + if ids.contains(g1[i].id) {
                1nat
            } else {
                0nat
            });
        }
    }

    fn assign(
        &self,
        healthy: &Vec<WorkerClient>,
        starts: Vec<(TaskId, String)>,
        run: &mut ExecutionRun,
        Ghost(g1): Ghost<Seq<TaskView>>,
    ) -> (a: Vec<Assignment>)
        requires
            self.wf(),
            crate::graph::graph_wf(g1),
            healthy@.len() > 0,
            run_inv(g1, old(run)@.attempts, self@.max_attempts),
            old(run)@.worker_index + starts@.len() <= usize::MAX,
            starts@.len() == runnable_ids(g1).len(),
            forall|k: int|
                0 <= k < starts@.len() ==> (#[trigger] starts@[k]).0 == runnable_ids(g1)[k] && starts@[k].1@
                    == g1[index_of(g1, starts@[k].0)].command,
        ensures
            final(run)@.completed == old(run)@.completed,
            final(run)@.worker_index == old(run)@.worker_index + starts@.len(),
            final(run)@.attempts == bumped(old(run)@.attempts, runnable_ids(g1)),
            a@.len() == starts@.len(),
            forall|k: int|
                0 <= k < a@.len() ==> (#[trigger] a@[k])@ == (AssignmentView {
                    task_id: starts@[k].0,
                    worker: healthy@[((old(run)@.worker_index + k) % (healthy@.len() as int))]@,
                    command: starts@[k].1@,
                    timeout_ms: self@.task_timeout,
                }),
    {
        let ghost ids = runnable_ids(g1);
        let ghost a0 = run@.attempts;
        let ghost w0 = run@.worker_index;
        proof {
            lemma_bumped(g1, a0, self@.max_attempts, 0);
        }
        let mut out: Vec<Assignment> = Vec::new();
        let ghost st = starts@;
        let n = starts.len();
        let mut k: usize = 0;
        while k < n
            invariant
                n == starts@.len(),
                starts@ == st,
                k <= n,
                st.len() == ids.len(),
                ids == runnable_ids(g1),
                forall|j: int| 0 <= j < st.len() ==> (#[trigger] st[j]).0 == ids[j],
                healthy@.len() > 0,
                self.wf(),
                crate::graph::graph_wf(g1),
                run_inv(g1, a0, self@.max_attempts),
                run@.completed == old(run)@.completed,
                run@.worker_index == w0 + k,
                w0 == old(run)@.worker_index,
                w0 + n <= usize::MAX,
                a0 == old(run)@.attempts,
                run@.attempts == bumped(a0, ids.take(k as int)),
                out@.len() == k,
                forall|j: int|
                    0 <= j < k ==> (#[trigger] out@[j])@ == (AssignmentView {
                        task_id: st[j].0,
                        worker: healthy@[((w0 + j) % (healthy@.len() as int))]@,
                        command: st[j].1@,
                        timeout_ms: self@.task_timeout,
                    }),
            decreases n - k,
        {
            let task_id = starts[k].0;
            let command = starts[k].1.clone();
            proof {
                lemma_bumped(g1, a0, self@.max_attempts, k as int);
                crate::graph::lemma_runnable_ids_unique(g1);
                assert(task_id == ids[k as int]);
                assert(!ids.take(k as int).contains(task_id)) by {
                    if ids.take(k as int).contains(task_id) {
                        let j = choose|j: int| 0 <= j < k && #[trigger] ids.take(k as int)[j] == task_id;
                        assert(ids[j] == ids[k as int]);
                    }
                }
                assert(crate::graph::named_before(g1, g1.len() as int, ids[k as int]));
                let j = choose|j: int| 0 <= j < g1.len() && #[trigger] g1[j].id == ids[k as int];
                crate::graph::lemma_runnable_member(g1, j);
                assert(ids.contains(task_id));
                assert(attempts_of(run@.attempts, task_id) < self@.max_attempts);
            }
            let worker = healthy[run.worker_index % healthy.len()].clone();
            run.worker_index = run.worker_index + 1;
            run.bump(task_id, self.max_attempts);
            proof {
                assert(ids.take(k + 1).drop_last() =~= ids.take(k as int));
            }
            out.push(Assignment { task_id, worker, command, timeout_ms: self.task_timeout });
            k += 1;
        }
        proof {
            assert(ids.take(n as int) =~= ids);
        }
        out
    }

    /// Applies the outcome of running `task_id` on the worker at `address`.
    pub fn apply_outcome(
        &mut self,
        graph: &mut TaskGraph,
        run: &mut ExecutionRun,
        task_id: TaskId,
        address: &str,
        outcome: TaskOutcome,
    )
        requires
            old(self).wf(),
            old(graph).wf(),
            run_inv(old(graph)@, old(run)@.attempts, old(self)@.max_attempts),
            completed_inv(old(graph)@, old(run)@.completed),
            state_of(old(graph)@, task_id) == Some(TaskState::Running),
        ensures
            final(self).wf(),
            final(graph).wf(),
            run_inv(final(graph)@, final(run)@.attempts, final(self)@.max_attempts),
            completed_inv(final(graph)@, final(run)@.completed),
            final(run)@.attempts == old(run)@.attempts,
            final(run)@.worker_index == old(run)@.worker_index,
            final(run)@.completed == if outcome == TaskOutcome::Succeeded && crate::graph::has_id(old(graph)@, task_id) {
                old(run)@.completed.push(task_id)
            } else {
                old(run)@.completed
            },
            final(self)@.workers == old(self)@.workers,
            final(self)@.max_attempts == old(self)@.max_attempts,
            final(self)@.task_timeout == old(self)@.task_timeout,
            outcome != TaskOutcome::WorkerFailed ==> final(self)@.registry == old(self)@.registry,
            outcome == TaskOutcome::WorkerFailed ==> {
                &&& final(self)@.registry.heartbeat_timeout == old(self)@.registry.heartbeat_timeout
                &&& final(self)@.registry.records.len() == old(self)@.registry.records.len()
                &&& forall|i: int|
                    0 <= i < old(self)@.registry.records.len() ==> #[trigger] final(self)@.registry.records[i]
                        == if old(self)@.registry.records[i].address == address@ {
                        crate::registry::marked_unhealthy(old(self)@.registry.records[i])
                    } else {
                        old(self)@.registry.records[i]
                    }
            },
            crate::graph::has_id(old(graph)@, task_id) ==> final(graph)@ == old(graph)@.update(
                index_of(old(graph)@, task_id),
                TaskView {
                    state: state_after(
                        outcome,
                        if old(run)@.attempts.contains_key(task_id) {
                            old(run)@.attempts[task_id] as nat
                        } else {
                            1
                        },
                        old(self)@.max_attempts,
                    ),
                    ..old(graph)@[index_of(old(graph)@, task_id)]
                },
            ),
            !crate::graph::has_id(old(graph)@, task_id) ==> final(graph)@ == old(graph)@,
            crate::graph::has_id(old(graph)@, task_id) && outcome == TaskOutcome::Succeeded ==> state_of(
                final(graph)@,
                task_id,
            ) == Some(TaskState::Succeeded),
            crate::graph::has_id(old(graph)@, task_id) && outcome != TaskOutcome::Succeeded ==> {
                let tried: nat = if old(run)@.attempts.contains_key(task_id) {
                    old(run)@.attempts[task_id] as nat
                } else {
                    1
                };
                &&& (state_of(final(graph)@, task_id) == Some(TaskState::Pending)) == (tried
                    < old(self)@.max_attempts)
                &&& (state_of(final(graph)@, task_id) == Some(TaskState::Failed)) == (tried
                    >= old(self)@.max_attempts)
            },
    {
        if outcome == TaskOutcome::WorkerFailed {
            self.registry.mark_unhealthy(address);
        }
        let state = if outcome == TaskOutcome::Succeeded {
            TaskState::Succeeded
        } else {
            let attempt = run.recorded_attempt(task_id);
            if attempt < self.max_attempts {
                TaskState::Pending
            } else {
                TaskState::Failed
            }
        };
        let ghost g0 = graph@;
        let ghost c0 = run@.completed;
        let found = graph.set_state(task_id, state);
        if found && outcome == TaskOutcome::Succeeded {
            run.completed.push(task_id);
        }
        proof {
            let p = index_of(g0, task_id);
            if crate::graph::has_id(g0, task_id) {
                assert(graph@[p].id == task_id);
                crate::graph::lemma_index_of_unique(graph@, task_id, p);
            }
            assert(!c0.contains(task_id)) by {
                if c0.contains(task_id) {
                    let x = choose|x: int| 0 <= x < c0.len() && c0[x] == task_id;
                    assert(state_of(g0, c0[x]) == Some(TaskState::Succeeded));
                }
            }
            assert forall|x: int| 0 <= x < c0.len() implies state_of(graph@, #[trigger] c0[x]) == Some(
                TaskState::Succeeded,
            ) by {
                let id = c0[x];
                assert(state_of(g0, id) == Some(TaskState::Succeeded));
                let i = index_of(g0, id);
                assert(i != p);
                assert(graph@[i].id == id);
                crate::graph::lemma_index_of_unique(graph@, id, i);
            }
            if found && outcome == TaskOutcome::Succeeded {
                assert(graph@[p].id == task_id);
                crate::graph::lemma_index_of_unique(graph@, task_id, p);
                assert(run@.completed == c0.push(task_id));
                assert forall|x: int| 0 <= x < run@.completed.len() implies state_of(
                    graph@,
                    #[trigger] run@.completed[x],
                ) == Some(TaskState::Succeeded) by {
                    if x < c0.len() {
                        assert(run@.completed[x] == c0[x]);
                    }
                }
                assert(run@.completed.no_duplicates()) by {
                    assert forall|x: int, y: int| 0 <= x < run@.completed.len() && 0 <= y < run@.completed.len()
                        && x != y implies run@.completed[x] != run@.completed[y] by {
                        if x < c0.len() && y < c0.len() {
                        } else if x < c0.len() {
                            assert(c0[x] != task_id);
                        } else {
                            assert(c0[y] != task_id);
                        }
                    }
                }
            }
            assert forall|i: int| 0 <= i < graph@.len() implies attempts_of(run@.attempts, #[trigger] graph@[i].id)
                <= self.max_attempts && (graph@[i].state == TaskState::Pending ==> attempts_of(
                run@.attempts,
                graph@[i].id,
            ) < self.max_attempts) by {
                assert(graph@[i].id == g0[i].id);
            }
        }
    }
}

impl ExecutionRun {
    /// The attempt count of a task that just ran: one when it was never dispatched.
    fn recorded_attempt(&self, task_id: TaskId) -> (n: usize)
        ensures
            n == if self@.attempts.contains_key(task_id) {
                self@.attempts[task_id] as nat
            } else {
                1
            },
    {
        match self.attempts_lookup(task_id) {
            Some(n) => n,
            None => 1,
        }
    }
}

/// The bumped attempts of a prefix of the runnable identifiers.
proof fn lemma_bumped(g: Seq<TaskView>, a0: Map<TaskId, usize>, max: usize, k: int)
    requires
        crate::graph::graph_wf(g),
        run_inv(g, a0, max),
        0 <= k <= runnable_ids(g).len(),
    ensures
        forall|id: TaskId|
            #![trigger attempts_of(bumped(a0, runnable_ids(g).take(k)), id)]
            attempts_of(bumped(a0, runnable_ids(g).take(k)), id) == attempts_of(a0, id) + if runnable_ids(g).take(
                k,
            ).contains(id) {
                1nat
            } else {
                0nat
            },
    decreases k,
{
    let ids = runnable_ids(g);
    if k > 0 {
        lemma_bumped(g, a0, max, k - 1);
        assert(ids.take(k).drop_last() =~= ids.take(k - 1));
        crate::graph::lemma_runnable_ids_unique(g);
        let last = ids[k - 1];
        let prev = bumped(a0, ids.take(k - 1));
        assert(bumped(a0, ids.take(k)) == prev.insert(last, (attempts_of(prev, last) + 1) as usize));
        assert(crate::graph::named_before(g, g.len() as int, last));
        let j = choose|j: int| 0 <= j < g.len() && #[trigger] g[j].id == last;
        crate::graph::lemma_runnable_member(g, j);
        assert(ids.contains(last)) by {
            assert(ids[k - 1] == last);
        }
        assert(!ids.take(k - 1).contains(last)) by {
            if ids.take(k - 1).contains(last) {
                let x = choose|x: int| 0 <= x < k - 1 && #[trigger] ids.take(k - 1)[x] == last;
                assert(ids[x] == ids[k - 1]);
            }
        }
        assert(attempts_of(a0, last) < max);
        assert forall|id: TaskId| #![trigger attempts_of(bumped(a0, ids.take(k)), id)]
            attempts_of(bumped(a0, ids.take(k)), id) == attempts_of(a0, id) + if ids.take(k).contains(id) {
                1nat
            } else {
                0nat
            } by {
            assert(attempts_of(prev, id) == attempts_of(a0, id) + if ids.take(k - 1).contains(id) {
                1nat
            } else {
                0nat
            });
            if id == last {
                assert(ids.take(k)[k - 1] == id);
            } else {
                if ids.take(k).contains(id) {
                    let x = choose|x: int| 0 <= x < k && #[trigger] ids.take(k)[x] == id;
                    assert(ids.take(k - 1)[x] == id);
                }
                if ids.take(k - 1).contains(id) {
                    let x = choose|x: int| 0 <= x < k - 1 && #[trigger] ids.take(k - 1)[x] == id;
                    assert(ids.take(k)[x] == id);
                }
            }
        }
    } else {
        assert(ids.take(0) =~= Seq::<TaskId>::empty());
    }
}

proof fn lemma_runnable_upto_len(g: Seq<TaskView>, n: int)
    requires
        0 <= n <= g.len(),
    ensures
        crate::graph::runnable_upto(g, n).len() <= n,
    decreases n,
{
    if n > 0 {
        lemma_runnable_upto_len(g, n - 1);
    }
}

} // verus!

//! Distributed execution that keeps a journal of what it did.
//!
//! Before an execution, every pending task is journaled as started (attempt 1);
//! after it, each of those tasks that succeeded is journaled as succeeded, and
//! each that failed or was blocked as failed, in the same order.
use crate::executor::{DistributedExecutor, DistributedExecutorView};
use crate::graph::{state_of, TaskGraph, TaskId, TaskState, TaskView};
use crate::journal::{EventView, ExecutionEvent, ExecutionJournal};
use vstd::prelude::*;

verus! {

/// The events journaled before an execution of the pending tasks `pending`.
pub open spec fn started_events(pending: Seq<TaskId>) -> Seq<EventView> {
    pending.map_values(|id: TaskId| EventView::TaskStarted { task_id: id, attempt: 1 })
}

/// The events journaled after an execution for the tasks `pending` that were
/// pending before it, given the tasks as the execution left them.
pub open spec fn terminal_events(tasks: Seq<TaskView>, pending: Seq<TaskId>) -> Seq<EventView>
    decreases pending.len(),
{
    if pending.len() == 0 {
        Seq::empty()
    } else {
        let earlier = terminal_events(tasks, pending.drop_last());
        let id = pending.last();
        match state_of(tasks, id) {
            Some(TaskState::Succeeded) => earlier.push(EventView::TaskSucceeded { task_id: id }),
            Some(TaskState::Failed) => earlier.push(EventView::TaskFailed { task_id: id }),
            Some(TaskState::Blocked) => earlier.push(EventView::TaskFailed { task_id: id }),
            _ => earlier,
        }
    }
}

pub open spec fn event_views(events: Seq<ExecutionEvent>) -> Seq<EventView> {
    events.map_values(|e: ExecutionEvent| e@)
}

/// A distributed executor that journals the start and end of every task it runs.
#[derive(Debug)]
pub struct JournaledDistributedExecutor {
    executor: DistributedExecutor,
    journal: ExecutionJournal,
}

impl JournaledDistributedExecutor {
    /// The executor that does the work.
    pub closed spec fn inner(&self) -> DistributedExecutor {
        self.executor
    }

    /// The path of the journal.
    pub closed spec fn journal_path(&self) -> Seq<char> {
        self.journal.path_view()
    }

    /// The executor is well formed.
    pub open spec fn wf(&self) -> bool {
        self.inner().wf()
    }

    /// An executor for the workers at `addresses` that journals to `journal`.
    pub fn new(addresses: Vec<String>, journal: ExecutionJournal) -> (e: Self)
        ensures
            e.wf(),
            crate::executor::starts_fresh(e.inner()@, addresses@),
            e.journal_path() == journal.path_view(),
    {
        JournaledDistributedExecutor { executor: DistributedExecutor::new(addresses), journal }
    }

    /// The same executor with `max_attempts` attempts per task, at least one.
    pub fn with_max_attempts(self, max_attempts: usize) -> (e: Self)
        requires
            self.wf(),
        ensures
            e.wf(),
            e.inner()@ == (DistributedExecutorView {
                max_attempts: if max_attempts == 0 {
                    1
                } else {
                    max_attempts
                },
                ..self.inner()@
            }),
            e.journal_path() == self.journal_path(),
    {
        JournaledDistributedExecutor { executor: self.executor.with_max_attempts(max_attempts), journal: self.journal }
    }

    /// Number of configured workers.
    pub fn worker_count(&self) -> (n: usize)
        ensures
            n == self.inner()@.workers.len(),
    {
        self.executor.worker_count()
    }

    /// Number of workers healthy now (read from the clock): those healthy at the time read,
    /// which is no earlier than any recorded heartbeat.
    pub fn healthy_worker_count(&self) -> (n: usize)
        ensures
            exists|now: u64|
                crate::registry::not_before_seen(self.inner()@.registry.records, now)
                    && n == #[trigger] crate::registry::healthy_addresses(
                    self.inner()@.registry.records,
                    now,
                    self.inner()@.registry.heartbeat_timeout,
                ).len(),
    {
        self.executor.healthy_worker_count()
    }

    /// The journal.
    pub fn journal(&self) -> (j: &ExecutionJournal)
        ensures
            j.path_view() == self.journal_path(),
    {
        &self.journal
    }

    /// The executor that does the work; the journal stays as it is.
    pub fn executor_mut(&mut self) -> (r: &mut DistributedExecutor)
        ensures
            *r == old(self).inner(),
            final(self).inner() == *final(r),
            final(self).journal_path() == old(self).journal_path(),
    {
        &mut self.executor
    }

    /// The events to journal before executing, for the pending tasks `pending`.
    pub fn started_events(pending: &Vec<TaskId>) -> (r: Vec<ExecutionEvent>)
        ensures
            event_views(r@) == started_events(pending@),
    {
        let mut out: Vec<ExecutionEvent> = Vec::new();
        let mut i: usize = 0;
        while i < pending.len()
            invariant
                i <= pending.len(),
                event_views(out@) =~= started_events(pending@.take(i as int)),
            decreases pending.len() - i,
        {
            let ghost before = out@;
            out.push(ExecutionEvent::TaskStarted { task_id: pending[i], attempt: 1 });
            proof {
                assert(out@ =~= before.push(ExecutionEvent::TaskStarted { task_id: pending@[i as int], attempt: 1 }));
                assert(event_views(out@) =~= event_views(before).push(
                    EventView::TaskStarted { task_id: pending@[i as int], attempt: 1 },
                ));
                assert(pending@.take(i + 1) =~= pending@.take(i as int).push(pending@[i as int]));
            }
            i += 1;
        }
        assert(pending@.take(pending@.len() as int) =~= pending@);
        out
    }

    /// The events to journal after executing, for the tasks `pending` that
    /// were pending before, as the execution left `graph`.
    pub fn terminal_events(graph: &TaskGraph, pending: &Vec<TaskId>) -> (r: Vec<ExecutionEvent>)
        requires
            graph.wf(),
        ensures
            event_views(r@) == terminal_events(graph@, pending@),
    {
        let mut out: Vec<ExecutionEvent> = Vec::new();
        let mut i: usize = 0;
        while i < pending.len()
            invariant
                graph.wf(),
                i <= pending.len(),
                event_views(out@) == terminal_events(graph@, pending@.take(i as int)),
            decreases pending.len() - i,
        {
            let task_id = pending[i];
            let ghost prefix = pending@.take(i + 1);
            proof {
                assert(prefix.drop_last() =~= pending@.take(i as int));
                assert(prefix.last() == task_id);
            }
            let ghost before = event_views(out@);
            match graph.task(task_id) {
                Some(task) => match task.state {
                    TaskState::Succeeded => out.push(ExecutionEvent::TaskSucceeded { task_id }),
                    TaskState::Failed => out.push(ExecutionEvent::TaskFailed { task_id }),
                    TaskState::Blocked => out.push(ExecutionEvent::TaskFailed { task_id }),
                    _ => {},
                },
                None => {},
            }
            assert(event_views(out@) =~= terminal_events(graph@, prefix));
            i += 1;
        }
        assert(pending@.take(pending@.len() as int) =~= pending@);
        out
    }
}

} // verus!

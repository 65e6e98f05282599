//! Task graph, task lifecycle states and the FIFO scheduler of runnable work.
//!
//! The graph keeps its tasks in insertion order, one task per identifier
//! (`TaskGraph::wf`). A task is added only when its dependencies are in the
//! graph and the graph with it has no dependency cycle; a dependency edited
//! later through `task_mut` may name any task, and cycles it creates are
//! found by the next `add_task`.
use std::collections::VecDeque;
use vstd::prelude::*;

verus! {

/// Identifier of a task.
pub type TaskId = u64;

/// Lifecycle state of a task.
#[derive(Debug, Clone, Copy, PartialEq, Eq, Structural)]
pub enum TaskState {
    Pending,
    Ready,
    Running,
    Succeeded,
    Failed,
    Blocked,
}

/// A node of the task graph.
#[derive(Debug, Clone, PartialEq, Eq)]
pub struct Task {
    pub id: TaskId,
    pub command: String,
    pub dependencies: Vec<TaskId>,
    pub state: TaskState,
}

/// Mathematical value of a task.
pub struct TaskView {
    pub id: TaskId,
    pub command: Seq<char>,
    pub dependencies: Seq<TaskId>,
    pub state: TaskState,
}

impl View for Task {
    type V = TaskView;

    open spec fn view(&self) -> TaskView {
        TaskView {
            id: self.id,
            command: self.command@,
            dependencies: self.dependencies@,
            state: self.state,
        }
    }
}

/// Why a task could not be added to a graph.
#[derive(Debug, Clone, PartialEq, Eq)]
pub enum GraphError {
    DuplicateTask(TaskId),
    MissingDependency { task: TaskId, dependency: TaskId },
    CycleDetected,
}

// ---------------------------------------------------------------------------
// Specification of a task sequence
// ---------------------------------------------------------------------------

/// Some task of `tasks` carries identifier `id`.
pub open spec fn has_id(tasks: Seq<TaskView>, id: TaskId) -> bool {
    exists|i: int| 0 <= i < tasks.len() && #[trigger] tasks[i].id == id
}

/// Position of the task with identifier `id` (meaningful when `has_id`).
pub open spec fn index_of(tasks: Seq<TaskView>, id: TaskId) -> int {
    choose|i: int| 0 <= i < tasks.len() && #[trigger] tasks[i].id == id
}

/// The state of task `id` in `tasks`, if it is there.
pub open spec fn state_of(tasks: Seq<TaskView>, id: TaskId) -> Option<TaskState> {
    if has_id(tasks, id) {
        Some(tasks[index_of(tasks, id)].state)
    } else {
        None
    }
}

/// No two tasks share an identifier.
pub open spec fn ids_unique(tasks: Seq<TaskView>) -> bool {
    forall|i: int, j: int|
        0 <= i < tasks.len() && 0 <= j < tasks.len() && i != j ==> #[trigger] tasks[i].id
            != #[trigger] tasks[j].id
}

/// The invariant of a task graph: one task per identifier.
pub open spec fn graph_wf(tasks: Seq<TaskView>) -> bool {
    ids_unique(tasks)
}

/// Task `a` lists `b` among its dependencies.
pub open spec fn depends_on(tasks: Seq<TaskView>, a: TaskId, b: TaskId) -> bool {
    exists|i: int| 0 <= i < tasks.len() && #[trigger] tasks[i].id == a && tasks[i].dependencies.contains(b)
}

/// `path` is a closed walk along dependency edges.
pub open spec fn is_cycle(tasks: Seq<TaskView>, path: Seq<TaskId>) -> bool {
    &&& path.len() >= 2
    &&& path[0] == path[path.len() - 1]
    &&& forall|k: int| 0 <= k < path.len() - 1 ==> depends_on(tasks, #[trigger] path[k], path[k + 1])
}

/// The dependency relation has a cycle.
pub open spec fn has_cycle(tasks: Seq<TaskView>) -> bool {
    exists|path: Seq<TaskId>| is_cycle(tasks, path)
}

/// The task with identifier `d` exists and has succeeded.
pub open spec fn dep_succeeded(tasks: Seq<TaskView>, d: TaskId) -> bool {
    has_id(tasks, d) && tasks[index_of(tasks, d)].state == TaskState::Succeeded
}

/// A task is runnable when it is pending and all its dependencies succeeded.
pub open spec fn is_runnable(tasks: Seq<TaskView>, t: TaskView) -> bool {
    &&& t.state == TaskState::Pending
    &&& forall|k: int| 0 <= k < t.dependencies.len() ==> dep_succeeded(tasks, #[trigger] t.dependencies[k])
}

/// Identifiers of the runnable tasks among the first `n`, in graph order.
pub open spec fn runnable_upto(tasks: Seq<TaskView>, n: int) -> Seq<TaskId>
    decreases n,
{
    if n <= 0 {
        Seq::empty()
    } else {
        let prev = runnable_upto(tasks, n - 1);
        if is_runnable(tasks, tasks[n - 1]) {
            prev.push(tasks[n - 1].id)
        } else {
            prev
        }
    }
}

/// Identifiers of all runnable tasks, in graph order.
pub open spec fn runnable_ids(tasks: Seq<TaskView>) -> Seq<TaskId> {
    runnable_upto(tasks, tasks.len() as int)
}

/// Identifiers of the tasks among the first `n` that are in `state`, in graph order.
pub open spec fn ids_in_state_upto(tasks: Seq<TaskView>, state: TaskState, n: int) -> Seq<TaskId>
    decreases n,
{
    if n <= 0 {
        Seq::empty()
    } else {
        let prev = ids_in_state_upto(tasks, state, n - 1);
        if tasks[n - 1].state == state {
            prev.push(tasks[n - 1].id)
        } else {
            prev
        }
    }
}

/// Identifiers of all pending tasks, in graph order.
pub open spec fn pending_ids(tasks: Seq<TaskView>) -> Seq<TaskId> {
    ids_in_state_upto(tasks, TaskState::Pending, tasks.len() as int)
}

/// Identifiers of all tasks, in graph order.
pub open spec fn all_ids(tasks: Seq<TaskView>) -> Seq<TaskId> {
    tasks.map_values(|t: TaskView| t.id)
}

/// The dependency `d` names a task of `tasks` that failed or is blocked.
pub open spec fn dep_stopped(tasks: Seq<TaskView>, d: TaskId) -> bool {
    exists|j: int|
        0 <= j < tasks.len() && #[trigger] tasks[j].id == d && (tasks[j].state == TaskState::Failed
            || tasks[j].state == TaskState::Blocked)
}

/// The state of `t` after one propagation step over `tasks`: blocked when it is
/// pending and one of its dependencies failed or is blocked.
pub open spec fn reconcile_one(tasks: Seq<TaskView>, t: TaskView) -> TaskView {
    if t.state == TaskState::Pending && exists|k: int|
        0 <= k < t.dependencies.len() && dep_stopped(tasks, #[trigger] t.dependencies[k]) {
        TaskView { state: TaskState::Blocked, ..t }
    } else {
        t
    }
}

/// One propagation step: every task at once, against the states before the step.
pub open spec fn block_step(tasks: Seq<TaskView>) -> Seq<TaskView> {
    Seq::new(tasks.len(), |i: int| reconcile_one(tasks, tasks[i]))
}

/// Number of pending tasks.
pub open spec fn pending_count(tasks: Seq<TaskView>) -> nat
    decreases tasks.len(),
{
    if tasks.len() == 0 {
        0
    } else {
        pending_count(tasks.drop_last()) + if tasks.last().state == TaskState::Pending {
            1nat
        } else {
            0nat
        }
    }
}

/// `b` is `a` with some pending tasks blocked.
pub open spec fn only_blocked(a: Seq<TaskView>, b: Seq<TaskView>) -> bool {
    &&& a.len() == b.len()
    &&& forall|i: int|
        0 <= i < a.len() ==> #[trigger] b[i] == a[i] || (a[i].state == TaskState::Pending && b[i]
            == TaskView { state: TaskState::Blocked, ..a[i] })
}

/// Blocked-dependency propagation: steps are repeated until nothing changes, so
/// every pending task that depends, directly or through other blocked tasks, on
/// a failed task becomes blocked.
pub open spec fn reconciled(tasks: Seq<TaskView>) -> Seq<TaskView>
    decreases pending_count(tasks),
{
    if block_step(tasks) == tasks {
        tasks
    } else {
        proof {
            lemma_step_blocks_pending(tasks);
            lemma_only_blocked_count(tasks, block_step(tasks));
        }
        reconciled(block_step(tasks))
    }
}

/// The task added by a successful `add_task`.
pub open spec fn new_task(id: TaskId, command: Seq<char>, deps: Seq<TaskId>) -> TaskView {
    TaskView { id, command, dependencies: deps, state: TaskState::Pending }
}

/// A dependency that `add_task` refuses for task `id`.
pub open spec fn bad_dependency(tasks: Seq<TaskView>, id: TaskId, d: TaskId) -> bool {
    d == id || !has_id(tasks, d)
}

/// The same tasks with possibly other states.
pub open spec fn same_shape(a: Seq<TaskView>, b: Seq<TaskView>) -> bool {
    &&& a.len() == b.len()
    &&& forall|i: int|
        0 <= i < a.len() ==> #[trigger] a[i].id == b[i].id && a[i].dependencies == b[i].dependencies
            && a[i].command == b[i].command
}

/// The graph after every runnable task has been started.
pub open spec fn started(tasks: Seq<TaskView>) -> Seq<TaskView> {
    Seq::new(
        tasks.len(),
        |i: int|
            if is_runnable(tasks, tasks[i]) {
                TaskView { state: TaskState::Running, ..tasks[i] }
            } else {
                tasks[i]
            },
    )
}

/// `b` differs from `a` only by pending tasks that were started.
pub open spec fn only_started(a: Seq<TaskView>, b: Seq<TaskView>) -> bool {
    &&& a.len() == b.len()
    &&& forall|i: int|
        0 <= i < a.len() ==> #[trigger] b[i] == a[i] || (a[i].state == TaskState::Pending && b[i]
            == TaskView { state: TaskState::Running, ..a[i] })
}

// ---------------------------------------------------------------------------
// Lemmas
// ---------------------------------------------------------------------------

proof fn lemma_only_started_keeps_runnable(a: Seq<TaskView>, b: Seq<TaskView>, t: TaskView)
    requires
        ids_unique(a),
        only_started(a, b),
    ensures
        same_shape(a, b),
        (forall|k: int| 0 <= k < t.dependencies.len() ==> dep_succeeded(b, #[trigger] t.dependencies[k]))
            == (forall|k: int| 0 <= k < t.dependencies.len() ==> dep_succeeded(a, #[trigger] t.dependencies[k])),
{
    assert(same_shape(a, b)) by {
        assert forall|i: int| 0 <= i < a.len() implies #[trigger] a[i].id == b[i].id && a[i].dependencies == b[i].dependencies
            && a[i].command == b[i].command by {
            assert(b[i] == a[i] || b[i] == TaskView { state: TaskState::Running, ..a[i] });
        }
    }
    assert(ids_unique(b)) by {
        assert forall|i: int, j: int| 0 <= i < b.len() && 0 <= j < b.len() && i != j implies #[trigger] b[i].id
            != #[trigger] b[j].id by {
            assert(a[i].id == b[i].id && a[j].id == b[j].id);
        }
    }
    assert forall|k: int| 0 <= k < t.dependencies.len() implies dep_succeeded(b, #[trigger] t.dependencies[k])
        == dep_succeeded(a, t.dependencies[k]) by {
        let d = t.dependencies[k];
        if has_id(a, d) {
            let i = index_of(a, d);
            assert(b[i].id == d);
            lemma_index_of_unique(b, d, i);
            assert(b[i] == a[i] || (a[i].state == TaskState::Pending && b[i].state == TaskState::Running));
        } else {
            if has_id(b, d) {
                let i = index_of(b, d);
                assert(a[i].id == d);
            }
        }
    }
}

/// In a sequence of distinct identifiers, `index_of` finds the one position of an identifier.
pub proof fn lemma_index_of_unique(tasks: Seq<TaskView>, id: TaskId, i: int)
    requires
        ids_unique(tasks),
        0 <= i < tasks.len(),
        tasks[i].id == id,
    ensures
        index_of(tasks, id) == i,
        has_id(tasks, id),
{
    let j = index_of(tasks, id);
    assert(tasks[i].id == id);
}

proof fn lemma_same_shape_wf(a: Seq<TaskView>, b: Seq<TaskView>)
    requires
        graph_wf(a),
        same_shape(a, b),
    ensures
        graph_wf(b),
{
    assert forall|i: int, j: int|
        0 <= i < b.len() && 0 <= j < b.len() && i != j implies #[trigger] b[i].id != #[trigger] b[j].id by {
        assert(a[i].id == b[i].id);
        assert(a[j].id == b[j].id);
    }
}

/// One propagation step only blocks pending tasks.
pub proof fn lemma_step_blocks_pending(tasks: Seq<TaskView>)
    ensures
        only_blocked(tasks, block_step(tasks)),
{
}

/// Blocking pending tasks never adds pending tasks, and blocking any removes some.
pub proof fn lemma_only_blocked_count(a: Seq<TaskView>, b: Seq<TaskView>)
    requires
        only_blocked(a, b),
    ensures
        pending_count(b) <= pending_count(a),
        b != a ==> pending_count(b) < pending_count(a),
    decreases a.len(),
{
    if a.len() > 0 {
        let a0 = a.drop_last();
        let b0 = b.drop_last();
        assert forall|i: int| 0 <= i < a0.len() implies #[trigger] b0[i] == a0[i] || (a0[i].state == TaskState::Pending
            && b0[i] == TaskView { state: TaskState::Blocked, ..a0[i] }) by {
            assert(a0[i] == a[i] && b0[i] == b[i]);
        }
        lemma_only_blocked_count(a0, b0);
        assert(b[b.len() - 1] == a[a.len() - 1] || (a[a.len() - 1].state == TaskState::Pending && b[b.len() - 1]
            == TaskView { state: TaskState::Blocked, ..a[a.len() - 1] }));
        if b0 == a0 && b.last() == a.last() {
            assert(b =~= a) by {
                assert forall|i: int| 0 <= i < a.len() implies b[i] == a[i] by {
                    if i < a0.len() {
                        assert(a0[i] == a[i] && b0[i] == b[i]);
                    }
                }
            }
        }
    } else {
        assert(b =~= a);
    }
}

proof fn lemma_only_blocked_trans(a: Seq<TaskView>, b: Seq<TaskView>, c: Seq<TaskView>)
    requires
        only_blocked(a, b),
        only_blocked(b, c),
    ensures
        only_blocked(a, c),
{
    assert forall|i: int| 0 <= i < a.len() implies #[trigger] c[i] == a[i] || (a[i].state == TaskState::Pending && c[i]
        == TaskView { state: TaskState::Blocked, ..a[i] }) by {
        assert(b[i] == a[i] || (a[i].state == TaskState::Pending && b[i] == TaskView { state: TaskState::Blocked, ..a[i] }));
        assert(c[i] == b[i] || (b[i].state == TaskState::Pending && c[i] == TaskView { state: TaskState::Blocked, ..b[i] }));
    }
}

proof fn lemma_reconciled_only_blocked(tasks: Seq<TaskView>)
    ensures
        only_blocked(tasks, reconciled(tasks)),
    decreases pending_count(tasks),
{
    let next = block_step(tasks);
    if next != tasks {
        lemma_step_blocks_pending(tasks);
        lemma_only_blocked_count(tasks, next);
        lemma_reconciled_only_blocked(next);
        lemma_only_blocked_trans(tasks, next, reconciled(next));
    } else {
        assert forall|i: int| 0 <= i < tasks.len() implies #[trigger] reconciled(tasks)[i] == tasks[i] || (tasks[i].state
            == TaskState::Pending && reconciled(tasks)[i] == TaskView { state: TaskState::Blocked, ..tasks[i] }) by {}
    }
}

/// A task is among the runnable identifiers exactly when it is runnable.
pub proof fn lemma_runnable_member(g: Seq<TaskView>, i: int)
    requires
        graph_wf(g),
        0 <= i < g.len(),
    ensures
        runnable_ids(g).contains(g[i].id) == is_runnable(g, g[i]),
{
    lemma_runnable_upto_member(g, i, g.len() as int);
}

proof fn lemma_runnable_upto_member(g: Seq<TaskView>, i: int, n: int)
    requires
        graph_wf(g),
        0 <= i < g.len(),
        0 <= n <= g.len(),
    ensures
        runnable_upto(g, n).contains(g[i].id) == (i < n && is_runnable(g, g[i])),
    decreases n,
{
    if n > 0 {
        lemma_runnable_upto_member(g, i, n - 1);
        let prev = runnable_upto(g, n - 1);
        if is_runnable(g, g[n - 1]) {
            let cur = prev.push(g[n - 1].id);
            if i == n - 1 {
                assert(cur[prev.len() as int] == g[i].id);
            } else {
                if cur.contains(g[i].id) {
                    let k = choose|k: int| 0 <= k < cur.len() && #[trigger] cur[k] == g[i].id;
                    if k == prev.len() {
                        assert(g[n - 1].id == g[i].id);
                    } else {
                        assert(prev[k] == g[i].id);
                    }
                }
                if prev.contains(g[i].id) {
                    let k = choose|k: int| 0 <= k < prev.len() && #[trigger] prev[k] == g[i].id;
                    assert(cur[k] == g[i].id);
                }
            }
        }
    }
}

/// Some task among the first `n` of `g` has identifier `v`.
pub open spec fn named_before(g: Seq<TaskView>, n: int, v: TaskId) -> bool {
    exists|j: int| 0 <= j < n && #[trigger] g[j].id == v
}

/// Runnable identifiers are distinct, and each names a task of the graph.
#[verifier::spinoff_prover]
pub proof fn lemma_runnable_ids_unique(g: Seq<TaskView>)
    requires
        graph_wf(g),
    ensures
        forall|x: int, y: int|
            0 <= x < y < runnable_ids(g).len() ==> #[trigger] runnable_ids(g)[x] != #[trigger] runnable_ids(g)[y],
        forall|x: int|
            #![trigger runnable_ids(g)[x]]
            0 <= x < runnable_ids(g).len() ==> named_before(g, g.len() as int, runnable_ids(g)[x]),
{
    lemma_runnable_upto_unique(g, g.len() as int);
    assert(runnable_ids(g) == runnable_upto(g, g.len() as int));
}

#[verifier::spinoff_prover]
proof fn lemma_runnable_upto_unique(g: Seq<TaskView>, n: int)
    requires
        graph_wf(g),
        0 <= n <= g.len(),
    ensures
        forall|x: int|
            #![trigger runnable_upto(g, n)[x]]
            0 <= x < runnable_upto(g, n).len() ==> named_before(g, n, runnable_upto(g, n)[x]),
        forall|x: int, y: int|
            0 <= x < y < runnable_upto(g, n).len() ==> #[trigger] runnable_upto(g, n)[x]
                != #[trigger] runnable_upto(g, n)[y],
    decreases n,
{
    let cur = runnable_upto(g, n);
    if n > 0 {
        lemma_runnable_upto_unique(g, n - 1);
        let prev = runnable_upto(g, n - 1);
        if is_runnable(g, g[n - 1]) {
            assert(cur == prev.push(g[n - 1].id));
            assert forall|x: int| 0 <= x < prev.len() implies #[trigger] prev[x] != g[n - 1].id by {
                let j = choose|j: int| 0 <= j < n - 1 && #[trigger] g[j].id == prev[x];
                assert(g[j].id != g[n - 1].id);
            }
            assert forall|x: int| #![trigger cur[x]] 0 <= x < cur.len() implies named_before(g, n, cur[x]) by {
                if x < prev.len() {
                    assert(cur[x] == prev[x]);
                    let j = choose|j: int| 0 <= j < n - 1 && #[trigger] g[j].id == prev[x];
                    assert(0 <= j < n && g[j].id == cur[x]);
                } else {
                    assert(g[n - 1].id == cur[x]);
                }
            }
            assert forall|x: int, y: int| 0 <= x < y < cur.len() implies #[trigger] cur[x] != #[trigger] cur[y] by {
                if y < prev.len() {
                    assert(cur[x] == prev[x] && cur[y] == prev[y]);
                } else {
                    assert(cur[x] == prev[x]);
                }
            }
        } else {
            assert(cur == prev);
            assert forall|x: int| #![trigger cur[x]] 0 <= x < cur.len() implies exists|j: int|
                0 <= j < n && #[trigger] g[j].id == cur[x] by {
                let j = choose|j: int| 0 <= j < n - 1 && #[trigger] g[j].id == prev[x];
                assert(0 <= j < n && g[j].id == cur[x]);
            }
        }
    } else {
        assert(cur.len() == 0);
    }
}

// ---------------------------------------------------------------------------
// Cycle search
// ---------------------------------------------------------------------------

/// Every marked task's dependencies in the graph are marked, with a smaller rank.
spec fn ranked(tasks: Seq<TaskView>, done: Seq<bool>, rank: Seq<nat>) -> bool {
    &&& done.len() == tasks.len()
    &&& rank.len() == tasks.len()
    &&& forall|i: int, k: int|
        0 <= i < tasks.len() && done[i] && 0 <= k < tasks[i].dependencies.len() && has_id(
            tasks,
            #[trigger] tasks[i].dependencies[k],
        ) ==> done[index_of(tasks, tasks[i].dependencies[k])] && rank[index_of(tasks, tasks[i].dependencies[k])]
            < rank[i]
}

/// Task `i` is unmarked and all its dependencies in the graph are marked.
spec fn eligible(tasks: Seq<TaskView>, done: Seq<bool>, i: int) -> bool {
    &&& !done[i]
    &&& forall|k: int|
        0 <= k < tasks[i].dependencies.len() && has_id(tasks, #[trigger] tasks[i].dependencies[k]) ==> done[index_of(
            tasks,
            tasks[i].dependencies[k],
        )]
}

/// Number of unmarked tasks.
spec fn unmarked_count(done: Seq<bool>) -> nat
    decreases done.len(),
{
    if done.len() == 0 {
        0
    } else {
        unmarked_count(done.drop_last()) + if done.last() {
            0nat
        } else {
            1nat
        }
    }
}

proof fn lemma_mark_decreases(done: Seq<bool>, j: int)
    requires
        0 <= j < done.len(),
        !done[j],
    ensures
        unmarked_count(done.update(j, true)) < unmarked_count(done),
    decreases done.len(),
{
    let u = done.update(j, true);
    if j == done.len() - 1 {
        assert(u.drop_last() =~= done.drop_last());
    } else {
        lemma_mark_decreases(done.drop_last(), j);
        assert(u.drop_last() =~= done.drop_last().update(j, true));
    }
}

/// A task on a cycle is in the graph.
proof fn lemma_cycle_node_present(tasks: Seq<TaskView>, path: Seq<TaskId>, m: int)
    requires
        is_cycle(tasks, path),
        0 <= m < path.len(),
    ensures
        has_id(tasks, path[m]),
{
    let x = if m < path.len() - 1 { m } else { 0 };
    assert(path[x] == path[m]);
    assert(depends_on(tasks, path[x], path[x + 1]));
    let i = choose|i: int| 0 <= i < tasks.len() && #[trigger] tasks[i].id == path[x] && tasks[i].dependencies.contains(
        path[x + 1],
    );
    assert(tasks[i].id == path[m]);
}

proof fn lemma_ranked_edge(tasks: Seq<TaskView>, done: Seq<bool>, rank: Seq<nat>, path: Seq<TaskId>, m: int)
    requires
        ids_unique(tasks),
        ranked(tasks, done, rank),
        forall|i: int| 0 <= i < tasks.len() ==> done[i],
        is_cycle(tasks, path),
        0 <= m < path.len() - 1,
    ensures
        rank[index_of(tasks, path[m + 1])] < rank[index_of(tasks, path[m])],
{
    lemma_cycle_node_present(tasks, path, m + 1);
    assert(depends_on(tasks, path[m], path[m + 1]));
    let i = choose|i: int| 0 <= i < tasks.len() && #[trigger] tasks[i].id == path[m] && tasks[i].dependencies.contains(
        path[m + 1],
    );
    let k = choose|k: int| 0 <= k < tasks[i].dependencies.len() && tasks[i].dependencies[k] == path[m + 1];
    lemma_index_of_unique(tasks, path[m], i);
    assert(has_id(tasks, tasks[i].dependencies[k]));
    assert(done[i]);
}

proof fn lemma_ranked_descends(tasks: Seq<TaskView>, done: Seq<bool>, rank: Seq<nat>, path: Seq<TaskId>, m: int)
    requires
        ids_unique(tasks),
        ranked(tasks, done, rank),
        forall|i: int| 0 <= i < tasks.len() ==> done[i],
        is_cycle(tasks, path),
        1 <= m < path.len(),
    ensures
        rank[index_of(tasks, path[m])] < rank[index_of(tasks, path[0])],
    decreases m,
{
    lemma_ranked_edge(tasks, done, rank, path, m - 1);
    if m > 1 {
        lemma_ranked_descends(tasks, done, rank, path, m - 1);
    }
}

/// When every task could be marked, the graph has no cycle.
proof fn lemma_ranked_acyclic(tasks: Seq<TaskView>, done: Seq<bool>, rank: Seq<nat>)
    requires
        ids_unique(tasks),
        ranked(tasks, done, rank),
        forall|i: int| 0 <= i < tasks.len() ==> done[i],
    ensures
        !has_cycle(tasks),
{
    if has_cycle(tasks) {
        let path = choose|path: Seq<TaskId>| is_cycle(tasks, path);
        lemma_ranked_descends(tasks, done, rank, path, path.len() - 1);
        assert(path[path.len() - 1] == path[0]);
    }
}

/// The position of a dependency of task `i` that is in the graph and unmarked.
spec fn unmarked_dependency(tasks: Seq<TaskView>, done: Seq<bool>, i: int) -> int {
    let k = choose|k: int|
        0 <= k < tasks[i].dependencies.len() && has_id(tasks, #[trigger] tasks[i].dependencies[k]) && !done[index_of(
            tasks,
            tasks[i].dependencies[k],
        )];
    index_of(tasks, tasks[i].dependencies[k])
}

/// Position `x + 1` of walk `w` is a dependency of position `x`.
spec fn walk_step(tasks: Seq<TaskView>, w: Seq<int>, x: int) -> bool {
    tasks[w[x]].dependencies.contains(tasks[w[x + 1]].id)
}

/// A walk of `m` steps from `start`, each step to an unmarked dependency.
spec fn unmarked_walk(tasks: Seq<TaskView>, done: Seq<bool>, start: int, m: nat) -> Seq<int>
    decreases m,
{
    if m == 0 {
        seq![start]
    } else {
        let w = unmarked_walk(tasks, done, start, (m - 1) as nat);
        w.push(unmarked_dependency(tasks, done, w.last()))
    }
}

proof fn lemma_unmarked_walk(tasks: Seq<TaskView>, done: Seq<bool>, start: int, m: nat)
    requires
        done.len() == tasks.len(),
        0 <= start < tasks.len(),
        !done[start],
        forall|i: int| 0 <= i < tasks.len() ==> !eligible(tasks, done, i),
    ensures
        unmarked_walk(tasks, done, start, m).len() == m + 1,
        forall|x: int|
            0 <= x <= m ==> 0 <= #[trigger] unmarked_walk(tasks, done, start, m)[x] < tasks.len() && !done[unmarked_walk(
                tasks,
                done,
                start,
                m,
            )[x]],
        forall|x: int| 0 <= x < m ==> #[trigger] walk_step(tasks, unmarked_walk(tasks, done, start, m), x),
    decreases m,
{
    if m > 0 {
        let w0 = unmarked_walk(tasks, done, start, (m - 1) as nat);
        lemma_unmarked_walk(tasks, done, start, (m - 1) as nat);
        let i = w0.last();
        assert(w0[m - 1] == i);
        assert(!eligible(tasks, done, i));
        let k = choose|k: int|
            0 <= k < tasks[i].dependencies.len() && has_id(tasks, #[trigger] tasks[i].dependencies[k]) && !done[index_of(
                tasks,
                tasks[i].dependencies[k],
            )];
        let d = tasks[i].dependencies[k];
        let j = index_of(tasks, d);
        assert(unmarked_dependency(tasks, done, i) == j);
        let w = unmarked_walk(tasks, done, start, m);
        assert(w == w0.push(j));
        assert(tasks[i].dependencies.contains(tasks[j].id)) by {
            assert(tasks[i].dependencies[k] == tasks[j].id);
        }
        assert forall|x: int| 0 <= x <= m implies 0 <= #[trigger] w[x] < tasks.len() && !done[w[x]] by {
            if x < m {
                assert(w[x] == w0[x]);
            }
        }
        assert forall|x: int| 0 <= x < m implies #[trigger] walk_step(tasks, w, x) by {
            if x < m - 1 {
                assert(walk_step(tasks, w0, x));
                assert(w[x] == w0[x] && w[x + 1] == w0[x + 1]);
            } else {
                assert(w[x] == i && w[x + 1] == j);
            }
        }
    }
}

/// A sequence longer than `n` of values below `n` repeats a value.
proof fn lemma_repeat(s: Seq<int>, n: int)
    requires
        0 <= n < s.len(),
        forall|x: int| 0 <= x < s.len() ==> 0 <= #[trigger] s[x] < n,
    ensures
        exists|a: int, b: int| 0 <= a < b < s.len() && s[a] == s[b],
{
    if s.no_duplicates() {
        s.unique_seq_to_set();
        vstd::set_lib::lemma_int_range(0, n);
        assert(s.to_set().subset_of(vstd::set_lib::set_int_range(0, n))) by {
            assert forall|v: int| s.to_set().contains(v) implies vstd::set_lib::set_int_range(0, n).contains(v) by {
                assert(s.contains(v));
                let x = choose|x: int| 0 <= x < s.len() && s[x] == v;
                assert(0 <= s[x] < n);
            }
        }
        vstd::set_lib::lemma_len_subset(s.to_set(), vstd::set_lib::set_int_range(0, n));
    } else {
        let (a, b) = choose|a: int, b: int| 0 <= a < s.len() && 0 <= b < s.len() && a != b && s[a] == s[b];
        if a < b {
            assert(s[a] == s[b]);
        } else {
            assert(s[b] == s[a]);
        }
    }
}

/// When no task can be marked but some task is unmarked, the graph has a cycle.
proof fn lemma_stuck_has_cycle(tasks: Seq<TaskView>, done: Seq<bool>, start: int)
    requires
        done.len() == tasks.len(),
        0 <= start < tasks.len(),
        !done[start],
        forall|i: int| 0 <= i < tasks.len() ==> !eligible(tasks, done, i),
    ensures
        has_cycle(tasks),
{
    let n = tasks.len();
    lemma_unmarked_walk(tasks, done, start, n);
    lemma_cycle_from_walk(tasks, unmarked_walk(tasks, done, start, n));
}

/// A walk along dependency edges through more steps than there are tasks closes a cycle.
proof fn lemma_cycle_from_walk(tasks: Seq<TaskView>, w: Seq<int>)
    requires
        w.len() == tasks.len() + 1,
        forall|x: int| 0 <= x < w.len() ==> 0 <= #[trigger] w[x] < tasks.len(),
        forall|x: int| 0 <= x < w.len() - 1 ==> #[trigger] walk_step(tasks, w, x),
    ensures
        has_cycle(tasks),
{
    lemma_repeat(w, tasks.len() as int);
    let (a, b) = choose|a: int, b: int| 0 <= a < b < w.len() && w[a] == w[b];
    let path = Seq::new((b - a + 1) as nat, |x: int| tasks[w[a + x]].id);
    assert forall|x: int| 0 <= x < path.len() - 1 implies depends_on(tasks, #[trigger] path[x], path[x + 1]) by {
        assert(walk_step(tasks, w, a + x));
        lemma_walk_edge(tasks, w, a + x, path[x], path[x + 1]);
    }
    assert(path[0] == path[path.len() - 1]);
    assert(is_cycle(tasks, path));
}

proof fn lemma_walk_edge(tasks: Seq<TaskView>, w: Seq<int>, p: int, from: TaskId, to: TaskId)
    requires
        0 <= p < w.len() - 1,
        0 <= w[p] < tasks.len(),
        tasks[w[p]].dependencies.contains(tasks[w[p + 1]].id),
        from == tasks[w[p]].id,
        to == tasks[w[p + 1]].id,
    ensures
        depends_on(tasks, from, to),
{
    let i = w[p];
    assert(tasks[i].id == from);
}

/// The position of an unmarked task, if there is one.
fn first_unmarked(done: &Vec<bool>) -> (r: Option<usize>)
    ensures
        match r {
            Some(s) => s < done@.len() && !done@[s as int],
            None => forall|x: int| 0 <= x < done@.len() ==> done@[x],
        },
{
    let mut i: usize = 0;
    while i < done.len()
        invariant
            i <= done.len(),
            forall|x: int| 0 <= x < i ==> done@[x],
        decreases done.len() - i,
    {
        if !done[i] {
            return Some(i);
        }
        i += 1;
    }
    None
}

// ---------------------------------------------------------------------------
// The task graph
// ---------------------------------------------------------------------------

/// A dependency-aware set of tasks, kept in insertion order.
#[derive(Debug)]
pub struct TaskGraph {
    tasks: Vec<Task>,
}

impl View for TaskGraph {
    type V = Seq<TaskView>;

    closed spec fn view(&self) -> Seq<TaskView> {
        self.tasks@.map_values(|t: Task| t@)
    }
}

impl Default for TaskGraph {
    fn default() -> (g: Self)
        ensures
            g@ == Seq::<TaskView>::empty(),
            g.wf(),
    {
        TaskGraph::new()
    }
}

impl TaskGraph {
    /// The graph invariant: unique identifiers, dependencies point backwards.
    pub open spec fn wf(&self) -> bool {
        graph_wf(self@)
    }

    /// An empty graph.
    pub fn new() -> (g: Self)
        ensures
            g@ == Seq::<TaskView>::empty(),
            g.wf(),
    {
        let g = TaskGraph { tasks: Vec::new() };
        assert(g@ =~= Seq::<TaskView>::empty());
        g
    }

    /// Number of tasks.
    pub fn len(&self) -> (n: usize)
        ensures
            n == self@.len(),
    {
        self.tasks.len()
    }

    /// Position of the task with identifier `id`.
    fn find(&self, id: TaskId) -> (r: Option<usize>)
        requires
            self.wf(),
        ensures
            match r {
                Some(i) => i < self@.len() && self@[i as int].id == id && index_of(self@, id) == i
                    && has_id(self@, id),
                None => !has_id(self@, id),
            },
    {
        let mut i: usize = 0;
        while i < self.tasks.len()
            invariant
                i <= self.tasks.len(),
                self.wf(),
                forall|j: int| 0 <= j < i ==> #[trigger] self@[j].id != id,
            decreases self.tasks.len() - i,
        {
            if self.tasks[i].id == id {
                proof {
                    lemma_index_of_unique(self@, id, i as int);
                }
                return Some(i);
            }
            i += 1;
        }
        None
    }

    /// Adds a pending task. Its identifier must be new, its dependencies must
    /// name tasks already in the graph (not the task itself), and the graph
    /// with the task added must have no dependency cycle.
    pub fn add_task(&mut self, id: TaskId, command: String, dependencies: Vec<TaskId>) -> (r: Result<(), GraphError>)
        requires
            old(self).wf(),
        ensures
            final(self).wf(),
            match r {
                Ok(()) => {
                    &&& !has_id(old(self)@, id)
                    &&& forall|k: int|
                        0 <= k < dependencies@.len() ==> !bad_dependency(old(self)@, id, #[trigger] dependencies@[k])
                    &&& !has_cycle(old(self)@.push(new_task(id, command@, dependencies@)))
                    &&& final(self)@ == old(self)@.push(new_task(id, command@, dependencies@))
                },
                Err(GraphError::DuplicateTask(t)) => {
                    &&& t == id
                    &&& has_id(old(self)@, id)
                    &&& final(self)@ == old(self)@
                },
                Err(GraphError::MissingDependency { task, dependency }) => {
                    &&& task == id
                    &&& !has_id(old(self)@, id)
                    &&& final(self)@ == old(self)@
                    &&& exists|k: int|
                        0 <= k < dependencies@.len() && dependencies@[k] == dependency && bad_dependency(
                            old(self)@,
                            id,
                            dependency,
                        ) && forall|k2: int|
                            0 <= k2 < k ==> !bad_dependency(old(self)@, id, #[trigger] dependencies@[k2])
                },
                Err(GraphError::CycleDetected) => {
                    &&& !has_id(old(self)@, id)
                    &&& forall|k: int|
                        0 <= k < dependencies@.len() ==> !bad_dependency(old(self)@, id, #[trigger] dependencies@[k])
                    &&& has_cycle(old(self)@.push(new_task(id, command@, dependencies@)))
                    &&& final(self)@ == old(self)@
                },
            },
    {
        if self.find(id).is_some() {
            return Err(GraphError::DuplicateTask(id));
        }
        let mut k: usize = 0;
        while k < dependencies.len()
            invariant
                k <= dependencies.len(),
                self.wf(),
                self@ == old(self)@,
                !has_id(self@, id),
                forall|k2: int| 0 <= k2 < k ==> !bad_dependency(self@, id, #[trigger] dependencies@[k2]),
            decreases dependencies.len() - k,
        {
            let dependency = dependencies[k];
            if dependency == id || self.find(dependency).is_none() {
                return Err(GraphError::MissingDependency { task: id, dependency });
            }
            k += 1;
        }
        let ghost before = self@;
        let task = Task { id, command, dependencies, state: TaskState::Pending };
        self.tasks.push(task);
        proof {
            assert(self@ =~= before.push(new_task(id, task.command@, task.dependencies@)));
            let n = before.len() as int;
            assert forall|i: int, j: int|
                0 <= i < self@.len() && 0 <= j < self@.len() && i != j implies #[trigger] self@[i].id
                != #[trigger] self@[j].id by {
                if i == n {
                    assert(before[j].id == self@[j].id);
                } else if j == n {
                    assert(before[i].id == self@[i].id);
                } else {
                    assert(before[i].id == self@[i].id && before[j].id == self@[j].id);
                }
            }
        }
        if self.has_cycle() {
            self.tasks.pop();
            assert(self@ =~= before);
            return Err(GraphError::CycleDetected);
        }
        Ok(())
    }

    /// Whether the dependency relation has a cycle: tasks are marked one at a
    /// time, each once all the dependencies it has in the graph are marked;
    /// the graph has a cycle exactly when some task is never marked.
    fn has_cycle(&self) -> (r: bool)
        requires
            self.wf(),
        ensures
            r == has_cycle(self@),
    {
        let n = self.tasks.len();
        let mut done: Vec<bool> = Vec::new();
        let mut i: usize = 0;
        while i < n
            invariant
                i <= n,
                done@.len() == i,
                forall|j: int| 0 <= j < i ==> !done@[j],
            decreases n - i,
        {
            done.push(false);
            i += 1;
        }
        let ghost mut rank: Seq<nat> = Seq::new(n as nat, |j: int| 0nat);
        let ghost mut stamp: nat = 0;
        loop
            invariant
                self.wf(),
                n == self@.len(),
                done@.len() == n,
                ranked(self@, done@, rank),
                forall|j: int| 0 <= j < n && done@[j] ==> rank[j] < stamp,
            decreases unmarked_count(done@),
        {
            match self.find_eligible(&done) {
                Some(j) => {
                    let ghost old_done = done@;
                    let ghost old_rank = rank;
                    proof {
                        rank = rank.update(j as int, stamp);
                        stamp = stamp + 1;
                    }
                    done.set(j, true);
                    proof {
                        assert(done@ == old_done.update(j as int, true));
                        lemma_mark_decreases(old_done, j as int);
                        let g = self@;
                        assert forall|x: int, k: int|
                            0 <= x < g.len() && done@[x] && 0 <= k < g[x].dependencies.len() && has_id(
                                g,
                                #[trigger] g[x].dependencies[k],
                            ) implies done@[index_of(g, g[x].dependencies[k])] && rank[index_of(
                            g,
                            g[x].dependencies[k],
                        )] < rank[x] by {
                            let q = index_of(g, g[x].dependencies[k]);
                            if x == j {
                                assert(old_done[q]);
                            } else {
                                assert(old_done[x]);
                                assert(old_done[q] && old_rank[q] < old_rank[x]);
                            }
                        }
                    }
                },
                None => {
                    match first_unmarked(&done) {
                        Some(s) => {
                            proof {
                                lemma_stuck_has_cycle(self@, done@, s as int);
                            }
                            return true;
                        },
                        None => {
                            proof {
                                lemma_ranked_acyclic(self@, done@, rank);
                            }
                            return false;
                        },
                    }
                },
            }
        }
    }

    /// The first task that is unmarked and whose dependencies in the graph are all marked.
    fn find_eligible(&self, done: &Vec<bool>) -> (r: Option<usize>)
        requires
            self.wf(),
            done@.len() == self@.len(),
        ensures
            match r {
                Some(j) => j < self@.len() && eligible(self@, done@, j as int),
                None => forall|x: int| 0 <= x < self@.len() ==> !eligible(self@, done@, x),
            },
    {
        let mut j: usize = 0;
        while j < self.tasks.len()
            invariant
                j <= self.tasks.len(),
                self.wf(),
                done@.len() == self@.len(),
                forall|x: int| 0 <= x < j ==> !eligible(self@, done@, x),
            decreases self.tasks.len() - j,
        {
            if self.is_eligible(done, j) {
                return Some(j);
            }
            j += 1;
        }
        None
    }

    /// Whether task `j` is unmarked and all its dependencies in the graph are marked.
    fn is_eligible(&self, done: &Vec<bool>, j: usize) -> (r: bool)
        requires
            self.wf(),
            done@.len() == self@.len(),
            j < self@.len(),
        ensures
            r == eligible(self@, done@, j as int),
    {
        if done[j] {
            return false;
        }
        let deps = &self.tasks[j].dependencies;
        assert(deps@ == self@[j as int].dependencies);
        let mut k: usize = 0;
        while k < deps.len()
            invariant
                k <= deps.len(),
                self.wf(),
                done@.len() == self@.len(),
                j < self@.len(),
                deps@ == self@[j as int].dependencies,
                forall|k2: int|
                    0 <= k2 < k && has_id(self@, #[trigger] deps@[k2]) ==> done@[index_of(self@, deps@[k2])],
            decreases deps.len() - k,
        {
            match self.find(deps[k]) {
                Some(q) => {
                    if !done[q] {
                        return false;
                    }
                },
                None => {},
            }
            k += 1;
        }
        true
    }

    /// The task with identifier `id`.
    pub fn task(&self, id: TaskId) -> (r: Option<&Task>)
        requires
            self.wf(),
        ensures
            match r {
                Some(t) => has_id(self@, id) && t@ == self@[index_of(self@, id)] && t.id == id,
                None => !has_id(self@, id),
            },
    {
        match self.find(id) {
            Some(i) => Some(&self.tasks[i]),
            None => None,
        }
    }

    /// Mutable access to the task with identifier `id`; the graph stays well
    /// formed as long as the task keeps its identifier.
    pub fn task_mut(&mut self, id: TaskId) -> (r: Option<&mut Task>)
        requires
            old(self).wf(),
        ensures
            match r {
                Some(t) => {
                    &&& has_id(old(self)@, id)
                    &&& (*t)@ == old(self)@[index_of(old(self)@, id)]
                    &&& final(self)@ == old(self)@.update(index_of(old(self)@, id), (*final(t))@)
                    &&& (*final(t)).id == id ==> final(self).wf()
                },
                None => !has_id(old(self)@, id) && final(self)@ == old(self)@,
            },
    {
        match self.find(id) {
            Some(i) => {
                Some(&mut self.tasks[i])
            },
            None => None,
        }
    }

    /// Sets the state of the task with identifier `id`; false when there is none.
    pub fn set_state(&mut self, id: TaskId, state: TaskState) -> (found: bool)
        requires
            old(self).wf(),
        ensures
            final(self).wf(),
            found == has_id(old(self)@, id),
            found ==> final(self)@ == old(self)@.update(
                index_of(old(self)@, id),
                TaskView { state, ..old(self)@[index_of(old(self)@, id)] },
            ),
            !found ==> final(self)@ == old(self)@,
    {
        match self.find(id) {
            Some(i) => {
                let ghost before = self@;
                let mut t = self.tasks.remove(i);
                t.state = state;
                self.tasks.insert(i, t);
                proof {
                    let after = before.update(i as int, TaskView { state, ..before[i as int] });
                    assert(self@ =~= after);
                    lemma_same_shape_wf(before, self@);
                }
                true
            },
            None => false,
        }
    }

    /// Starts every runnable task; returns their identifiers and commands, in graph order.
    #[verifier::rlimit(30)]
    #[verifier::spinoff_prover]
    pub fn start_runnable(&mut self) -> (r: Vec<(TaskId, String)>)
        requires
            old(self).wf(),
        ensures
            final(self).wf(),
            final(self)@ == started(old(self)@),
            r@.len() == runnable_ids(old(self)@).len(),
            forall|k: int|
                0 <= k < r@.len() ==> (#[trigger] r@[k]).0 == runnable_ids(old(self)@)[k] && r@[k].1@ == old(
                    self,
                )@[index_of(old(self)@, r@[k].0)].command,
    {
        let ghost g0 = self@;
        let mut out: Vec<(TaskId, String)> = Vec::new();
        let mut i: usize = 0;
        while i < self.tasks.len()
            invariant
                i <= self.tasks.len(),
                graph_wf(g0),
                only_started(g0, self@),
                forall|j: int| 0 <= j < i ==> #[trigger] self@[j] == started(g0)[j],
                forall|j: int| i <= j < g0.len() ==> #[trigger] self@[j] == g0[j],
                out@.len() == runnable_upto(g0, i as int).len(),
                forall|k: int|
                    0 <= k < out@.len() ==> (#[trigger] out@[k]).0 == runnable_upto(g0, i as int)[k] && out@[k].1@
                        == g0[index_of(g0, out@[k].0)].command,
            decreases self.tasks.len() - i,
        {
            proof {
                lemma_state_change_keeps_wf(g0, self@);
                lemma_only_started_keeps_runnable(g0, self@, self@[i as int]);
            }
            let ghost before = self@;
            let runnable = self.tasks[i].state == TaskState::Pending && self.dependencies_succeeded(&self.tasks[i]);
            assert(runnable == is_runnable(g0, g0[i as int]));
            if runnable {
                let id = self.tasks[i].id;
                let command = self.tasks[i].command.clone();
                let mut t = self.tasks.remove(i);
                t.state = TaskState::Running;
                self.tasks.insert(i, t);
                proof {
                    assert(self@ =~= before.update(i as int, TaskView { state: TaskState::Running, ..before[i as int] }));
                    lemma_index_of_unique(g0, id, i as int);
                }
                out.push((id, command));
            }
            proof {
                assert forall|j: int| 0 <= j < g0.len() implies #[trigger] self@[j] == g0[j] || (g0[j].state
                    == TaskState::Pending && self@[j] == TaskView { state: TaskState::Running, ..g0[j] }) by {
                    if j != i {
                        assert(self@[j] == before[j]);
                    }
                }
            }
            i += 1;
        }
        proof {
            assert(self@ =~= started(g0));
            lemma_only_started_keeps_runnable(g0, self@, new_task(0, Seq::empty(), Seq::empty()));
            lemma_state_change_keeps_wf(g0, self@);
            assert(g0.take(g0.len() as int) =~= g0);
        }
        out
    }

    /// Identifiers of the runnable tasks, in graph order.
    pub fn runnable(&self) -> (r: Vec<TaskId>)
        requires
            self.wf(),
        ensures
            r@ == runnable_ids(self@),
    {
        let mut out: Vec<TaskId> = Vec::new();
        let mut i: usize = 0;
        while i < self.tasks.len()
            invariant
                i <= self.tasks.len(),
                self.wf(),
                out@ == runnable_upto(self@, i as int),
            decreases self.tasks.len() - i,
        {
            let task = &self.tasks[i];
            if task.state == TaskState::Pending && self.dependencies_succeeded(task) {
                out.push(task.id);
            }
            i += 1;
        }
        out
    }

    fn dependencies_succeeded(&self, task: &Task) -> (r: bool)
        requires
            self.wf(),
        ensures
            r == forall|k: int| 0 <= k < task@.dependencies.len() ==> dep_succeeded(self@, #[trigger] task@.dependencies[k]),
    {
        let mut k: usize = 0;
        while k < task.dependencies.len()
            invariant
                k <= task.dependencies.len(),
                self.wf(),
                forall|k2: int| 0 <= k2 < k ==> dep_succeeded(self@, #[trigger] task@.dependencies[k2]),
            decreases task.dependencies.len() - k,
        {
            match self.find(task.dependencies[k]) {
                Some(j) => {
                    if self.tasks[j].state != TaskState::Succeeded {
                        assert(!dep_succeeded(self@, task@.dependencies[k as int]));
                        return false;
                    }
                },
                None => {
                    assert(!dep_succeeded(self@, task@.dependencies[k as int]));
                    return false;
                },
            }
            k += 1;
        }
        true
    }

    /// Identifiers of the pending tasks, in graph order.
    pub fn pending(&self) -> (r: Vec<TaskId>)
        ensures
            r@ == pending_ids(self@),
    {
        self.ids_in_state(TaskState::Pending)
    }

    /// Identifiers of the tasks in `state`, in graph order.
    pub fn ids_in_state(&self, state: TaskState) -> (r: Vec<TaskId>)
        ensures
            r@ == ids_in_state_upto(self@, state, self@.len() as int),
    {
        let mut out: Vec<TaskId> = Vec::new();
        let mut i: usize = 0;
        while i < self.tasks.len()
            invariant
                i <= self.tasks.len(),
                out@ == ids_in_state_upto(self@, state, i as int),
            decreases self.tasks.len() - i,
        {
            if self.tasks[i].state == state {
                out.push(self.tasks[i].id);
            }
            i += 1;
        }
        out
    }

    /// Identifiers of all tasks, in graph order.
    pub fn task_ids(&self) -> (r: Vec<TaskId>)
        ensures
            r@ == all_ids(self@),
    {
        let mut out: Vec<TaskId> = Vec::new();
        let mut i: usize = 0;
        while i < self.tasks.len()
            invariant
                i <= self.tasks.len(),
                out@ =~= all_ids(self@).take(i as int),
            decreases self.tasks.len() - i,
        {
            out.push(self.tasks[i].id);
            i += 1;
        }
        assert(all_ids(self@).take(self@.len() as int) =~= all_ids(self@));
        out
    }

    /// Blocked-dependency propagation: pending tasks with a failed or blocked
    /// dependency become blocked, transitively.
    pub fn reconcile_blocked(&mut self)
        requires
            old(self).wf(),
        ensures
            final(self).wf(),
            final(self)@ == reconciled(old(self)@),
    {
        loop
            invariant
                self.wf(),
                reconciled(self@) == reconciled(old(self)@),
            decreases pending_count(self@),
        {
            let ghost prev = self@;
            let flags = self.blocking_flags();
            let mut any = false;
            let n = self.tasks.len();
            let mut i: usize = 0;
            while i < n
                invariant
                    n == self.tasks.len(),
                    n == prev.len(),
                    i <= n,
                    flags@.len() == n,
                    graph_wf(prev),
                    forall|j: int|
                        0 <= j < n ==> #[trigger] flags@[j] == (reconcile_one(prev, prev[j]) != prev[j]),
                    forall|j: int| 0 <= j < i ==> #[trigger] self@[j] == reconcile_one(prev, prev[j]),
                    forall|j: int| i <= j < n ==> #[trigger] self@[j] == prev[j],
                    any == exists|j: int| 0 <= j < i && #[trigger] flags@[j],
                decreases n - i,
            {
                if flags[i] {
                    let ghost before = self@;
                    let mut t = self.tasks.remove(i);
                    t.state = TaskState::Blocked;
                    self.tasks.insert(i, t);
                    assert(self@ =~= before.update(i as int, TaskView { state: TaskState::Blocked, ..before[i as int] }));
                    any = true;
                }
                i += 1;
            }
            proof {
                assert(self@ =~= block_step(prev));
                lemma_step_blocks_pending(prev);
                assert(same_shape(prev, self@)) by {
                    assert forall|j: int| 0 <= j < prev.len() implies #[trigger] prev[j].id == self@[j].id
                        && prev[j].dependencies == self@[j].dependencies && prev[j].command == self@[j].command by {
                        assert(self@[j] == block_step(prev)[j]);
                    }
                }
                lemma_same_shape_wf(prev, self@);
            }
            if !any {
                proof {
                    assert(block_step(prev) =~= prev) by {
                        assert forall|j: int| 0 <= j < prev.len() implies block_step(prev)[j] == prev[j] by {
                            assert(!flags@[j]);
                        }
                    }
                }
                return;
            }
            proof {
                let j = choose|j: int| 0 <= j < n && #[trigger] flags@[j];
                assert(block_step(prev)[j] != prev[j]);
                lemma_only_blocked_count(prev, block_step(prev));
            }
        }
    }

    /// For each task, whether one propagation step blocks it.
    fn blocking_flags(&self) -> (r: Vec<bool>)
        requires
            self.wf(),
        ensures
            r@.len() == self@.len(),
            forall|j: int| 0 <= j < self@.len() ==> #[trigger] r@[j] == (reconcile_one(self@, self@[j]) != self@[j]),
    {
        let mut out: Vec<bool> = Vec::new();
        let mut i: usize = 0;
        while i < self.tasks.len()
            invariant
                i <= self.tasks.len(),
                self.wf(),
                out@.len() == i,
                forall|j: int| 0 <= j < i ==> #[trigger] out@[j] == (reconcile_one(self@, self@[j]) != self@[j]),
            decreases self.tasks.len() - i,
        {
            let flag = self.tasks[i].state == TaskState::Pending && self.has_stopped_dependency(i);
            proof {
                let t = self@[i as int];
                if reconcile_one(self@, t) != t {
                    assert(t.state == TaskState::Pending);
                } else if t.state == TaskState::Pending {
                    assert(!(exists|k: int| 0 <= k < t.dependencies.len() && dep_stopped(self@, #[trigger] t.dependencies[k]))) by {
                        if exists|k: int| 0 <= k < t.dependencies.len() && dep_stopped(self@, #[trigger] t.dependencies[k]) {
                            assert(reconcile_one(self@, t).state == TaskState::Blocked);
                        }
                    }
                }
            }
            out.push(flag);
            i += 1;
        }
        out
    }

    /// Whether task `i` has a dependency that failed or is blocked.
    fn has_stopped_dependency(&self, i: usize) -> (r: bool)
        requires
            self.wf(),
            i < self@.len(),
        ensures
            r == exists|k: int|
                0 <= k < self@[i as int].dependencies.len() && dep_stopped(
                    self@,
                    #[trigger] self@[i as int].dependencies[k],
                ),
    {
        let deps = &self.tasks[i].dependencies;
        assert(deps@ == self@[i as int].dependencies);
        let mut k: usize = 0;
        while k < deps.len()
            invariant
                k <= deps.len(),
                self.wf(),
                i < self@.len(),
                deps@ == self@[i as int].dependencies,
                forall|k2: int| 0 <= k2 < k ==> !dep_stopped(self@, #[trigger] deps@[k2]),
            decreases deps.len() - k,
        {
            let d = deps[k];
            match self.find(d) {
                Some(j) => {
                    let st = self.tasks[j].state;
                    if st == TaskState::Failed || st == TaskState::Blocked {
                        assert(self@[j as int].id == d);
                        assert(dep_stopped(self@, deps@[k as int]));
                        return true;
                    }
                    assert forall|x: int| 0 <= x < self@.len() && #[trigger] self@[x].id == d implies !(
                    self@[x].state == TaskState::Failed || self@[x].state == TaskState::Blocked) by {
                        lemma_index_of_unique(self@, d, x);
                    }
                },
                None => {},
            }
            k += 1;
        }
        false
    }
}

/// Changing only the states of tasks keeps a graph well formed.
pub proof fn lemma_state_change_keeps_wf(before: Seq<TaskView>, after: Seq<TaskView>)
    requires
        graph_wf(before),
        same_shape(before, after),
    ensures
        graph_wf(after),
{
    lemma_same_shape_wf(before, after);
}

/// Propagating blocked dependencies only turns pending tasks into blocked ones.
pub proof fn lemma_reconcile_only_blocks_pending(tasks: Seq<TaskView>)
    ensures
        same_shape(tasks, reconciled(tasks)),
        forall|i: int|
            0 <= i < tasks.len() ==> (#[trigger] reconciled(tasks)[i]).state == tasks[i].state || (
            tasks[i].state == TaskState::Pending && reconciled(tasks)[i].state == TaskState::Blocked),
{
    lemma_reconciled_only_blocked(tasks);
    let r = reconciled(tasks);
    assert forall|i: int| 0 <= i < tasks.len() implies #[trigger] tasks[i].id == r[i].id && tasks[i].dependencies
        == r[i].dependencies && tasks[i].command == r[i].command by {
        assert(r[i] == tasks[i] || r[i] == TaskView { state: TaskState::Blocked, ..tasks[i] });
    }
    assert forall|i: int| 0 <= i < tasks.len() implies (#[trigger] r[i]).state == tasks[i].state || (tasks[i].state
        == TaskState::Pending && r[i].state == TaskState::Blocked) by {
        assert(r[i] == tasks[i] || r[i] == TaskView { state: TaskState::Blocked, ..tasks[i] });
    }
}

// ---------------------------------------------------------------------------
// The scheduler
// ---------------------------------------------------------------------------

/// FIFO queue of runnable task identifiers.
#[derive(Debug)]
pub struct Scheduler {
    queue: VecDeque<TaskId>,
}

impl View for Scheduler {
    type V = Seq<TaskId>;

    closed spec fn view(&self) -> Seq<TaskId> {
        self.queue@
    }
}

impl Default for Scheduler {
    fn default() -> (s: Self)
        ensures
            s@ == Seq::<TaskId>::empty(),
    {
        Scheduler::new()
    }
}

impl Scheduler {
    /// An empty queue.
    pub fn new() -> (s: Self)
        ensures
            s@ == Seq::<TaskId>::empty(),
    {
        Scheduler { queue: VecDeque::new() }
    }

    /// Replaces the queue with the graph's runnable tasks, in graph order.
    pub fn refresh(&mut self, graph: &TaskGraph)
        requires
            graph.wf(),
        ensures
            final(self)@ == runnable_ids(graph@),
    {
        self.queue.clear();
        let runnable = graph.runnable();
        let mut i: usize = 0;
        while i < runnable.len()
            invariant
                i <= runnable.len(),
                runnable@ == runnable_ids(graph@),
                self.queue@ =~= runnable@.take(i as int),
            decreases runnable.len() - i,
        {
            self.queue.push_back(runnable[i]);
            i += 1;
        }
        assert(runnable@.take(runnable@.len() as int) =~= runnable@);
    }

    /// Takes the task at the front of the queue.
    pub fn next(&mut self) -> (r: Option<TaskId>)
        ensures
            old(self)@.len() == 0 ==> r is None && final(self)@ == old(self)@,
            old(self)@.len() > 0 ==> r == Some(old(self)@[0]) && final(self)@ == old(self)@.drop_first(),
    {
        self.queue.pop_front()
    }

    /// Number of queued tasks.
    pub fn queued(&self) -> (n: usize)
        ensures
            n == self@.len(),
    {
        self.queue.len()
    }
}

} // verus!

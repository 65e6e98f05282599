# forge

A dependency-aware task execution engine whose logic is verified with Verus.

Tasks form a graph with one task per identifier; a task is added only when its
dependencies are in the graph and the graph with it stays free of dependency
cycles. A coordinator runs the graph on remote
workers in rounds: each round refreshes worker health, blocks the tasks whose
dependencies failed, and assigns every runnable task to a healthy worker in
round-robin order; each answer either completes the task, retries it while
attempts remain, or fails it, and only an unreachable worker is marked
unhealthy. Coordinator and workers speak a small binary protocol of framed
messages.

## Layout

- `src/` — the verified library:
  - `graph` — tasks, the task graph and the scheduler queue;
  - `wire`, `text` — big-endian integers, UTF-8 and decimal text;
  - `protocol` — frames, task requests, task results and heartbeats;
  - `registry` — worker clients and worker health;
  - `executor` — the round-by-round decisions of a distributed execution;
  - `client` — the frames a coordinator sends and how it reads the answers;
  - `worker` — a worker's concurrency gate, timeout decisions, reports and answers;
  - `journal`, `journaled` — the execution journal and the executor that keeps it;
  - `store` — job records and their file format;
  - `cache`, `cached` — content addresses, cache keys, the cache index and the
    executor that skips cached tasks;
  - `metrics` — execution counters and their Prometheus text.
- `tests/` — tests of the library.
- `app/` — the program around it: sockets, threads, child processes, files and
  the clock. It hands each observation to the library and does what the
  library decides.

Every law the library keeps is a proof function next to the code it speaks of,
for example `graph::lemma_reconcile_only_blocks_pending`,
`protocol::lemma_frame_round_trip`, `journal::lemma_journal_replays_appended_events`,
`store::lemma_store_round_trip` and `cache::lemma_index_round_trip`.

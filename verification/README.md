# zero_pool

The verified core of a FIFO thread pool with a single global queue.

- `src/` (the verified library): the queue of task batches (`queue.rs`,
  `task_batch.rs`), the epoch arithmetic that decides when an unlinked batch
  may be freed (`epoch.rs`, `retired_list.rs`), the completion counters of
  scopes and futures (`scope.rs`, `task_future.rs`), and a plain value
  wrapper (`padded_type.rs`).
- `app/`: the thread pool itself (`ZeroPool`, `Scope`,
  `global_pool`), which holds the queue behind a mutex, spawns and parks the
  workers, runs the task functions and acts on what the library decides.
- `tests/`: tests of the library on concrete values.

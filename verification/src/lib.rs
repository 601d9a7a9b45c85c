//! The core of a FIFO thread pool with a single global queue: the queue of
//! task batches that workers claim parameters from in submission order, the
//! epoch bookkeeping that decides when unlinked batches may be freed, and
//! the completion counters that scopes and futures wait on.
//!
//! Threads, parking and the task functions themselves stay with the caller:
//! the library decides, the caller acts (runs a claimed task, unparks the
//! workers a submission names, parks a worker that is told to).

pub mod epoch;
pub mod padded_type;
pub mod queue;
pub mod retired_list;
pub mod scope;
pub mod task_batch;
pub mod task_future;

pub use epoch::{
    epoch_is_older, is_reclaimable, mask_epoch, min_epoch, EPOCH_MASK, EPOCH_MASK_HALF,
    NOT_IN_CRITICAL,
};
pub use padded_type::PaddedType;
pub use queue::{Claim, Queue, WaitOutcome};
pub use retired_list::RetiredList;
pub use scope::Scope;
pub use task_batch::TaskBatch;
pub use task_future::{TaskFuture, TimedWait};

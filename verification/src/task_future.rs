use vstd::prelude::*;

verus! {

/// What a thread waiting on a future with a timeout is to do next.
#[derive(Clone, Copy, Debug, PartialEq, Eq)]
pub enum TimedWait {
    /// Every task has finished.
    Complete,
    /// The timeout has passed first.
    TimedOut,
    /// Park for at most this many nanoseconds, then look again.
    ParkFor(u128),
}

/// Tracks the completion of submitted tasks: the number of tasks still
/// running. The thread that waits on it is woken when the count reaches
/// zero.
pub struct TaskFuture {
    count: usize,
}

impl TaskFuture {
    /// The number of tasks not yet finished.
    pub closed spec fn remaining(&self) -> usize {
        self.count
    }

    /// A future for `task_count` tasks.
    pub fn new(task_count: usize) -> (future: Self)
        ensures
            future.remaining() == task_count,
    {
        TaskFuture { count: task_count }
    }

    /// The number of tasks not yet finished.
    pub fn remaining_tasks(&self) -> (n: usize)
        ensures
            n == self.remaining(),
    {
        self.count
    }

    /// Whether all tasks have finished.
    pub fn is_complete(&self) -> (r: bool)
        ensures
            r == (self.remaining() == 0),
    {
        self.count == 0
    }

    /// Records that `count` more tasks finished; returns whether they were
    /// the last ones, so that the waiting thread is to be woken. The counter
    /// wraps around below zero.
    pub fn complete_many(&mut self, count: usize) -> (wake: bool)
        ensures
            final(self).remaining() == vstd::wrapping::usize_specs::wrapping_sub(
                old(self).remaining(),
                count,
            ),
            wake == (old(self).remaining() == count),
            0 < count <= old(self).remaining() ==> final(self).remaining() == old(self).remaining()
                - count && (wake <==> final(self).remaining() == 0),
    {
        let previous = self.count;
        self.count = previous.wrapping_sub(count);
        previous == count
    }

    /// One round of waiting with a timeout of `timeout_nanos`, of which
    /// `elapsed_nanos` have passed: done if every task has finished, timed
    /// out if the time is up, else park for the time that is left.
    pub fn wait_timeout_step(&self, elapsed_nanos: u128, timeout_nanos: u128) -> (step: TimedWait)
        ensures
            self.remaining() == 0 ==> step is Complete,
            self.remaining() != 0 && elapsed_nanos >= timeout_nanos ==> step is TimedOut,
            self.remaining() != 0 && elapsed_nanos < timeout_nanos ==> step == TimedWait::ParkFor(
                (timeout_nanos - elapsed_nanos) as u128,
            ),
    {
        if self.is_complete() {
            return TimedWait::Complete;
        }
        if elapsed_nanos >= timeout_nanos {
            return TimedWait::TimedOut;
        }
        TimedWait::ParkFor(timeout_nanos.saturating_sub(elapsed_nanos))
    }
}

} // verus!

use vstd::prelude::*;

use crate::queue::{lemma_serves_unchanged, pushed, serves, Queue};

verus! {

/// A scope for submitting tasks that borrow from the caller's stack: it
/// counts the tasks submitted through it that have not finished, and the
/// scope does not end before that count is zero.
pub struct Scope {
    counter: usize,
}

impl Scope {
    /// The number of tasks submitted in this scope that have not finished.
    pub closed spec fn outstanding(&self) -> usize {
        self.counter
    }

    /// A scope with nothing submitted.
    pub fn new() -> (scope: Self)
        ensures
            scope.outstanding() == 0,
    {
        Scope { counter: 0 }
    }

    /// Submits `param_count` parameters of `param_stride` bytes each, on
    /// each of which `job` is to run, to `queue` within this scope; returns
    /// the workers to unpark. The counter wraps around at `usize::MAX`.
    pub fn run<J>(
        &mut self,
        queue: &mut Queue<J>,
        job: J,
        param_stride: usize,
        param_count: usize,
    ) -> (woken: Vec<usize>)
        requires
            old(queue).wf(),
            old(queue).next_id() < u64::MAX,
            param_stride * param_count <= usize::MAX,
        ensures
            final(queue).wf(),
            final(self).outstanding() == vstd::wrapping::usize_specs::wrapping_add(
                old(self).outstanding(),
                param_count,
            ),
            pushed(*old(queue), *final(queue), job, param_stride, param_count, woken@),
            serves(*old(queue), *final(queue), None),
    {
        if param_count == 0 {
            proof {
                lemma_serves_unchanged(*old(queue), *queue);
            }
            return Vec::new();
        }
        self.counter = self.counter.wrapping_add(param_count);
        queue.enqueue(job, param_stride, param_count)
    }

    /// The number of tasks submitted in this scope that have not finished.
    pub fn outstanding_count(&self) -> (n: usize)
        ensures
            n == self.outstanding(),
    {
        self.counter
    }

    /// Whether every task submitted in this scope has finished.
    pub fn is_complete(&self) -> (r: bool)
        ensures
            r == (self.outstanding() == 0),
    {
        self.counter == 0
    }

    /// Records that `count` tasks of this scope finished; returns whether
    /// they were the last outstanding ones, so that the waiting thread is to
    /// be woken. The counter wraps around below zero.
    pub fn complete_many(&mut self, count: usize) -> (wake: bool)
        ensures
            final(self).outstanding() == vstd::wrapping::usize_specs::wrapping_sub(
                old(self).outstanding(),
                count,
            ),
            wake == (old(self).outstanding() == count),
            0 < count <= old(self).outstanding() ==> final(self).outstanding() == old(self).outstanding() - count && (wake <==> final(self).outstanding() == 0),
    {
        let previous = self.counter;
        self.counter = previous.wrapping_sub(count);
        previous == count
    }
}

} // verus!

use vstd::prelude::*;

verus! {

/// A batch of tasks: one job run on each of `param_count` parameters that
/// lie `param_stride` bytes apart. Workers claim parameters one at a time,
/// in index order, by advancing `next_index`; parameter `i` starts at byte
/// offset `i * param_stride`.
pub struct TaskBatch<J> {
    id: u64,
    job: J,
    next_index: usize,
    param_count: usize,
    param_stride: usize,
    retired_epoch: usize,
}

impl<J> TaskBatch<J> {
    /// The batch's position in the order of submission.
    pub closed spec fn id(&self) -> u64 {
        self.id
    }

    /// What the workers run on each parameter.
    pub closed spec fn job(&self) -> J {
        self.job
    }

    /// The index of the next parameter to hand out.
    pub closed spec fn next_index(&self) -> usize {
        self.next_index
    }

    /// The number of parameters.
    pub closed spec fn count(&self) -> usize {
        self.param_count
    }

    /// The size of one parameter.
    pub closed spec fn stride(&self) -> usize {
        self.param_stride
    }

    /// The epoch in which the batch left the queue.
    pub closed spec fn retired_at(&self) -> usize {
        self.retired_epoch
    }

    /// The parameters fit in memory: every byte offset fits in a word.
    pub open spec fn wf(&self) -> bool {
        self.stride() * self.count() <= usize::MAX
    }

    /// The indices of the parameters still to be handed out, in order.
    pub open spec fn pending(&self) -> Seq<int> {
        let next = self.next_index() as int;
        let n = if next < self.count() {
            self.count() - next
        } else {
            0
        };
        Seq::new(n as nat, |k: int| next + k)
    }

    /// The next claim does not wrap the index counter around.
    pub open spec fn can_advance(&self) -> bool {
        self.next_index() < usize::MAX
    }

    /// A fresh batch; no parameter of it has been handed out.
    pub fn new(id: u64, job: J, param_stride: usize, param_count: usize) -> (batch: Self)
        requires
            param_stride * param_count <= usize::MAX,
        ensures
            batch.wf(),
            batch.id() == id,
            batch.job() == job,
            batch.next_index() == 0,
            batch.count() == param_count,
            batch.stride() == param_stride,
            batch.retired_at() == 0,
            batch.pending() == Seq::new(param_count as nat, |k: int| k),
    {
        let batch = TaskBatch {
            id,
            job,
            next_index: 0,
            param_count,
            param_stride,
            retired_epoch: 0,
        };
        proof {
            assert(batch.pending() =~= Seq::new(param_count as nat, |k: int| k));
        }
        batch
    }

    /// The batch's position in the order of submission.
    pub fn get_id(&self) -> (id: u64)
        ensures
            id == self.id(),
    {
        self.id
    }

    /// The index of the next parameter to hand out.
    pub fn get_next_index(&self) -> (i: usize)
        ensures
            i == self.next_index(),
    {
        self.next_index
    }

    /// The epoch in which the batch left the queue.
    pub fn get_retired_epoch(&self) -> (epoch: usize)
        ensures
            epoch == self.retired_at(),
    {
        self.retired_epoch
    }

    /// Records the epoch in which the batch left the queue.
    pub fn set_retired_epoch(&mut self, epoch: usize)
        ensures
            final(self).retired_at() == epoch,
            final(self).id() == old(self).id(),
            final(self).job() == old(self).job(),
            final(self).next_index() == old(self).next_index(),
            final(self).count() == old(self).count(),
            final(self).stride() == old(self).stride(),
    {
        self.retired_epoch = epoch;
    }

    /// Whether some parameter is still to be handed out.
    pub fn has_unclaimed_tasks(&self) -> (r: bool)
        ensures
            r == (self.next_index() < self.count()),
            r == (self.pending().len() > 0),
    {
        self.next_index < self.param_count
    }

    /// Claims the next parameter: returns its byte offset, or `None` once
    /// every parameter has been handed out. The index counter advances on
    /// every call, also when it returns `None` (wrapping around at
    /// `usize::MAX`).
    pub fn claim_next_param(&mut self) -> (r: Option<usize>)
        requires
            old(self).wf(),
        ensures
            final(self).wf(),
            final(self).next_index() == vstd::wrapping::usize_specs::wrapping_add(
                old(self).next_index(),
                1,
            ),
            r == (if old(self).next_index() < old(self).count() {
                Some((old(self).next_index() * old(self).stride()) as usize)
            } else {
                None::<usize>
            }),
            final(self).id() == old(self).id(),
            final(self).job() == old(self).job(),
            final(self).count() == old(self).count(),
            final(self).stride() == old(self).stride(),
            final(self).retired_at() == old(self).retired_at(),
            r matches Some(offset) ==> offset == old(self).next_index() * old(self).stride(),
            r is Some ==> old(self).pending() == seq![old(self).next_index() as int] + final(
                self).pending(),
            r is None ==> old(self).pending().len() == 0,
            r is None && old(self).can_advance() ==> final(self).pending().len() == 0,
    {
        let index = self.next_index;
        self.next_index = index.wrapping_add(1);
        if index >= self.param_count {
            return None;
        }
        proof {
            let s = self.param_stride as int;
            let c = self.param_count as int;
            let i = index as int;
            assert(i * s <= c * s) by (nonlinear_arith)
                requires
                    0 <= i < c,
                    s >= 0,
            ;
            assert(c * s == s * c) by (nonlinear_arith);
            assert(old(self).pending() =~= seq![index as int] + self.pending());
        }
        Some(index * self.param_stride)
    }
}

impl<J: Copy> TaskBatch<J> {
    /// What the workers run on each parameter.
    pub fn get_job(&self) -> (job: J)
        ensures
            job == self.job(),
    {
        self.job
    }
}

} // verus!

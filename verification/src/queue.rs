use core::ops::DerefMut;
use std::collections::VecDeque;
use vstd::prelude::*;

use crate::epoch::{
    epoch_modulus, lemma_epoch_constants, mask_epoch, min_epoch, oldest_in_use, EPOCH_MASK,
    NOT_IN_CRITICAL,
};
use crate::padded_type::PaddedType;
use crate::retired_list::RetiredList;
use crate::task_future::TaskFuture;
use crate::task_batch::TaskBatch;

verus! {

/// A parameter handed to a worker: the job to run, the batch it belongs to,
/// the parameter's index in the batch, and its byte offset.
pub struct Claim<J> {
    pub job: J,
    pub batch_id: u64,
    pub param_index: usize,
    pub byte_offset: usize,
}

/// What a worker looking for work is to do next.
#[derive(Clone, Copy, Debug, PartialEq, Eq)]
pub enum WaitOutcome {
    /// Tasks are waiting: go and claim one.
    Work,
    /// The pool is shutting down and no task is waiting: exit.
    Shutdown,
    /// Nothing to do: park until woken.
    Park,
}

/// The parameters of batch `b` still to be handed out, each named by the
/// batch's id and the parameter's byte offset.
pub open spec fn batch_pending<J>(b: TaskBatch<J>) -> Seq<(u64, int)> {
    b.pending().map_values(|offset: int| (b.id(), offset))
}

/// The parameters still to be handed out across `batches`, in order.
pub open spec fn pending_of<J>(batches: Seq<TaskBatch<J>>) -> Seq<(u64, int)>
    decreases batches.len(),
{
    if batches.len() == 0 {
        Seq::empty()
    } else {
        batch_pending(batches[0]) + pending_of(batches.drop_first())
    }
}

/// Appending a batch appends its pending parameters.
pub proof fn lemma_pending_of_push<J>(batches: Seq<TaskBatch<J>>, b: TaskBatch<J>)
    ensures
        pending_of(batches.push(b)) == pending_of(batches) + batch_pending(b),
    decreases batches.len(),
{
    if batches.len() == 0 {
        let rest = batches.push(b).drop_first();
        assert(rest =~= Seq::<TaskBatch<J>>::empty());
        assert(pending_of(rest) == Seq::<(u64, int)>::empty());
        assert(batches.push(b)[0] == b);
        assert(pending_of(batches) == Seq::<(u64, int)>::empty());
        assert(pending_of(batches.push(b)) =~= batch_pending(b));
    } else {
        assert(batches.push(b).drop_first() =~= batches.drop_first().push(b));
        lemma_pending_of_push(batches.drop_first(), b);
        assert(pending_of(batches.push(b)) =~= pending_of(batches) + batch_pending(b));
    }
}

proof fn lemma_pending_of_cons<J>(b: TaskBatch<J>, rest: Seq<TaskBatch<J>>)
    ensures
        pending_of(seq![b] + rest) == batch_pending(b) + pending_of(rest),
{
    assert((seq![b] + rest).drop_first() =~= rest);
    assert((seq![b] + rest)[0] == b);
}

/// `woken` lists, in increasing order, up to `remaining` workers that were
/// outside a critical section in `epochs`; every such worker not listed comes
/// after all listed ones, and is left out only because `remaining` were
/// listed.
pub open spec fn notified(epochs: Seq<usize>, remaining: int, woken: Seq<usize>) -> bool {
    &&& woken.len() <= remaining
    &&& forall|k: int| 0 <= k < woken.len() ==> #[trigger] woken[k] < epochs.len()
    &&& forall|k: int| 0 <= k < woken.len() ==> epochs[#[trigger] woken[k] as int] == NOT_IN_CRITICAL
    &&& forall|k: int, l: int| 0 <= k < l < woken.len() ==> woken[k] < woken[l]
    &&& forall|j: int|
        0 <= j < epochs.len() && epochs[j] == NOT_IN_CRITICAL && !woken.contains(j as usize)
            ==> woken.len() == remaining && j > woken.last()
}

/// The local epochs after the workers in `woken` are given `epoch`.
pub open spec fn wake(epochs: Seq<usize>, woken: Seq<usize>, epoch: int) -> Seq<usize> {
    Seq::new(
        epochs.len(),
        |j: int|
            if woken.contains(j as usize) {
                epoch as usize
            } else {
                epochs[j]
            },
    )
}

/// The local epochs after worker `w` enters a critical section in `epoch`:
/// it announces `epoch` unless its masked local epoch already equals it.
pub open spec fn publish(epochs: Seq<usize>, w: int, epoch: int) -> Seq<usize> {
    if (epochs[w] as int) % epoch_modulus() != epoch {
        epochs.update(w, epoch as usize)
    } else {
        epochs
    }
}

/// What a retired list records of the batches `unlinked` from the queue in
/// `epoch`.
pub open spec fn retire_all<J>(unlinked: Seq<TaskBatch<J>>, epoch: int) -> Seq<(u64, usize)> {
    unlinked.map_values(|b: TaskBatch<J>| (b.id(), epoch as usize))
}

/// Batches unlinked in `epoch` are recorded one for one, in order, each
/// with its own id and with `epoch` as the epoch it was retired in.
pub proof fn lemma_retire_all<J>(unlinked: Seq<TaskBatch<J>>, epoch: int)
    ensures
        retire_all(unlinked, epoch).len() == unlinked.len(),
        forall|j: int|
            0 <= j < unlinked.len() ==> #[trigger] retire_all(unlinked, epoch)[j] == (
                unlinked[j].id(),
                epoch as usize,
            ),
{
}

/// `after` is `before` once a batch of `count` parameters of `stride` bytes for
/// `job` was submitted, waking the workers in `woken`: an empty batch
/// changes nothing; another is appended at the tail with the next id, its
/// parameters are pending after all others, and up to as many idle workers
/// as it has parameters are woken.
pub open spec fn pushed<J>(
    before: Queue<J>,
    after: Queue<J>,
    job: J,
    stride: usize,
    count: usize,
    woken: Seq<usize>,
) -> bool {
    &&& after.global() == before.global()
    &&& after.is_shut() == before.is_shut()
    &&& count == 0 ==> {
        &&& after.batches() == before.batches()
        &&& after.local_epochs() == before.local_epochs()
        &&& after.next_id() == before.next_id()
        &&& woken == Seq::<usize>::empty()
    }
    &&& count > 0 ==> {
        let b = after.batches().last();
        &&& after.batches() == before.batches().push(b)
        &&& b.id() == before.next_id()
        &&& b.job() == job
        &&& b.next_index() == 0
        &&& b.stride() == stride
        &&& b.count() == count
        &&& after.next_id() == before.next_id() + 1
        &&& after.pending() == before.pending() + batch_pending(b)
        &&& notified(
            before.local_epochs(),
            if count < before.local_epochs().len() {
                count as int
            } else {
                before.local_epochs().len() as int
            },
            woken,
        )
        &&& after.local_epochs() == wake(before.local_epochs(), woken, before.current_epoch())
    }
}

/// The single global queue of task batches, oldest first. Its head is the
/// batch that workers claim from; batches behind it wait untouched. The
/// queue also holds the global epoch and each worker's local epoch, by which
/// unlinked batches are known to be safe to free.
pub struct Queue<J> {
    batches: VecDeque<TaskBatch<J>>,
    next_id: u64,
    global_epoch: PaddedType<usize>,
    local_epochs: Vec<usize>,
    shutdown: bool,
}

impl<J> Queue<J> {
    /// The batches in the queue, head first.
    pub closed spec fn batches(&self) -> Seq<TaskBatch<J>> {
        self.batches@
    }

    /// The id the next batch pushed will get.
    pub closed spec fn next_id(&self) -> u64 {
        self.next_id
    }

    /// The global epoch counter, as it counts (unmasked).
    pub closed spec fn global(&self) -> usize {
        self.global_epoch.inner()
    }

    /// Each worker's local epoch, or `NOT_IN_CRITICAL`.
    pub closed spec fn local_epochs(&self) -> Seq<usize> {
        self.local_epochs@
    }

    /// Whether the pool is shutting down.
    pub closed spec fn is_shut(&self) -> bool {
        self.shutdown
    }

    /// The parameters still to be handed out, in order.
    pub open spec fn pending(&self) -> Seq<(u64, int)> {
        pending_of(self.batches())
    }

    /// The queue is never empty; ids count up from the head; only the head
    /// has been claimed from, and every batch behind it has parameters; a
    /// local epoch is a masked epoch or
    /// `NOT_IN_CRITICAL`.
    pub open spec fn wf(&self) -> bool {
        let bs = self.batches();
        &&& bs.len() >= 1
        &&& forall|i: int| 0 <= i < bs.len() ==> #[trigger] bs[i].id() == bs[0].id() + i
        &&& forall|i: int| 0 <= i < bs.len() ==> (#[trigger] bs[i]).wf()
        &&& forall|i: int| 0 < i < bs.len() ==> (#[trigger] bs[i]).next_index() == 0
        &&& forall|i: int| 0 < i < bs.len() ==> (#[trigger] bs[i]).count() > 0
        &&& self.next_id() == bs[0].id() + bs.len()
        &&& forall|w: int|
            0 <= w < self.local_epochs().len() ==> #[trigger] self.local_epochs()[w]
                == NOT_IN_CRITICAL || self.local_epochs()[w] <= EPOCH_MASK
    }

    /// The next claim on the head batch does not wrap its offset counter.
    pub open spec fn head_can_advance(&self) -> bool {
        self.batches()[0].can_advance()
    }

    /// The global epoch, masked.
    pub open spec fn current_epoch(&self) -> int {
        (self.global() as int) % epoch_modulus()
    }

    /// A queue for `worker_count` workers, holding only an anchor batch
    /// without parameters, with every worker outside a critical section.
    pub fn new(worker_count: usize, anchor: J) -> (queue: Self)
        ensures
            queue.wf(),
            queue.batches().len() == 1,
            queue.batches()[0].job() == anchor,
            queue.batches()[0].id() == 0,
            queue.batches()[0].next_index() == 0,
            queue.batches()[0].stride() == 0,
            queue.batches()[0].count() == 0,
            queue.next_id() == 1,
            queue.head_can_advance(),
            queue.pending() == Seq::<(u64, int)>::empty(),
            queue.local_epochs() == Seq::new(worker_count as nat, |w: int| NOT_IN_CRITICAL),
            queue.global() == 0,
            !queue.is_shut(),
    {
        let anchor_batch = TaskBatch::new(0, anchor, 0, 0);
        let mut batches = VecDeque::new();
        batches.push_back(anchor_batch);
        let mut local_epochs: Vec<usize> = Vec::new();
        let mut i: usize = 0;
        while i < worker_count
            invariant
                i <= worker_count,
                local_epochs@ == Seq::new(i as nat, |w: int| NOT_IN_CRITICAL),
            decreases worker_count - i,
        {
            local_epochs.push(NOT_IN_CRITICAL);
            i += 1;
        }
        let queue = Queue {
            batches,
            next_id: 1,
            global_epoch: PaddedType::new(0),
            local_epochs,
            shutdown: false,
        };
        proof {
            lemma_epoch_constants();
            assert(queue.batches() =~= seq![anchor_batch]);
            let rest = queue.batches().drop_first();
            assert(rest =~= Seq::<TaskBatch<J>>::empty());
            assert(pending_of(rest) == Seq::<(u64, int)>::empty());
            assert(anchor_batch.pending() =~= Seq::<int>::empty());
            assert(queue.pending() =~= Seq::<(u64, int)>::empty());
        }
        queue
    }

    /// The number of workers.
    pub fn worker_count(&self) -> (n: usize)
        ensures
            n == self.local_epochs().len(),
    {
        self.local_epochs.len()
    }

    /// The global epoch counter.
    pub fn global_epoch(&self) -> (g: usize)
        ensures
            g == self.global(),
    {
        *self.global_epoch
    }

    /// Worker `worker_id`'s local epoch.
    pub fn local_epoch(&self, worker_id: usize) -> (e: usize)
        requires
            worker_id < self.local_epochs().len(),
        ensures
            e == self.local_epochs()[worker_id as int],
    {
        self.local_epochs[worker_id]
    }

    /// The id the next batch pushed will get.
    pub fn next_batch_id(&self) -> (id: u64)
        ensures
            id == self.next_id(),
    {
        self.next_id
    }

    /// The number of batches in the queue, the head included.
    pub fn batch_count(&self) -> (n: usize)
        ensures
            n == self.batches().len(),
    {
        self.batches.len()
    }

    /// Whether the pool is shutting down.
    pub fn is_shutdown(&self) -> (r: bool)
        ensures
            r == self.is_shut(),
    {
        self.shutdown
    }

    /// Starts the shutdown: workers that find no task exit. Returns every
    /// worker, in index order, for the caller to unpark.
    pub fn shutdown(&mut self) -> (woken: Vec<usize>)
        ensures
            woken@.len() == old(self).local_epochs().len(),
            forall|i: int| 0 <= i < woken@.len() ==> woken@[i] == i,
            final(self).is_shut(),
            final(self).batches() == old(self).batches(),
            final(self).global() == old(self).global(),
            final(self).local_epochs() == old(self).local_epochs(),
            final(self).next_id() == old(self).next_id(),
            serves(*old(self), *final(self), None),
    {
        self.shutdown = true;
        proof {
            lemma_serves_unchanged(*old(self), *self);
        }
        let n = self.local_epochs.len();
        let mut woken: Vec<usize> = Vec::new();
        let mut i: usize = 0;
        while i < n
            invariant
                i <= n,
                n == old(self).local_epochs().len(),
                woken@.len() == i,
                forall|j: int| 0 <= j < i ==> woken@[j] == j,
            decreases n - i,
        {
            woken.push(i);
            i += 1;
        }
        woken
    }

    /// Whether work is waiting. Being a single global queue, if work exists
    /// it exists at the tail: the answer looks at the tail batch only.
    pub fn has_tasks(&self) -> (r: bool)
        requires
            self.wf(),
        ensures
            r == (self.batches().last().next_index() < self.batches().last().count()),
            r == (self.pending().len() > 0),
    {
        let tail = &self.batches[self.batches.len() - 1];
        let r = tail.has_unclaimed_tasks();
        proof {
            self.lemma_tail_pending();
        }
        r
    }

    /// Submits a batch of `param_count` parameters of `param_stride` bytes
    /// each, on each of which `job` is to run. Returns a future counting the
    /// batch's tasks, and the workers to unpark. An empty batch is not
    /// queued and its future is complete at once.
    pub fn push_task_batch(&mut self, job: J, param_stride: usize, param_count: usize) -> (r: (
        TaskFuture,
        Vec<usize>,
    ))
        requires
            old(self).wf(),
            old(self).next_id() < u64::MAX,
            param_stride * param_count <= usize::MAX,
        ensures
            final(self).wf(),
            r.0.remaining() == param_count,
            pushed(*old(self), *final(self), job, param_stride, param_count, r.1@),
            serves(*old(self), *final(self), None),
    {
        if param_count == 0 {
            proof {
                lemma_serves_unchanged(*old(self), *self);
            }
            return (TaskFuture::new(0), Vec::new());
        }
        let future = TaskFuture::new(param_count);
        let woken = self.enqueue(job, param_stride, param_count);
        (future, woken)
    }

    /// Appends a batch of `param_count` (at least one) parameters of
    /// `param_stride` bytes each, on each of which `job` is to run, and
    /// returns the workers to unpark.
    pub fn enqueue(&mut self, job: J, param_stride: usize, param_count: usize) -> (woken: Vec<
        usize,
    >)
        requires
            old(self).wf(),
            old(self).next_id() < u64::MAX,
            param_stride * param_count <= usize::MAX,
            param_count > 0,
        ensures
            final(self).wf(),
            pushed(*old(self), *final(self), job, param_stride, param_count, woken@),
            serves(*old(self), *final(self), None),
    {
        let batch = TaskBatch::new(self.next_id, job, param_stride, param_count);
        self.next_id = self.next_id + 1;
        proof {
            assert(self.local_epochs() == old(self).local_epochs());
            assert(self.batches() == old(self).batches());
        }
        let woken = self.push_and_notify(batch, param_count);
        proof {
            lemma_push_appends_all(*old(self), *self, job, param_stride, param_count, woken@);
            let n = old(self).pending().len() as int;
            assert(self.pending().subrange(0, n) =~= old(self).pending());
            assert forall|i: int| n <= i < self.pending().len() implies (
            #[trigger] self.pending()[i]).0 >= old(self).next_id() by {
                assert(self.pending()[i] == (old(self).next_id(), i - n));
            }
        }
        woken
    }

    /// Appends `batch` at the tail and wakes as many idle workers as it has
    /// parameters, up to all of them.
    fn push_and_notify(&mut self, batch: TaskBatch<J>, count: usize) -> (woken: Vec<usize>)
        requires
            old(self).batches().len() >= 1,
            forall|i: int|
                0 <= i < old(self).batches().len() ==> #[trigger] old(self).batches()[i].id()
                    == old(self).batches()[0].id() + i,
            forall|i: int|
                0 <= i < old(self).batches().len() ==> (#[trigger] old(self).batches()[i]).wf(),
            forall|i: int|
                0 < i < old(self).batches().len() ==> (#[trigger] old(self).batches()[i]).next_index()
                    == 0,
            forall|i: int|
                0 < i < old(self).batches().len() ==> (#[trigger] old(self).batches()[i]).count()
                    > 0,
            forall|w: int|
                0 <= w < old(self).local_epochs().len() ==> #[trigger] old(self).local_epochs()[w]
                    == NOT_IN_CRITICAL || old(self).local_epochs()[w] <= EPOCH_MASK,
            batch.id() == old(self).batches()[0].id() + old(self).batches().len(),
            old(self).next_id() == batch.id() + 1,
            batch.wf(),
            batch.next_index() == 0,
            batch.count() == count,
            count > 0,
        ensures
            final(self).wf(),
            final(self).batches() == old(self).batches().push(batch),
            final(self).global() == old(self).global(),
            final(self).is_shut() == old(self).is_shut(),
            final(self).next_id() == old(self).next_id(),
            final(self).pending() == old(self).pending() + batch_pending(batch),
            notified(
                old(self).local_epochs(),
                if count < old(self).local_epochs().len() {
                    count as int
                } else {
                    old(self).local_epochs().len() as int
                },
                woken@,
            ),
            final(self).local_epochs() == wake(
                old(self).local_epochs(),
                woken@,
                old(self).current_epoch(),
            ),
    {
        self.batches.push_back(batch);
        proof {
            assert(self.local_epochs() == old(self).local_epochs());
            lemma_pending_of_push(old(self).batches(), batch);
            assert forall|i: int| 0 <= i < self.batches().len() implies #[trigger] self.batches()[i].id()
                == self.batches()[0].id() + i by {
                if i < old(self).batches().len() {
                    assert(self.batches()[i] == old(self).batches()[i]);
                }
            }
            assert forall|i: int| 0 < i < self.batches().len() implies (#[trigger] self.batches()[i]).next_index()
                == 0 && self.batches()[i].count() > 0 by {
                if i < old(self).batches().len() {
                    assert(self.batches()[i] == old(self).batches()[i]);
                }
            }
            assert forall|i: int| 0 <= i < self.batches().len() implies (#[trigger] self.batches()[i]).wf() by {
                if i < old(self).batches().len() {
                    assert(self.batches()[i] == old(self).batches()[i]);
                }
            }
        }
        let n = self.local_epochs.len();
        let remaining = if count < n {
            count
        } else {
            n
        };
        self.notify_workers(remaining)
    }

    /// Wakes up to `remaining` workers that are outside a critical section,
    /// lowest index first: each is given the current epoch, and its index is
    /// returned for the caller to unpark it.
    fn notify_workers(&mut self, remaining: usize) -> (woken: Vec<usize>)
        requires
            old(self).wf(),
            remaining > 0 || old(self).local_epochs().len() == 0,
        ensures
            final(self).wf(),
            final(self).batches() == old(self).batches(),
            final(self).global() == old(self).global(),
            final(self).is_shut() == old(self).is_shut(),
            final(self).next_id() == old(self).next_id(),
            notified(old(self).local_epochs(), remaining as int, woken@),
            final(self).local_epochs() == wake(
                old(self).local_epochs(),
                woken@,
                old(self).current_epoch(),
            ),
    {
        let global_epoch = mask_epoch(*self.global_epoch);
        let ghost epochs = self.local_epochs@;
        let n = self.local_epochs.len();
        let mut woken: Vec<usize> = Vec::new();
        let mut left = remaining;
        let mut i: usize = 0;
        while i < n && left > 0
            invariant
                old(self).wf(),
                n == epochs.len(),
                epochs == old(self).local_epochs(),
                global_epoch == old(self).current_epoch(),
                i <= n,
                woken@.len() + left == remaining,
                forall|k: int| 0 <= k < woken@.len() ==> #[trigger] woken@[k] < i,
                forall|k: int| 0 <= k < woken@.len() ==> epochs[#[trigger] woken@[k] as int] == NOT_IN_CRITICAL,
                forall|k: int, l: int| 0 <= k < l < woken@.len() ==> woken@[k] < woken@[l],
                forall|j: int| 0 <= j < i && epochs[j] == NOT_IN_CRITICAL ==> woken@.contains(j as usize),
                self.local_epochs@ == wake(epochs, woken@, global_epoch as int),
                self.batches@ == old(self).batches(),
                self.global_epoch == old(self).global_epoch,
                self.shutdown == old(self).is_shut(),
                self.next_id == old(self).next_id(),
            decreases n - i,
        {
            if self.local_epochs[i] == NOT_IN_CRITICAL {
                self.local_epochs[i] = global_epoch;
                let ghost before = woken@;
                woken.push(i);
                left -= 1;
                proof {
                    assert forall|j: int| 0 <= j < n implies self.local_epochs@[j] == wake(epochs, woken@, global_epoch as int)[j] by {
                        if j == i {
                            assert(woken@[woken@.len() - 1] == i);
                        } else {
                            assert(woken@.contains(j as usize) == before.contains(j as usize)) by {
                                if before.contains(j as usize) {
                                    let k = choose|k: int| 0 <= k < before.len() && before[k] == j as usize;
                                    assert(woken@[k] == j as usize);
                                }
                                if woken@.contains(j as usize) {
                                    let k = choose|k: int| 0 <= k < woken@.len() && woken@[k] == j as usize;
                                    assert(k < before.len());
                                    assert(before[k] == j as usize);
                                }
                            }
                        }
                    }
                    assert(self.local_epochs@ =~= wake(epochs, woken@, global_epoch as int));
                    assert forall|j: int| 0 <= j < i + 1 && epochs[j] == NOT_IN_CRITICAL implies woken@.contains(j as usize) by {
                        if j == i {
                            assert(woken@[woken@.len() - 1] == i);
                        } else {
                            let k = choose|k: int| 0 <= k < before.len() && before[k] == j as usize;
                            assert(woken@[k] == j as usize);
                        }
                    }
                }
            }
            i += 1;
        }
        proof {
            lemma_epoch_constants();
            assert forall|w: int| 0 <= w < self.local_epochs().len() implies #[trigger] self.local_epochs()[w]
                == NOT_IN_CRITICAL || self.local_epochs()[w] <= EPOCH_MASK by {
                assert(epochs[w] == old(self).local_epochs()[w]);
            }
            assert forall|j: int| 0 <= j < n && epochs[j] == NOT_IN_CRITICAL && !woken@.contains(j as usize) implies woken@.len() == remaining && j > woken@.last() by {
                assert(j >= i);
            }
        }
        woken
    }

    /// Advances the global epoch by one (wrapping) and returns the oldest
    /// epoch in use: the new masked global epoch, or an older local epoch of
    /// a worker inside a critical section.
    pub fn advance_and_min_epoch(&mut self) -> (min: usize)
        requires
            old(self).wf(),
        ensures
            final(self).wf(),
            final(self).global() == vstd::wrapping::usize_specs::wrapping_add(old(self).global(), 1),
            final(self).batches() == old(self).batches(),
            final(self).local_epochs() == old(self).local_epochs(),
            final(self).is_shut() == old(self).is_shut(),
            final(self).next_id() == old(self).next_id(),
            min == oldest_in_use(final(self).current_epoch(), final(self).local_epochs()),
            serves(*old(self), *final(self), None),
    {
        let global_epoch = (*self.global_epoch).wrapping_add(1);
        *self.global_epoch.deref_mut() = global_epoch;
        let start = mask_epoch(global_epoch);
        proof {
            assert(self.local_epochs() == old(self).local_epochs());
            lemma_serves_unchanged(*old(self), *self);
        }
        min_epoch(start, self.local_epochs.as_slice())
    }

    /// Claims the next parameter of the head batch.
    fn claim_from_head(&mut self) -> (r: Option<usize>)
        requires
            old(self).wf(),
        ensures
            final(self).wf(),
            final(self).batches().len() == old(self).batches().len(),
            forall|i: int|
                0 < i < old(self).batches().len() ==> final(self).batches()[i] == old(
                    self).batches()[i],
            same_batch(final(self).batches()[0], old(self).batches()[0]),
            final(self).batches()[0].next_index() == vstd::wrapping::usize_specs::wrapping_add(
                old(self).batches()[0].next_index(),
                1,
            ),
            final(self).global() == old(self).global(),
            final(self).local_epochs() == old(self).local_epochs(),
            final(self).is_shut() == old(self).is_shut(),
            final(self).next_id() == old(self).next_id(),
            r == (if old(self).batches()[0].next_index() < old(self).batches()[0].count() {
                Some((old(self).batches()[0].next_index() * old(self).batches()[0].stride()) as usize)
            } else {
                None::<usize>
            }),
            r matches Some(offset) ==> offset == old(self).batches()[0].next_index() * old(
                self).batches()[0].stride(),
            r is Some ==> old(self).pending() == seq![
                (old(self).batches()[0].id(), old(self).batches()[0].next_index() as int),
            ] + final(self).pending(),
            r is None ==> old(self).batches()[0].pending().len() == 0,
            r is None && old(self).head_can_advance() ==> final(self).batches()[0].pending().len()
                == 0 && final(self).pending() == old(self).pending(),
    {
        let ghost rest = self.batches@.drop_first();
        let mut head = self.batches.pop_front().unwrap();
        let ghost old_head = head;
        let r = head.claim_next_param();
        self.batches.push_front(head);
        proof {
            assert(self.local_epochs() == old(self).local_epochs());
            assert(old(self).batches() =~= seq![old_head] + rest);
            assert(self.batches() =~= seq![head] + rest);
            lemma_pending_of_cons(old_head, rest);
            lemma_pending_of_cons(head, rest);
            assert forall|i: int| 0 < i < self.batches().len() implies self.batches()[i] == old(
                self).batches()[i] by {
                assert(self.batches()[i] == rest[i - 1]);
            }
            if r is Some {
                assert(batch_pending(old_head) =~= seq![
                    (old_head.id(), old_head.next_index() as int),
                ] + batch_pending(head));
                assert(old(self).pending() =~= seq![
                    (old_head.id(), old_head.next_index() as int),
                ] + self.pending());
            } else if old(self).head_can_advance() {
                assert(batch_pending(old_head) =~= Seq::<(u64, int)>::empty());
                assert(batch_pending(head) =~= Seq::<(u64, int)>::empty());
                assert(self.pending() =~= old(self).pending());
            }
        }
        r
    }

    /// What worker `worker_id` does when it looks for work: take it if the
    /// tail has unclaimed tasks; otherwise exit if the pool is shutting
    /// down; otherwise leave its critical section, look once more, and park.
    pub fn wait_for_work(&mut self, worker_id: usize) -> (outcome: WaitOutcome)
        requires
            old(self).wf(),
            worker_id < old(self).local_epochs().len(),
        ensures
            final(self).wf(),
            final(self).batches() == old(self).batches(),
            final(self).global() == old(self).global(),
            final(self).is_shut() == old(self).is_shut(),
            final(self).next_id() == old(self).next_id(),
            ({
                let tasks = old(self).pending().len() > 0;
                &&& tasks ==> outcome is Work && final(self).local_epochs() == old(
                    self).local_epochs()
                &&& !tasks && old(self).is_shut() ==> outcome is Shutdown && final(
                    self).local_epochs() == old(self).local_epochs()
                &&& serves(*old(self), *final(self), None)
                &&& !tasks && !old(self).is_shut() ==> outcome is Park && final(
                    self).local_epochs() == old(self).local_epochs().update(
                    worker_id as int,
                    NOT_IN_CRITICAL,
                )
            }),
    {
        proof {
            lemma_serves_unchanged(*old(self), *self);
        }
        if self.has_tasks() {
            return WaitOutcome::Work;
        }
        if self.is_shutdown() {
            return WaitOutcome::Shutdown;
        }
        self.local_epochs[worker_id] = NOT_IN_CRITICAL;
        proof {
            assert(self.batches() == old(self).batches());
            lemma_serves_unchanged(*old(self), *self);
            assert forall|w: int| 0 <= w < self.local_epochs().len() implies #[trigger] self.local_epochs()[w]
                == NOT_IN_CRITICAL || self.local_epochs()[w] <= EPOCH_MASK by {
                if w != worker_id {
                    assert(self.local_epochs()[w] == old(self).local_epochs()[w]);
                }
            }
        }
        if self.has_tasks() {
            return WaitOutcome::Work;
        }
        WaitOutcome::Park
    }

    /// Retires a batch unlinked from the head in the current epoch.
    fn on_consume_batch(&self, batch: TaskBatch<J>, retired: &mut RetiredList<J>)
        ensures
            final(retired)@ == old(retired)@.push((batch.id(), self.current_epoch() as usize)),
            final(retired).ticks() == old(retired).ticks(),
    {
        // fetch a fresh epoch while unlinking
        let fresh_epoch = mask_epoch(*self.global_epoch);
        retired.push(batch, fresh_epoch);
    }

    /// What `has_tasks` answers, in terms of the pending parameters.
    proof fn lemma_tail_pending(&self)
        requires
            self.wf(),
        ensures
            self.batches().last().next_index() < self.batches().last().count() <==> self.pending().len()
                > 0,
    {
        let bs = self.batches();
        lemma_pending_suffix(bs, bs.len() - 1);
        let t = bs.last();
        assert(t == bs[bs.len() - 1]);
        assert(bs.subrange(bs.len() - 1, bs.len() as int) =~= seq![t]);
        lemma_pending_of_cons(t, Seq::empty());
        assert(seq![t] + Seq::<TaskBatch<J>>::empty() =~= seq![t]);
        assert(pending_of(Seq::<TaskBatch<J>>::empty()) == Seq::<(u64, int)>::empty());
        if t.next_index() >= t.count() {
            // a used-up tail has been claimed from, so it is the head
            assert(bs.len() == 1);
            lemma_pending_exhausted(bs);
        }
    }
}

/// A worker entering a critical section announces the current epoch:
/// unless it was outside any critical section while the masked global epoch
/// is the largest one, whose bits match those of `NOT_IN_CRITICAL`; then it
/// stays marked as outside.
pub proof fn lemma_publish_announces(epochs: Seq<usize>, w: int, epoch: int)
    requires
        0 <= w < epochs.len(),
        0 <= epoch <= EPOCH_MASK,
        epochs[w] == NOT_IN_CRITICAL || epochs[w] <= EPOCH_MASK,
    ensures
        !(epochs[w] == NOT_IN_CRITICAL && epoch == EPOCH_MASK) ==> publish(epochs, w, epoch)[w]
            == epoch,
        epochs[w] == NOT_IN_CRITICAL && epoch == EPOCH_MASK ==> publish(epochs, w, epoch)[w]
            == NOT_IN_CRITICAL,
        forall|v: int| 0 <= v < epochs.len() && v != w ==> publish(epochs, w, epoch)[v] == epochs[v],
{
    lemma_epoch_constants();
    let p = epoch_modulus();
    if epochs[w] == NOT_IN_CRITICAL {
        vstd::arithmetic::div_mod::lemma_mod_multiples_vanish(1, EPOCH_MASK as int, p);
        vstd::arithmetic::div_mod::lemma_small_mod(EPOCH_MASK as nat, p as nat);
    } else {
        vstd::arithmetic::div_mod::lemma_small_mod(epochs[w] as nat, p as nat);
    }
}

/// Two states of one batch that differ at most in how far it has been
/// claimed.
pub open spec fn same_batch<J>(a: TaskBatch<J>, b: TaskBatch<J>) -> bool {
    &&& a.id() == b.id()
    &&& a.job() == b.job()
    &&& a.stride() == b.stride()
    &&& a.count() == b.count()
}

/// Submitting a batch of `count` parameters appends exactly its
/// parameters, in order, after everything already pending: the new batch's
/// id with indices 0, 1, ..., `count` - 1, whatever the size of a parameter.
pub proof fn lemma_push_appends_all<J>(
    before: Queue<J>,
    after: Queue<J>,
    job: J,
    stride: usize,
    count: usize,
    woken: Seq<usize>,
)
    requires
        pushed(before, after, job, stride, count, woken),
    ensures
        after.pending() == before.pending() + Seq::new(
            count as nat,
            |k: int| (before.next_id(), k),
        ),
{
    if count == 0 {
        assert(before.pending() + Seq::new(0, |k: int| (before.next_id(), k)) =~= before.pending());
    } else {
        let b = after.batches().last();
        assert(b.pending() =~= Seq::new(count as nat, |k: int| k));
        assert(batch_pending(b) =~= Seq::new(count as nat, |k: int| (before.next_id(), k)));
    }
}

/// Parameter `a` comes before parameter `b`: it belongs to an earlier
/// batch, or to the same batch with a lower index.
pub open spec fn precedes(a: (u64, int), b: (u64, int)) -> bool {
    a.0 < b.0 || (a.0 == b.0 && a.1 < b.1)
}

/// Every parameter in `s` comes before every later one; in particular no
/// parameter occurs twice.
pub open spec fn in_order(s: Seq<(u64, int)>) -> bool {
    forall|i: int, j: int| 0 <= i < j < s.len() ==> precedes(#[trigger] s[i], #[trigger] s[j])
}

proof fn lemma_pending_of_in_order<J>(bs: Seq<TaskBatch<J>>)
    requires
        forall|i: int| 0 <= i < bs.len() ==> #[trigger] bs[i].id() == bs[0].id() + i,
    ensures
        in_order(pending_of(bs)),
        forall|k: int|
            0 <= k < pending_of(bs).len() ==> bs[0].id() <= (#[trigger] pending_of(bs)[k]).0 < bs[0].id()
                + bs.len(),
    decreases bs.len(),
{
    if bs.len() > 0 {
        let rest = bs.drop_first();
        if rest.len() > 0 {
            assert forall|i: int| 0 <= i < rest.len() implies #[trigger] rest[i].id() == rest[0].id()
                + i by {
                assert(rest[i] == bs[i + 1]);
                assert(rest[0] == bs[1]);
            }
            assert(rest[0] == bs[1]);
        }
        lemma_pending_of_in_order(rest);
        let head = batch_pending(bs[0]);
        let tail = pending_of(rest);
        assert(pending_of(bs) == head + tail);
        assert forall|k: int| 0 <= k < tail.len() implies bs[0].id() < (#[trigger] tail[k]).0 < bs[0].id()
            + bs.len() by {
            assert(rest.len() > 0);
            assert(rest[0] == bs[1]);
        }
        let all = pending_of(bs);
        assert forall|i: int, j: int| 0 <= i < j < all.len() implies precedes(
            #[trigger] all[i],
            #[trigger] all[j],
        ) by {
            if j < head.len() {
                assert(all[i] == head[i] && all[j] == head[j]);
            } else if i < head.len() {
                assert(all[i] == head[i] && all[j] == tail[j - head.len()]);
            } else {
                assert(all[i] == tail[i - head.len()] && all[j] == tail[j - head.len()]);
            }
        }
        assert forall|k: int| 0 <= k < all.len() implies bs[0].id() <= (#[trigger] all[k]).0
            < bs[0].id() + bs.len() by {
            if k < head.len() {
                assert(all[k] == head[k]);
            } else {
                assert(all[k] == tail[k - head.len()]);
            }
        }
    }
}

/// In a well-formed queue the pending parameters are in order, batch by
/// batch in submission order and index by index within a batch (so none
/// occurs twice), and every one belongs to a batch already given an id.
pub proof fn lemma_pending_in_order<J>(q: Queue<J>)
    requires
        q.wf(),
    ensures
        in_order(q.pending()),
        forall|k: int| 0 <= k < q.pending().len() ==> (#[trigger] q.pending()[k]).0 < q.next_id(),
{
    lemma_pending_of_in_order(q.batches());
}

/// `after` follows `before` by one call on the queue: the call handed out
/// the parameter `handed`, which was first in line; or it handed out
/// nothing, and every parameter that became pending belongs to a batch
/// submitted by the call.
pub open spec fn serves<J>(before: Queue<J>, after: Queue<J>, handed: Option<(u64, int)>) -> bool {
    &&& after.next_id() >= before.next_id()
    &&& match handed {
        Some(h) => before.pending() == seq![h] + after.pending() && after.next_id()
            == before.next_id(),
        None => {
            &&& before.pending().len() <= after.pending().len()
            &&& after.pending().subrange(0, before.pending().len() as int) == before.pending()
            &&& forall|i: int|
                before.pending().len() <= i < after.pending().len() ==> (
                #[trigger] after.pending()[i]).0 >= before.next_id()
        },
    }
}

/// A call that leaves the batches and the next id alone hands out nothing.
pub proof fn lemma_serves_unchanged<J>(before: Queue<J>, after: Queue<J>)
    requires
        after.batches() == before.batches(),
        after.next_id() == before.next_id(),
    ensures
        serves(before, after, None),
{
    assert(after.pending().subrange(0, before.pending().len() as int) =~= before.pending());
}

/// The parameters handed out by a run of calls, in the order handed out.
pub open spec fn handed_out(handed: Seq<Option<(u64, int)>>) -> Seq<(u64, int)>
    decreases handed.len(),
{
    if handed.len() == 0 {
        Seq::empty()
    } else {
        handed_out(handed.drop_last()) + match handed.last() {
            Some(h) => seq![h],
            None => Seq::empty(),
        }
    }
}

/// `a` is a prefix of `b`.
pub open spec fn prefix_of(a: Seq<(u64, int)>, b: Seq<(u64, int)>) -> bool {
    a.len() <= b.len() && b.subrange(0, a.len() as int) == a
}

/// The queue is FIFO and hands out every parameter exactly once. Over any
/// run of calls `qs[0]`, `qs[1]`, ... (each step one call, handing out
/// `handed[i]`), the parameters handed out come in strict order (so none
/// twice, and every parameter of an earlier batch before any of a later
/// one), all before those still pending; and what was pending at the start
/// is, in the same order, what was handed out followed by what is still
/// pending: nothing is skipped or lost.
pub proof fn lemma_served_in_order<J>(qs: Seq<Queue<J>>, handed: Seq<Option<(u64, int)>>)
    requires
        qs.len() == handed.len() + 1,
        forall|i: int| 0 <= i < qs.len() ==> (#[trigger] qs[i]).wf(),
        forall|i: int| 0 <= i < handed.len() ==> serves(qs[i], qs[i + 1], #[trigger] handed[i]),
    ensures
        in_order(handed_out(handed)),
        forall|i: int, k: int|
            0 <= i < handed_out(handed).len() && 0 <= k < qs.last().pending().len() ==> precedes(
                #[trigger] handed_out(handed)[i],
                #[trigger] qs.last().pending()[k],
            ),
        forall|i: int|
            0 <= i < handed_out(handed).len() ==> (#[trigger] handed_out(handed)[i]).0
                < qs.last().next_id(),
        prefix_of(qs[0].pending(), handed_out(handed) + qs.last().pending()),
    decreases handed.len(),
{
    let n = handed.len() as int;
    if n == 0 {
        assert(handed_out(handed) =~= Seq::<(u64, int)>::empty());
        assert(qs.last() == qs[0]);
        assert((handed_out(handed) + qs[0].pending()).subrange(0, qs[0].pending().len() as int)
            =~= qs[0].pending());
    } else {
        let qs0 = qs.drop_last();
        let h0 = handed.drop_last();
        assert forall|i: int| 0 <= i < qs0.len() implies (#[trigger] qs0[i]).wf() by {
            assert(qs0[i] == qs[i]);
        }
        assert forall|i: int| 0 <= i < h0.len() implies serves(qs0[i], qs0[i + 1], #[trigger] h0[i]) by {
            assert(qs0[i] == qs[i] && qs0[i + 1] == qs[i + 1] && h0[i] == handed[i]);
        }
        lemma_served_in_order(qs0, h0);
        let a = qs[n - 1];
        let b = qs[n];
        assert(qs0.last() == a);
        assert(qs.last() == b);
        assert(qs0[0] == qs[0]);
        assert(serves(a, b, handed[n - 1]));
        lemma_pending_in_order(a);
        lemma_pending_in_order(b);
        let prev = handed_out(h0);
        let cur = handed_out(handed);
        match handed[n - 1] {
            Some(h) => {
                assert(cur =~= prev.push(h));
                assert(a.pending()[0] == h);
                assert forall|i: int, j: int| 0 <= i < j < cur.len() implies precedes(
                    #[trigger] cur[i],
                    #[trigger] cur[j],
                ) by {
                    if j < prev.len() {
                        assert(cur[i] == prev[i] && cur[j] == prev[j]);
                    } else {
                        assert(cur[i] == prev[i] && cur[j] == h);
                    }
                }
                assert forall|i: int, k: int|
                    0 <= i < cur.len() && 0 <= k < b.pending().len() implies precedes(
                    #[trigger] cur[i],
                    #[trigger] b.pending()[k],
                ) by {
                    assert(b.pending()[k] == a.pending()[k + 1]);
                    if i < prev.len() {
                        assert(cur[i] == prev[i]);
                    } else {
                        assert(cur[i] == a.pending()[0]);
                    }
                }
                assert forall|i: int| 0 <= i < cur.len() implies (#[trigger] cur[i]).0 < b.next_id() by {
                    if i < prev.len() {
                        assert(cur[i] == prev[i]);
                    } else {
                        assert(cur[i] == a.pending()[0]);
                    }
                }
                assert(prev + a.pending() =~= cur + b.pending());
            },
            None => {
                assert(cur =~= prev);
                assert forall|i: int, k: int|
                    0 <= i < cur.len() && 0 <= k < b.pending().len() implies precedes(
                    #[trigger] cur[i],
                    #[trigger] b.pending()[k],
                ) by {
                    if k < a.pending().len() {
                        assert(b.pending()[k] == b.pending().subrange(
                            0,
                            a.pending().len() as int,
                        )[k]);
                        assert(b.pending()[k] == a.pending()[k]);
                    }
                }
                let x = prev + a.pending();
                let y = cur + b.pending();
                assert(y.subrange(0, x.len() as int) =~= x) by {
                    assert forall|i: int| 0 <= i < x.len() implies y[i] == x[i] by {
                        if i >= prev.len() {
                            assert(b.pending()[i - prev.len()] == b.pending().subrange(
                                0,
                                a.pending().len() as int,
                            )[i - prev.len()]);
                        }
                    }
                }
                let z = handed_out(handed) + qs.last().pending();
                assert(z.subrange(0, qs[0].pending().len() as int) =~= x.subrange(
                    0,
                    qs[0].pending().len() as int,
                ));
            },
        }
    }
}

/// Once a queue is shutting down it stays so: over any run of queue states
/// in which no step clears the flag (no call of this library does), every
/// state from the first shut one on is shut.
pub proof fn lemma_shutdown_is_never_reset<J>(qs: Seq<Queue<J>>, k: int)
    requires
        forall|i: int| 0 <= i < qs.len() - 1 ==> (#[trigger] qs[i]).is_shut() ==> qs[i + 1].is_shut(),
        0 <= k < qs.len(),
        qs[k].is_shut(),
    ensures
        forall|j: int| k <= j < qs.len() ==> (#[trigger] qs[j]).is_shut(),
    decreases qs.len() - k,
{
    if k + 1 < qs.len() {
        assert(qs[k + 1].is_shut());
        lemma_shutdown_is_never_reset(qs, k + 1);
    }
}

impl<J> Queue<J> {
    /// What the retired list of `get_next_batch` holds, entry by entry.
    proof fn lemma_retired_entries(
        &self,
        start: Queue<J>,
        before: RetiredList<J>,
        after: RetiredList<J>,
        epoch: int,
    )
        requires
            0 <= start.batches().len() - self.batches().len() < start.batches().len(),
            after@ == before@ + retire_all(
                start.batches().subrange(0, start.batches().len() - self.batches().len()),
                epoch,
            ),
        ensures
            after@.len() == before@.len() + (start.batches().len() - self.batches().len()),
            forall|j: int|
                before@.len() <= j < after@.len() ==> #[trigger] after@[j] == (
                    start.batches()[j - before@.len()].id(),
                    epoch as usize,
                ),
            forall|j: int| 0 <= j < before@.len() ==> #[trigger] after@[j] == before@[j],
    {
        let k = start.batches().len() - self.batches().len();
        let unlinked = start.batches().subrange(0, k);
        lemma_retire_all(unlinked, epoch);
        assert forall|j: int| before@.len() <= j < after@.len() implies #[trigger] after@[j] == (
            start.batches()[j - before@.len()].id(),
            epoch as usize,
        ) by {
            assert(after@[j] == retire_all(unlinked, epoch)[j - before@.len()]);
            assert(unlinked[j - before@.len()] == start.batches()[j - before@.len()]);
        }
    }
}

impl<J: Copy> Queue<J> {
    /// Hands worker `worker_id` the next parameter, oldest batch first.
    ///
    /// The worker first announces the current epoch, unless its masked
    /// local epoch already equals it (see `lemma_publish_announces`). It
    /// then claims from the head batch; while the head is used up and
    /// another batch follows, it unlinks the head, retires it into
    /// `retired` in the current epoch, and claims from the next. Returns
    /// `None` when the tail is used up too.
    pub fn get_next_batch(&mut self, worker_id: usize, retired: &mut RetiredList<J>) -> (claim:
        Option<Claim<J>>)
        requires
            old(self).wf(),
            worker_id < old(self).local_epochs().len(),
        ensures
            final(self).wf(),
            final(self).global() == old(self).global(),
            final(self).is_shut() == old(self).is_shut(),
            final(self).next_id() == old(self).next_id(),
            final(self).local_epochs() == publish(
                old(self).local_epochs(),
                worker_id as int,
                old(self).current_epoch(),
            ),
            ({
                let k = old(self).batches().len() - final(self).batches().len();
                let claimed = if k == 0 {
                    old(self).batches()[0].next_index()
                } else {
                    0
                };
                &&& 0 <= k < old(self).batches().len()
                &&& same_batch(final(self).batches()[0], old(self).batches()[k])
                &&& final(self).batches()[0].next_index() == vstd::wrapping::usize_specs::wrapping_add(
                    claimed,
                    1,
                )
                &&& forall|i: int|
                    0 < i < final(self).batches().len() ==> final(self).batches()[i] == old(
                        self).batches()[k + i]
                &&& final(retired)@ == old(retired)@ + retire_all(
                    old(self).batches().subrange(0, k),
                    old(self).current_epoch(),
                )
                &&& final(retired)@.len() == old(retired)@.len() + k
                &&& forall|j: int|
                    old(retired)@.len() <= j < final(retired)@.len() ==> #[trigger] final(
                        retired)@[j] == (
                        old(self).batches()[j - old(retired)@.len()].id(),
                        old(self).current_epoch() as usize,
                    )
                &&& forall|j: int|
                    0 <= j < old(retired)@.len() ==> #[trigger] final(retired)@[j] == old(
                        retired)@[j]
                &&& match claim {
                    Some(c) => {
                        &&& c.batch_id == final(self).batches()[0].id()
                        &&& c.job == final(self).batches()[0].job()
                        &&& c.param_index == claimed
                        &&& c.byte_offset == claimed * final(self).batches()[0].stride()
                    },
                    None => final(self).batches().len() == 1,
                }
            }),
            final(retired).ticks() == old(retired).ticks(),
            match claim {
                Some(c) => {
                    &&& old(self).pending() == seq![(c.batch_id, c.param_index as int)] + final(
                        self).pending()
                    &&& serves(*old(self), *final(self), Some((c.batch_id, c.param_index as int)))
                },
                None => {
                    &&& old(self).pending().len() == 0
                    &&& old(self).head_can_advance() ==> final(self).pending().len() == 0 && serves(
                        *old(self),
                        *final(self),
                        None,
                    )
                },
            },
    {
        let global_epoch = mask_epoch(*self.global_epoch);
        // publish the epoch before touching queue nodes; if the masked local
        // epoch is already current there is nothing to publish
        if mask_epoch(self.local_epochs[worker_id]) != global_epoch {
            self.local_epochs[worker_id] = global_epoch;
        }
        proof {
            lemma_epoch_constants();
            assert(self.local_epochs() =~= publish(
                old(self).local_epochs(),
                worker_id as int,
                old(self).current_epoch(),
            ));
            assert(self.batches() == old(self).batches());
            assert(retire_all(old(self).batches().subrange(0, 0), global_epoch as int) =~= Seq::<
                (u64, usize),
            >::empty());
            assert(old(retired)@ =~= old(retired)@ + retire_all(
                old(self).batches().subrange(0, 0),
                global_epoch as int,
            ));
        }
        let ghost start = *self;
        loop
            invariant
                start.wf(),
                self.wf(),
                start.batches() == old(self).batches(),
                start.global() == old(self).global(),
                start.next_id() == old(self).next_id(),
                start.local_epochs() == publish(
                    old(self).local_epochs(),
                    worker_id as int,
                    old(self).current_epoch(),
                ),
                global_epoch == old(self).current_epoch(),
                self.global() == start.global(),
                self.local_epochs() == start.local_epochs(),
                self.is_shut() == old(self).is_shut(),
                self.next_id() == old(self).next_id(),
                0 <= start.batches().len() - self.batches().len() < start.batches().len(),
                same_batch(
                    self.batches()[0],
                    start.batches()[start.batches().len() - self.batches().len()],
                ),
                self.batches()[0].next_index() == if start.batches().len() == self.batches().len() {
                    start.batches()[0].next_index()
                } else {
                    0
                },
                forall|i: int|
                    0 < i < self.batches().len() ==> self.batches()[i] == start.batches()[(
                    start.batches().len() - self.batches().len()) + i],
                retired@ == old(retired)@ + retire_all(
                    start.batches().subrange(0, start.batches().len() - self.batches().len()),
                    global_epoch as int,
                ),
                retired.ticks() == old(retired).ticks(),
                self.pending() == start.pending(),
                start.head_can_advance() ==> self.head_can_advance(),
            decreases self.batches().len(),
        {
            let param_index = self.batches[0].get_next_index();
            let ghost pre = *self;
            let r = self.claim_from_head();
            if let Some(byte_offset) = r {
                let head = &self.batches[0];
                proof {
                    lemma_pending_in_order(start);
                    self.lemma_retired_entries(start, *old(retired), *retired, global_epoch as int);
                }
                return Some(
                    Claim { job: head.get_job(), batch_id: head.get_id(), param_index, byte_offset },
                );
            }
            if self.batches.len() == 1 {
                proof {
                    self.lemma_retired_entries(start, *old(retired), *retired, global_epoch as int);
                    lemma_pending_single(pre.batches());
                    lemma_pending_single(self.batches());
                    if start.head_can_advance() {
                        assert(self.pending() =~= start.pending());
                        assert(self.pending().subrange(0, start.pending().len() as int)
                            =~= start.pending());
                    }
                }
                return None;
            }
            let ghost before = *self;
            let ghost k = start.batches().len() - self.batches().len();
            let consumed = self.batches.pop_front().unwrap();
            proof {
                assert(self.local_epochs() == before.local_epochs());
                assert(self.batches() =~= before.batches().drop_first());
                let bs = self.batches();
                assert forall|i: int| 0 <= i < bs.len() implies #[trigger] bs[i].id() == bs[0].id()
                    + i by {
                    assert(bs[i] == before.batches()[i + 1]);
                    assert(bs[0] == before.batches()[1]);
                }
                assert forall|i: int| 0 <= i < bs.len() implies (#[trigger] bs[i]).wf() by {
                    assert(bs[i] == before.batches()[i + 1]);
                }
                assert forall|i: int| 0 < i < bs.len() implies (#[trigger] bs[i]).next_index()
                    == 0 && bs[i].count() > 0 by {
                    assert(bs[i] == before.batches()[i + 1]);
                }
                assert(bs[0] == before.batches()[1]);
                assert(bs[0] == start.batches()[k + 1]);
                assert forall|i: int| 0 < i < bs.len() implies bs[i] == start.batches()[(k + 1)
                    + i] by {
                    assert(bs[i] == before.batches()[i + 1]);
                }
                assert(same_batch(consumed, start.batches()[k]));
                let pre_head = pre.batches()[0];
                assert forall|i: int| 0 <= i < bs.len() implies bs[i] == pre.batches()[i + 1] by {
                    assert(bs[i] == before.batches()[i + 1]);
                }
                assert(pre.batches() =~= seq![pre_head] + bs);
                lemma_pending_of_cons(pre_head, bs);
                assert(batch_pending(pre_head) =~= Seq::<(u64, int)>::empty());
                assert(self.pending() =~= pre.pending());
            }
            self.on_consume_batch(consumed, retired);
            proof {
                let k1 = start.batches().len() - self.batches().len();
                assert(start.batches().subrange(0, k1) =~= start.batches().subrange(0, k1 - 1).push(
                    start.batches()[k1 - 1],
                ));
                assert(retire_all(start.batches().subrange(0, k1), global_epoch as int)
                    =~= retire_all(start.batches().subrange(0, k1 - 1), global_epoch as int).push(
                    (start.batches()[k1 - 1].id(), global_epoch),
                ));
            }
        }
    }

    /// Claims the next parameter of batch `batch_id`, which the caller was
    /// handed earlier and is still running; returns its byte offset. A batch
    /// that has left the head was used up, so it has nothing more to hand
    /// out.
    pub fn claim_next_param(&mut self, batch_id: u64) -> (r: Option<usize>)
        requires
            old(self).wf(),
        ensures
            final(self).wf(),
            final(self).global() == old(self).global(),
            final(self).local_epochs() == old(self).local_epochs(),
            final(self).is_shut() == old(self).is_shut(),
            final(self).next_id() == old(self).next_id(),
            final(self).batches().len() == old(self).batches().len(),
            batch_id != old(self).batches()[0].id() ==> final(self).batches() == old(self).batches()
                && r is None,
            batch_id == old(self).batches()[0].id() ==> {
                &&& same_batch(final(self).batches()[0], old(self).batches()[0])
                &&& final(self).batches()[0].next_index() == vstd::wrapping::usize_specs::wrapping_add(
                    old(self).batches()[0].next_index(),
                    1,
                )
                &&& forall|i: int|
                    0 < i < old(self).batches().len() ==> final(self).batches()[i] == old(
                        self).batches()[i]
                &&& r == (if old(self).batches()[0].next_index() < old(self).batches()[0].count() {
                    Some(
                        (old(self).batches()[0].next_index() * old(self).batches()[0].stride()) as usize,
                    )
                } else {
                    None::<usize>
                })
            },
            r is Some ==> serves(
                *old(self),
                *final(self),
                Some((batch_id, old(self).batches()[0].next_index() as int)),
            ),
            r is None && old(self).head_can_advance() ==> serves(*old(self), *final(self), None),
    {
        if self.batches[0].get_id() != batch_id {
            proof {
                lemma_serves_unchanged(*old(self), *self);
            }
            return None;
        }
        let r = self.claim_from_head();
        proof {
            if r is None && old(self).head_can_advance() {
                assert(serves(*old(self), *self, None)) by {
                    assert(self.pending().subrange(0, old(self).pending().len() as int)
                        =~= old(self).pending());
                }
            }
        }
        r
    }
}

/// The parameters of a suffix of the batches come last.
proof fn lemma_pending_suffix<J>(batches: Seq<TaskBatch<J>>, k: int)
    requires
        0 <= k <= batches.len(),
    ensures
        pending_of(batches) == pending_of(batches.subrange(0, k)) + pending_of(
            batches.subrange(k, batches.len() as int),
        ),
    decreases k,
{
    if k == 0 {
        assert(batches.subrange(0, 0) =~= Seq::<TaskBatch<J>>::empty());
        assert(batches.subrange(0, batches.len() as int) =~= batches);
        assert(pending_of(batches.subrange(0, 0)) =~= Seq::<(u64, int)>::empty());
        assert(pending_of(batches) =~= Seq::<(u64, int)>::empty() + pending_of(batches));
    } else {
        let rest = batches.drop_first();
        lemma_pending_suffix(rest, k - 1);
        assert(rest.subrange(k - 1, rest.len() as int) =~= batches.subrange(k, batches.len() as int));
        assert(batches.subrange(0, k).drop_first() =~= rest.subrange(0, k - 1));
        assert(batches.subrange(0, k)[0] == batches[0]);
        assert(pending_of(batches) =~= pending_of(batches.subrange(0, k)) + pending_of(
            batches.subrange(k, batches.len() as int),
        ));
    }
}

/// A lone batch is all that is pending.
proof fn lemma_pending_single<J>(batches: Seq<TaskBatch<J>>)
    requires
        batches.len() == 1,
    ensures
        pending_of(batches) == batch_pending(batches[0]),
        pending_of(batches).len() == batches[0].pending().len(),
{
    let rest = batches.drop_first();
    assert(rest =~= Seq::<TaskBatch<J>>::empty());
    assert(pending_of(rest) == Seq::<(u64, int)>::empty());
    assert(pending_of(batches) =~= batch_pending(batches[0]));
}

/// A lone batch that is used up has nothing pending.
proof fn lemma_pending_exhausted<J>(batches: Seq<TaskBatch<J>>)
    requires
        batches.len() == 1,
        batches[0].next_index() >= batches[0].count(),
    ensures
        pending_of(batches) == Seq::<(u64, int)>::empty(),
{
    let rest = batches.drop_first();
    assert(rest =~= Seq::<TaskBatch<J>>::empty());
    assert(pending_of(rest) == Seq::<(u64, int)>::empty());
    assert(batches[0].pending() =~= Seq::<int>::empty());
    assert(pending_of(batches) =~= Seq::<(u64, int)>::empty());
}

} // verus!

use std::collections::VecDeque;
use vstd::prelude::*;

use crate::epoch::{
    epoch_distance, epoch_modulus, is_reclaimable, lemma_reclaim_safe, oldest_in_use, reclaimable,
    within_window, EPOCH_MASK, NOT_IN_CRITICAL,
};
use crate::queue::{lemma_serves_unchanged, serves, Queue};
use crate::task_batch::TaskBatch;

verus! {

/// The batches a worker has unlinked from the queue, in the order it
/// unlinked them, each with the epoch in which it did so. A batch is freed
/// once no worker can still be reading it.
pub struct RetiredList<J> {
    batches: VecDeque<TaskBatch<J>>,
    tick: u8,
}

/// The longest prefix of `retired` whose batches may all be freed against
/// the oldest epoch in use `safe`: its length.
pub open spec fn reclaimable_prefix(retired: Seq<(u64, usize)>, safe: int) -> int
    decreases retired.len(),
{
    if retired.len() > 0 && reclaimable(safe, retired[0].1 as int) {
        1 + reclaimable_prefix(retired.drop_first(), safe)
    } else {
        0
    }
}

proof fn lemma_prefix_reclaimable(retired: Seq<(u64, usize)>, safe: int)
    ensures
        0 <= reclaimable_prefix(retired, safe) <= retired.len(),
        forall|i: int|
            0 <= i < reclaimable_prefix(retired, safe) ==> reclaimable(safe, retired[i].1 as int),
    decreases retired.len(),
{
    if retired.len() > 0 && reclaimable(safe, retired[0].1 as int) {
        let rest = retired.drop_first();
        lemma_prefix_reclaimable(rest, safe);
        assert forall|i: int|
            0 <= i < reclaimable_prefix(retired, safe) implies reclaimable(
            safe,
            retired[i].1 as int,
        ) by {
            if i > 0 {
                assert(retired[i] == rest[i - 1]);
            }
        }
    }
}

/// What `clean` frees is out of every worker's reach: when no worker in a
/// critical section lags half the epoch circle behind the global epoch
/// `global`, each batch in the freed prefix was retired strictly before
/// `global` and strictly before the epoch announced by every worker still
/// in a critical section.
pub proof fn lemma_clean_frees_unreachable(
    retired: Seq<(u64, usize)>,
    global: usize,
    local_epochs: Seq<usize>,
)
    requires
        global <= EPOCH_MASK,
        within_window(global as int, local_epochs),
    ensures
        forall|i: int, w: int|
            0 <= i < reclaimable_prefix(retired, oldest_in_use(global as int, local_epochs)) && 0
                <= w < local_epochs.len() && local_epochs[w] != NOT_IN_CRITICAL ==> epoch_distance(
                global as int,
                retired[i].1 as int,
            ) > epoch_distance(global as int, local_epochs[w] as int),
        forall|i: int|
            0 <= i < reclaimable_prefix(retired, oldest_in_use(global as int, local_epochs))
                ==> epoch_distance(global as int, retired[i].1 as int) > 0,
{
    let safe = oldest_in_use(global as int, local_epochs);
    lemma_prefix_reclaimable(retired, safe);
    assert forall|i: int|
        0 <= i < reclaimable_prefix(retired, safe) implies epoch_distance(
        global as int,
        retired[i].1 as int,
    ) > 0 && forall|w: int|
        0 <= w < local_epochs.len() && local_epochs[w] != NOT_IN_CRITICAL ==> epoch_distance(
            global as int,
            retired[i].1 as int,
        ) > epoch_distance(global as int, local_epochs[w] as int) by {
        lemma_reclaim_safe(global, local_epochs, retired[i].1);
    }
}

/// A batch retired in an epoch that some worker in a critical section still
/// announces is never freed (when no such worker lags half the epoch circle
/// behind the global epoch): the batches `get_next_batch` unlinks are
/// retired in the epoch the unlinking worker announced, so they stay while
/// it may still read them.
pub proof fn lemma_clean_keeps_in_use_epochs(
    retired: Seq<(u64, usize)>,
    global: usize,
    local_epochs: Seq<usize>,
)
    requires
        global <= EPOCH_MASK,
        within_window(global as int, local_epochs),
    ensures
        forall|i: int, w: int|
            0 <= i < reclaimable_prefix(retired, oldest_in_use(global as int, local_epochs)) && 0
                <= w < local_epochs.len() && local_epochs[w] != NOT_IN_CRITICAL ==> retired[i].1
                != local_epochs[w],
{
    lemma_clean_frees_unreachable(retired, global, local_epochs);
}

impl<J> RetiredList<J> {
    /// The retired batches, oldest first: each batch's id and the epoch in
    /// which it was retired.
    pub closed spec fn view(&self) -> Seq<(u64, usize)> {
        self.batches@.map_values(|b: TaskBatch<J>| (b.id(), b.retired_at()))
    }

    /// How many times `clean` has been called, modulo 256.
    pub closed spec fn ticks(&self) -> u8 {
        self.tick
    }

    /// An empty list.
    pub fn new() -> (list: Self)
        ensures
            list@ == Seq::<(u64, usize)>::empty(),
            list.ticks() == 0,
    {
        RetiredList { batches: VecDeque::new(), tick: 0 }
    }

    /// The number of batches waiting to be freed.
    pub fn len(&self) -> (n: usize)
        ensures
            n == self@.len(),
    {
        self.batches.len()
    }

    /// Appends `batch`, retired in `epoch`.
    pub fn push(&mut self, batch: TaskBatch<J>, epoch: usize)
        ensures
            final(self)@ == old(self)@.push((batch.id(), epoch)),
            final(self).ticks() == old(self).ticks(),
    {
        let mut batch = batch;
        batch.set_retired_epoch(epoch);
        self.batches.push_back(batch);
        proof {
            assert(final(self)@ =~= old(self)@.push((batch.id(), epoch)));
        }
    }

    /// Frees retired batches, every 256th call: advances the global epoch,
    /// takes the oldest epoch still in use, and frees the longest prefix of
    /// batches retired before it. The list is in the order of retirement, so
    /// only a prefix is examined.
    pub fn clean(&mut self, queue: &mut Queue<J>)
        requires
            old(queue).wf(),
        ensures
            final(self).ticks() == vstd::wrapping::u8_specs::wrapping_add(old(self).ticks(), 1),
            final(queue).wf(),
            final(queue).batches() == old(queue).batches(),
            final(queue).local_epochs() == old(queue).local_epochs(),
            final(queue).is_shut() == old(queue).is_shut(),
            final(queue).next_id() == old(queue).next_id(),
            serves(*old(queue), *final(queue), None),
            final(self).ticks() != 0 ==> final(self)@ == old(self)@ && final(queue).global()
                == old(queue).global(),
            final(self).ticks() == 0 ==> {
                let safe = oldest_in_use(
                    (final(queue).global() as int) % epoch_modulus(),
                    final(queue).local_epochs(),
                );
                &&& final(queue).global() == vstd::wrapping::usize_specs::wrapping_add(
                    old(queue).global(),
                    1,
                )
                &&& final(self)@ == old(self)@.skip(reclaimable_prefix(old(self)@, safe))
            },
    {
        self.tick = self.tick.wrapping_add(1);
        if self.tick != 0 {
            proof {
                lemma_serves_unchanged(*old(queue), *queue);
            }
            return;
        }
        let safe_epoch = queue.advance_and_min_epoch();
        let ghost safe = safe_epoch as int;
        let ghost start = self@;
        while self.batches.len() > 0
            invariant
                0 <= start.len() - self@.len() <= start.len(),
                self@ == start.skip(start.len() - self@.len()),
                reclaimable_prefix(start, safe) == (start.len() - self@.len())
                    + reclaimable_prefix(self@, safe),
                self.tick == 0,
                safe == safe_epoch as int,
            ensures
                self@ == start.skip(reclaimable_prefix(start, safe)),
            decreases self.batches@.len(),
        {
            let node_epoch = self.batches[0].get_retired_epoch();
            proof {
                assert(self@[0] == (self.batches@[0].id(), self.batches@[0].retired_at()));
                assert(self@[0].1 == node_epoch);
            }
            if !is_reclaimable(safe_epoch, node_epoch) {
                assert(reclaimable_prefix(self@, safe) == 0);
                break;
            }
            let ghost before = self@;
            let _freed = self.batches.pop_front();
            proof {
                assert(reclaimable(safe, before[0].1 as int));
                assert(reclaimable_prefix(before, safe) == 1 + reclaimable_prefix(
                    before.drop_first(),
                    safe,
                ));
                assert(self@ =~= before.drop_first());
                assert(start.skip(start.len() - self@.len()) =~= before.drop_first());
            }
        }
    }
}

} // verus!

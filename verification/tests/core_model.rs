use zero_pool::{
    epoch_is_older, is_reclaimable, mask_epoch, min_epoch, Claim, PaddedType, Queue, RetiredList,
    Scope, TaskBatch, TaskFuture, TimedWait, WaitOutcome, EPOCH_MASK, EPOCH_MASK_HALF,
    NOT_IN_CRITICAL,
};

// Runs every parameter a worker can claim, the way a worker loop does:
// one claim through the queue, then the rest of the same batch.
fn drain(queue: &mut Queue<u32>, worker: usize, retired: &mut RetiredList<u32>) -> Vec<(u32, u64, usize)> {
    let mut seen = Vec::new();
    while let Some(Claim { job, batch_id, param_index, byte_offset }) =
        queue.get_next_batch(worker, retired)
    {
        assert_eq!(byte_offset % 4, 0);
        let _ = param_index;
        seen.push((job, batch_id, byte_offset));
        while let Some(offset) = queue.claim_next_param(batch_id) {
            seen.push((job, batch_id, offset));
        }
    }
    seen
}

#[test]
fn padded_type_gives_back_its_value() {
    let mut p = PaddedType::new(41u64);
    assert_eq!(*p, 41);
    *p += 1;
    assert_eq!(*p, 42);
}

#[test]
fn epoch_constants_split_the_word() {
    assert_eq!(NOT_IN_CRITICAL, usize::MAX);
    assert_eq!(EPOCH_MASK, usize::MAX >> 1);
    assert_eq!(EPOCH_MASK_HALF, EPOCH_MASK / 2);
    assert_eq!(mask_epoch(5), 5);
    assert_eq!(mask_epoch(EPOCH_MASK + 3), 2);
    assert_eq!(mask_epoch(NOT_IN_CRITICAL), EPOCH_MASK);
}

#[test]
fn older_epochs_across_the_wrap() {
    assert!(epoch_is_older(7, 10));
    assert!(!epoch_is_older(12, 10));
    // an epoch just before the wrap is older than one just after it
    assert!(epoch_is_older(EPOCH_MASK, 1));
    assert!(!epoch_is_older(1, EPOCH_MASK));
    // an epoch is "older" than itself: distance zero
    assert!(epoch_is_older(10, 10));
}

#[test]
fn reclaim_needs_an_epoch_strictly_behind() {
    assert!(!is_reclaimable(10, 10));
    assert!(is_reclaimable(10, 9));
    assert!(is_reclaimable(1, EPOCH_MASK));
    assert!(!is_reclaimable(9, 10));
    assert!(!is_reclaimable(EPOCH_MASK_HALF + 5, 5));
    assert!(is_reclaimable(EPOCH_MASK_HALF + 4, 6));
}

#[test]
fn min_epoch_skips_idle_workers_and_finds_the_oldest() {
    assert_eq!(min_epoch(10, &[]), 10);
    assert_eq!(min_epoch(10, &[NOT_IN_CRITICAL, NOT_IN_CRITICAL]), 10);
    assert_eq!(min_epoch(10, &[NOT_IN_CRITICAL, 7, 9, 10]), 7);
    assert_eq!(min_epoch(2, &[EPOCH_MASK - 1, 1, NOT_IN_CRITICAL]), EPOCH_MASK - 1);
}

#[test]
fn batch_hands_out_offsets_in_order_then_keeps_counting() {
    let mut b = TaskBatch::new(3, 'x', 8, 3);
    assert!(b.has_unclaimed_tasks());
    assert_eq!(b.claim_next_param(), Some(0));
    assert_eq!(b.claim_next_param(), Some(8));
    assert_eq!(b.claim_next_param(), Some(16));
    assert!(!b.has_unclaimed_tasks());
    assert_eq!(b.claim_next_param(), None);
    assert_eq!(b.claim_next_param(), None);
    assert_eq!(b.get_id(), 3);
    assert_eq!(b.get_job(), 'x');
}

#[test]
fn zero_sized_parameters_are_each_handed_out() {
    let mut b = TaskBatch::new(1, 0u8, 0, 3);
    assert!(b.has_unclaimed_tasks());
    assert_eq!(b.get_next_index(), 0);
    assert_eq!(b.claim_next_param(), Some(0));
    assert_eq!(b.claim_next_param(), Some(0));
    assert_eq!(b.get_next_index(), 2);
    assert_eq!(b.claim_next_param(), Some(0));
    assert_eq!(b.claim_next_param(), None);
    let mut empty = TaskBatch::new(2, 0u8, 0, 0);
    assert!(!empty.has_unclaimed_tasks());
    assert_eq!(empty.claim_next_param(), None);
}

#[test]
fn zero_sized_tasks_are_queued_and_run() {
    let mut q: Queue<u32> = Queue::new(2, 0);
    let mut retired = RetiredList::new();
    let (future, woken) = q.push_task_batch(1, 8, 2);
    assert_eq!(future.remaining_tasks(), 2);
    assert_eq!(woken, vec![0, 1]);
    let (future, woken) = q.push_task_batch(2, 0, 3);
    assert_eq!(future.remaining_tasks(), 3);
    assert_eq!(woken, Vec::<usize>::new());
    // the tail holds zero-sized tasks, and work is still seen
    assert!(q.has_tasks());
    let mut seen = Vec::new();
    while let Some(c) = q.get_next_batch(0, &mut retired) {
        seen.push((c.job, c.batch_id, c.param_index, c.byte_offset));
        while let Some(offset) = q.claim_next_param(c.batch_id) {
            seen.push((c.job, c.batch_id, usize::MAX, offset));
        }
    }
    assert_eq!(
        seen,
        vec![
            (1, 1, 0, 0),
            (1, 1, usize::MAX, 8),
            (2, 2, 0, 0),
            (2, 2, usize::MAX, 0),
            (2, 2, usize::MAX, 0),
        ]
    );
    assert!(!q.has_tasks());
}

#[test]
fn a_scope_of_zero_sized_tasks_completes() {
    let mut q: Queue<u32> = Queue::new(1, 0);
    let mut retired = RetiredList::new();
    let mut s = Scope::new();
    s.run(&mut q, 9, 0, 4);
    assert_eq!(s.outstanding_count(), 4);
    let mut completed = 0;
    while let Some(c) = q.get_next_batch(0, &mut retired) {
        completed += 1;
        while q.claim_next_param(c.batch_id).is_some() {
            completed += 1;
        }
    }
    assert_eq!(completed, 4);
    assert!(s.complete_many(completed));
    assert!(s.is_complete());
}

#[test]
fn new_queue_holds_only_the_anchor() {
    let q: Queue<u32> = Queue::new(3, 0);
    assert_eq!(q.worker_count(), 3);
    assert_eq!(q.batch_count(), 1);
    assert!(!q.has_tasks());
    assert!(!q.is_shutdown());
    assert_eq!(q.global_epoch(), 0);
    for w in 0..3 {
        assert_eq!(q.local_epoch(w), NOT_IN_CRITICAL);
    }
}

#[test]
fn push_wakes_idle_workers_lowest_first_up_to_the_task_count() {
    let mut q: Queue<u32> = Queue::new(4, 0);
    assert_eq!(q.push_task_batch(1, 8, 2).1, vec![0, 1]);
    assert_eq!(q.local_epoch(0), 0);
    assert_eq!(q.local_epoch(2), NOT_IN_CRITICAL);
    assert_eq!(q.push_task_batch(2, 8, 10).1, vec![2, 3]);
    assert_eq!(q.push_task_batch(3, 8, 1).1, Vec::<usize>::new());
    assert_eq!(q.batch_count(), 4);
}

#[test]
fn empty_batches_are_not_queued() {
    let mut q: Queue<u32> = Queue::new(2, 0);
    let (future, woken) = q.push_task_batch(1, 8, 0);
    assert!(future.is_complete());
    assert_eq!(woken, Vec::<usize>::new());
    assert_eq!(q.batch_count(), 1);
    assert!(!q.has_tasks());
    let mut retired = RetiredList::new();
    assert!(q.get_next_batch(0, &mut retired).is_none());
}

#[test]
fn tasks_are_handed_out_once_each_in_submission_order() {
    let mut q: Queue<u32> = Queue::new(2, 0);
    let mut retired = RetiredList::new();
    q.push_task_batch(10, 4, 3);
    q.push_task_batch(20, 16, 2);
    assert!(q.has_tasks());
    let seen = drain(&mut q, 0, &mut retired);
    assert_eq!(
        seen,
        vec![(10, 1, 0), (10, 1, 4), (10, 1, 8), (20, 2, 0), (20, 2, 16)]
    );
    assert!(!q.has_tasks());
    // the anchor and the first batch were unlinked and retired
    assert_eq!(retired.len(), 2);
    assert_eq!(q.batch_count(), 1);
}

#[test]
fn get_next_batch_announces_the_current_epoch() {
    let mut q: Queue<u32> = Queue::new(2, 0);
    let mut retired = RetiredList::new();
    assert_eq!(q.wait_for_work(1), WaitOutcome::Park);
    assert_eq!(q.local_epoch(1), NOT_IN_CRITICAL);
    assert!(q.get_next_batch(1, &mut retired).is_none());
    assert_eq!(q.local_epoch(1), 0);
}

#[test]
fn a_worker_claims_within_the_batch_it_was_handed() {
    let mut q: Queue<u32> = Queue::new(1, 0);
    let mut retired = RetiredList::new();
    q.push_task_batch(5, 1, 2);
    let first = q.get_next_batch(0, &mut retired).unwrap();
    assert_eq!((first.job, first.batch_id, first.byte_offset), (5, 1, 0));
    // another batch id gets nothing
    assert_eq!(q.claim_next_param(7), None);
    assert_eq!(q.claim_next_param(1), Some(1));
    assert_eq!(q.claim_next_param(1), None);
}

#[test]
fn wait_for_work_works_parks_or_exits() {
    let mut q: Queue<u32> = Queue::new(2, 0);
    assert_eq!(q.wait_for_work(0), WaitOutcome::Park);
    assert_eq!(q.local_epoch(0), NOT_IN_CRITICAL);
    q.push_task_batch(1, 8, 1);
    assert_eq!(q.wait_for_work(0), WaitOutcome::Work);
    assert_eq!(q.shutdown(), vec![0, 1]);
    assert!(q.is_shutdown());
    // pending work is still taken before exiting
    assert_eq!(q.wait_for_work(0), WaitOutcome::Work);
    let mut retired = RetiredList::new();
    drain(&mut q, 0, &mut retired);
    assert_eq!(q.wait_for_work(0), WaitOutcome::Shutdown);
}

#[test]
fn advancing_the_epoch_reports_the_oldest_in_use() {
    let mut q: Queue<u32> = Queue::new(2, 0);
    let mut retired = RetiredList::new();
    // nobody in a critical section: the new global epoch
    assert_eq!(q.advance_and_min_epoch(), 1);
    assert_eq!(q.global_epoch(), 1);
    // worker 0 enters in epoch 1, then the global epoch moves on
    q.get_next_batch(0, &mut retired);
    assert_eq!(q.advance_and_min_epoch(), 1);
    assert_eq!(q.advance_and_min_epoch(), 1);
    assert_eq!(q.global_epoch(), 3);
}

#[test]
fn clean_runs_every_256th_call_and_frees_a_prefix() {
    let mut q: Queue<u32> = Queue::new(1, 0);
    let mut retired = RetiredList::new();
    let b0 = TaskBatch::new(0, 0u32, 0, 0);
    let b1 = TaskBatch::new(1, 0u32, 0, 0);
    retired.push(b0, 0);
    retired.push(b1, 5);
    for _ in 0..255 {
        retired.clean(&mut q);
    }
    assert_eq!(retired.len(), 2);
    assert_eq!(q.global_epoch(), 0);
    // the 256th call advances the epoch to 1: only epoch 0 lies behind it
    retired.clean(&mut q);
    assert_eq!(q.global_epoch(), 1);
    assert_eq!(retired.len(), 1);
    for _ in 0..(256 * 5) {
        retired.clean(&mut q);
    }
    assert_eq!(q.global_epoch(), 6);
    assert_eq!(retired.len(), 0);
}

#[test]
fn clean_keeps_what_a_worker_may_still_read() {
    let mut q: Queue<u32> = Queue::new(2, 0);
    let mut retired = RetiredList::new();
    q.push_task_batch(1, 8, 1);
    // worker 0 enters in epoch 0, takes the task and unlinks the anchor
    q.get_next_batch(0, &mut retired).unwrap();
    assert_eq!(retired.len(), 1);
    for _ in 0..(256 * 3) {
        retired.clean(&mut q);
    }
    // worker 0 is still in epoch 0, so the batch retired in epoch 0 stays
    assert_eq!(retired.len(), 1);
    assert_eq!(q.wait_for_work(0), WaitOutcome::Park);
    for _ in 0..256 {
        retired.clean(&mut q);
    }
    assert_eq!(retired.len(), 0);
}

#[test]
fn scope_counts_outstanding_tasks() {
    let mut q: Queue<u32> = Queue::new(2, 0);
    let mut s = Scope::new();
    assert!(s.is_complete());
    assert_eq!(s.run(&mut q, 1, 8, 3), vec![0, 1]);
    assert_eq!(s.run(&mut q, 2, 8, 0), Vec::<usize>::new());
    assert!(!s.is_complete());
    assert!(!s.complete_many(2));
    assert!(s.complete_many(1));
    assert!(s.is_complete());
}

#[test]
fn future_wakes_its_waiter_on_the_last_completion() {
    let mut f = TaskFuture::new(5);
    assert!(!f.is_complete());
    assert!(!f.complete_many(3));
    assert!(f.complete_many(2));
    assert!(f.is_complete());
    assert!(TaskFuture::new(0).is_complete());
}

#[test]
fn timed_wait_steps() {
    let f = TaskFuture::new(1);
    assert_eq!(f.wait_timeout_step(0, 100), TimedWait::ParkFor(100));
    assert_eq!(f.wait_timeout_step(40, 100), TimedWait::ParkFor(60));
    assert_eq!(f.wait_timeout_step(100, 100), TimedWait::TimedOut);
    let done = TaskFuture::new(0);
    assert_eq!(done.wait_timeout_step(500, 100), TimedWait::Complete);
}

#[test]
fn many_submissions_keep_the_retired_list_short() {
    // two workers taking turns through 550 single-task submissions, cleaning
    // after every batch as the worker loop does
    let mut q: Queue<u32> = Queue::new(2, 0);
    let mut retired = [RetiredList::new(), RetiredList::new()];
    let mut handed_out = 0;
    for round in 0..550u32 {
        q.push_task_batch(round, 8, 1);
        let w = (round % 2) as usize;
        let claim = q.get_next_batch(w, &mut retired[w]).unwrap();
        assert_eq!((claim.job, claim.byte_offset), (round, 0));
        assert_eq!(q.claim_next_param(claim.batch_id), None);
        handed_out += 1;
        retired[w].clean(&mut q);
        assert_eq!(q.wait_for_work(w), WaitOutcome::Park);
    }
    assert_eq!(handed_out, 550);
    assert!(!q.has_tasks());
    // each worker cleaned 275 times: the epoch moved on once per worker
    assert_eq!(q.global_epoch(), 2);
    assert!(retired[0].len() + retired[1].len() < 550);
}

#[test]
fn consecutive_batches_are_handed_out_whole() {
    let mut q: Queue<u32> = Queue::new(3, 0);
    let mut retired = RetiredList::new();
    for round in 0..3u32 {
        q.push_task_batch(round, 8, 10);
        let seen = drain(&mut q, 0, &mut retired);
        let expected: Vec<(u32, u64, usize)> =
            (0..10).map(|i| (round, (round + 1) as u64, i * 8)).collect();
        assert_eq!(seen, expected);
    }
}

use vstd::prelude::*;
use vstd::arithmetic::div_mod::{
    lemma_mod_bound, lemma_mod_multiples_vanish, lemma_small_mod, lemma_sub_mod_noop,
};

verus! {

/// The local epoch of a worker that is outside any critical section.
pub const NOT_IN_CRITICAL: usize = usize::MAX;

/// Epochs use only the lower bits of a word; this masks them.
pub const EPOCH_MASK: usize = usize::MAX >> 1;

/// Half of the epoch circle: an epoch less than this far behind another is
/// taken to be older than it.
pub const EPOCH_MASK_HALF: usize = EPOCH_MASK / 2;

/// The number of distinct epochs: epochs count modulo this.
pub open spec fn epoch_modulus() -> int {
    EPOCH_MASK as int + 1
}

proof fn lemma_le_all_ones(y: usize)
    ensures
        y <= !0usize,
{
    assert(y <= !0usize) by (bit_vector);
}

proof fn lemma_max_is_all_ones()
    ensures
        usize::MAX == !0usize,
{
    lemma_le_all_ones(usize::MAX);
}

pub proof fn lemma_epoch_constants()
    ensures
        usize::MAX == 2 * EPOCH_MASK + 1,
        epoch_modulus() == EPOCH_MASK + 1,
        EPOCH_MASK_HALF == EPOCH_MASK / 2,
        EPOCH_MASK >= 0x7fff_ffff,
        NOT_IN_CRITICAL > EPOCH_MASK,
{
    let y = usize::MAX;
    assert(y >> 1usize == y / 2) by (bit_vector);
    assert(usize::MAX == 0xffff_ffff || usize::MAX == 0xffff_ffff_ffff_ffff);
}

pub proof fn lemma_mask_is_mod(x: usize)
    ensures
        x & EPOCH_MASK == (x as int) % epoch_modulus(),
{
    lemma_max_is_all_ones();
    lemma_epoch_constants();
    assert(x & (!0usize >> 1usize) == x % ((!0usize >> 1usize) + 1) as usize) by (bit_vector);
}

/// How far epoch `b` lies behind epoch `a` on the epoch circle.
pub open spec fn epoch_distance(a: int, b: int) -> int {
    (a - b) % epoch_modulus()
}

proof fn lemma_wrapping_sub_mod(a: usize, b: usize)
    ensures
        (vstd::wrapping::usize_specs::wrapping_sub(a, b) as int) % epoch_modulus() == (a - b)
            % epoch_modulus(),
{
    lemma_epoch_constants();
    if a - b < 0 {
        assert(vstd::wrapping::usize_specs::wrapping_sub(a, b) as int == epoch_modulus() * 2 + (a
            - b));
        lemma_mod_multiples_vanish(2, a - b, epoch_modulus());
    }
}

/// Two epochs that are the given distances behind a common reference lie
/// the difference of those distances apart.
proof fn lemma_distance_shift(g: int, x: int, y: int)
    ensures
        epoch_distance(x, y) == (epoch_distance(g, y) - epoch_distance(g, x)) % epoch_modulus(),
{
    lemma_epoch_constants();
    let p = epoch_modulus();
    lemma_sub_mod_noop(g - y, g - x, p);
}

/// The epoch that a raw counter value stands for.
pub fn mask_epoch(raw: usize) -> (e: usize)
    ensures
        e == (raw as int) % epoch_modulus(),
{
    proof {
        lemma_mask_is_mod(raw);
    }
    raw & EPOCH_MASK
}

/// Whether `candidate` is older than `current`: less than half the circle
/// behind it.
pub fn epoch_is_older(candidate: usize, current: usize) -> (older: bool)
    ensures
        older == (epoch_distance(current as int, candidate as int) < EPOCH_MASK_HALF),
{
    let d = current.wrapping_sub(candidate);
    proof {
        lemma_mask_is_mod(d);
        lemma_wrapping_sub_mod(current, candidate);
    }
    d & EPOCH_MASK < EPOCH_MASK_HALF
}

/// A batch retired in epoch `retired` may be freed once the oldest epoch
/// still in use is `safe`: `retired` must lie strictly behind `safe`, by less
/// than half the circle.
pub open spec fn reclaimable(safe: int, retired: int) -> bool {
    1 <= epoch_distance(safe, retired) < EPOCH_MASK_HALF
}

/// Whether a batch retired in epoch `retired_epoch` may be freed when the
/// oldest epoch in use is `safe_epoch`.
pub fn is_reclaimable(safe_epoch: usize, retired_epoch: usize) -> (r: bool)
    ensures
        r == reclaimable(safe_epoch as int, retired_epoch as int),
{
    let d = safe_epoch.wrapping_sub(retired_epoch);
    let d1 = d.wrapping_sub(1);
    proof {
        lemma_epoch_constants();
        let p = epoch_modulus();
        lemma_mask_is_mod(d1);
        lemma_wrapping_sub_mod(safe_epoch, retired_epoch);
        lemma_wrapping_sub_mod(d, 1);
        lemma_sub_mod_noop(d as int, 1, p);
        lemma_small_mod(1, p as nat);
        let dist = epoch_distance(safe_epoch as int, retired_epoch as int);
        lemma_mod_bound(safe_epoch - retired_epoch, p);
        assert((d1 as int) % p == (dist - 1) % p);
        if dist >= 1 {
            lemma_small_mod((dist - 1) as nat, p as nat);
        } else {
            lemma_mod_multiples_vanish(1, -1, p);
            lemma_small_mod((p - 1) as nat, p as nat);
        }
    }
    d1 & EPOCH_MASK < EPOCH_MASK_HALF - 1
}

/// One step of the scan for the oldest epoch in use: a worker's local
/// epoch `e` replaces `current` when the worker is inside a critical section
/// and `e` is older than `current`.
pub open spec fn keep_older(current: int, e: usize) -> int {
    if e != NOT_IN_CRITICAL && epoch_distance(current, e as int) < EPOCH_MASK_HALF {
        e as int
    } else {
        current
    }
}

/// The oldest epoch in use: the scan of `local_epochs`, in order, from `start`.
pub open spec fn oldest_in_use(start: int, local_epochs: Seq<usize>) -> int {
    local_epochs.fold_left(start, |m: int, e: usize| keep_older(m, e))
}

/// Scans the workers' local epochs for the oldest one in use, starting from
/// the current global epoch `start`.
pub fn min_epoch(start: usize, local_epochs: &[usize]) -> (m: usize)
    ensures
        m == oldest_in_use(start as int, local_epochs@),
        start <= EPOCH_MASK && epochs_near(start as int, local_epochs@) ==> {
            &&& m <= EPOCH_MASK
            &&& epoch_distance(start as int, m as int) < EPOCH_MASK_HALF
            &&& (m == start || exists|i: int|
                0 <= i < local_epochs@.len() && local_epochs@[i] != NOT_IN_CRITICAL
                    && local_epochs@[i] == m)
            &&& forall|i: int|
                0 <= i < local_epochs@.len() && local_epochs@[i] != NOT_IN_CRITICAL
                    && epoch_distance(start as int, local_epochs@[i] as int) < EPOCH_MASK_HALF
                    ==> epoch_distance(start as int, local_epochs@[i] as int) <= epoch_distance(
                    start as int,
                    m as int,
                )
        },
{
    let mut m = start;
    let mut i: usize = 0;
    while i < local_epochs.len()
        invariant
            i <= local_epochs@.len(),
            m == oldest_in_use(start as int, local_epochs@.take(i as int)),
        decreases local_epochs.len() - i,
    {
        let e = local_epochs[i];
        if e != NOT_IN_CRITICAL {
            if epoch_is_older(e, m) {
                m = e;
            }
        }
        proof {
            assert(local_epochs@.take(i + 1).drop_last() == local_epochs@.take(i as int));
        }
        i += 1;
    }
    proof {
        assert(local_epochs@.take(i as int) == local_epochs@);
        if start <= EPOCH_MASK && epochs_near(start as int, local_epochs@) {
            lemma_min_epoch_never_ahead(start, local_epochs@);
        }
    }
    m
}

/// Every worker inside a critical section announced an epoch less than half
/// the circle behind `start`.
pub open spec fn within_window(start: int, local_epochs: Seq<usize>) -> bool {
    forall|i: int|
        0 <= i < local_epochs.len() && local_epochs[i] != NOT_IN_CRITICAL ==> local_epochs[i]
            <= EPOCH_MASK && epoch_distance(start, local_epochs[i] as int) < EPOCH_MASK_HALF
}

proof fn lemma_small_distance(x: int)
    requires
        -epoch_modulus() < x < epoch_modulus(),
    ensures
        x >= 0 ==> x % epoch_modulus() == x,
        x < 0 ==> x % epoch_modulus() == x + epoch_modulus(),
{
    lemma_epoch_constants();
    let p = epoch_modulus();
    if x >= 0 {
        lemma_small_mod(x as nat, p as nat);
    } else {
        lemma_mod_multiples_vanish(1, x, p);
        lemma_small_mod((x + p) as nat, p as nat);
    }
}

/// When every worker in a critical section lies within half the circle of
/// `start`, the scan finds the epoch in use that lies furthest behind
/// `start`.
pub proof fn lemma_oldest_in_use(start: usize, local_epochs: Seq<usize>)
    requires
        start <= EPOCH_MASK,
        within_window(start as int, local_epochs),
    ensures
        0 <= oldest_in_use(start as int, local_epochs) <= EPOCH_MASK,
        epoch_distance(start as int, oldest_in_use(start as int, local_epochs)) < EPOCH_MASK_HALF,
        forall|i: int|
            0 <= i < local_epochs.len() && local_epochs[i] != NOT_IN_CRITICAL ==> epoch_distance(
                start as int,
                local_epochs[i] as int,
            ) <= epoch_distance(start as int, oldest_in_use(start as int, local_epochs)),
    decreases local_epochs.len(),
{
    lemma_epoch_constants();
    let p = epoch_modulus();
    if local_epochs.len() == 0 {
        lemma_small_distance(0);
    } else {
        let init = local_epochs.drop_last();
        let e = local_epochs.last();
        assert(within_window(start as int, init)) by {
            assert forall|i: int| 0 <= i < init.len() && init[i] != NOT_IN_CRITICAL implies init[i]
                <= EPOCH_MASK && epoch_distance(start as int, init[i] as int)
                < EPOCH_MASK_HALF by {
                assert(init[i] == local_epochs[i]);
            }
        }
        lemma_oldest_in_use(start, init);
        let m0 = oldest_in_use(start as int, init);
        assert(oldest_in_use(start as int, local_epochs) == keep_older(m0, e));
        let dm = epoch_distance(start as int, m0);
        lemma_mod_bound(start - m0, p);
        if e != NOT_IN_CRITICAL {
            let de = epoch_distance(start as int, e as int);
            assert(e == local_epochs[local_epochs.len() - 1]);
            lemma_mod_bound(start - e, p);
            lemma_distance_shift(start as int, m0, e as int);
            lemma_small_distance(de - dm);
        }
        assert forall|i: int|
            0 <= i < local_epochs.len() && local_epochs[i] != NOT_IN_CRITICAL implies epoch_distance(
            start as int,
            local_epochs[i] as int,
        ) <= epoch_distance(start as int, oldest_in_use(start as int, local_epochs)) by {
            if i < local_epochs.len() - 1 {
                assert(init[i] == local_epochs[i]);
            }
        }
    }
}

/// The in-use epochs lie near `start`: each is a masked epoch less than
/// half the circle behind `start` or strictly ahead of it by less than half
/// the circle, and an epoch behind and an epoch ahead lie no more than half
/// the circle apart.
pub open spec fn epochs_near(start: int, local_epochs: Seq<usize>) -> bool {
    &&& forall|i: int|
        0 <= i < local_epochs.len() && local_epochs[i] != NOT_IN_CRITICAL ==> {
            &&& local_epochs[i] <= EPOCH_MASK
            &&& (epoch_distance(start, local_epochs[i] as int) < EPOCH_MASK_HALF || 0
                < epoch_distance(local_epochs[i] as int, start) < EPOCH_MASK_HALF)
        }
    &&& forall|i: int, j: int|
        0 <= i < local_epochs.len() && 0 <= j < local_epochs.len() && local_epochs[i]
            != NOT_IN_CRITICAL && local_epochs[j] != NOT_IN_CRITICAL && epoch_distance(
            start,
            local_epochs[i] as int,
        ) < EPOCH_MASK_HALF && epoch_distance(start, local_epochs[j] as int) >= EPOCH_MASK_HALF
            ==> epoch_distance(start, local_epochs[i] as int) + epoch_distance(
            local_epochs[j] as int,
            start,
        ) <= EPOCH_MASK_HALF
}

/// Epochs newer than the start are never reported as the oldest in use.
/// When the in-use epochs lie near `start`, the scan gives `start` or an
/// in-use epoch behind `start`, never one ahead of it, and nothing in use
/// lies further behind `start` than the result: the result is the in-use
/// epoch behind `start` that is furthest behind it, or `start` if none lies
/// behind it.
pub proof fn lemma_min_epoch_never_ahead(start: usize, local_epochs: Seq<usize>)
    requires
        start <= EPOCH_MASK,
        epochs_near(start as int, local_epochs),
    ensures
        0 <= oldest_in_use(start as int, local_epochs) <= EPOCH_MASK,
        epoch_distance(start as int, oldest_in_use(start as int, local_epochs)) < EPOCH_MASK_HALF,
        oldest_in_use(start as int, local_epochs) == start || exists|i: int|
            0 <= i < local_epochs.len() && local_epochs[i] != NOT_IN_CRITICAL && local_epochs[i]
                == oldest_in_use(start as int, local_epochs),
        forall|i: int|
            0 <= i < local_epochs.len() && local_epochs[i] != NOT_IN_CRITICAL && epoch_distance(
                start as int,
                local_epochs[i] as int,
            ) < EPOCH_MASK_HALF ==> epoch_distance(start as int, local_epochs[i] as int)
                <= epoch_distance(start as int, oldest_in_use(start as int, local_epochs)),
    decreases local_epochs.len(),
{
    lemma_epoch_constants();
    let p = epoch_modulus();
    if local_epochs.len() == 0 {
        lemma_small_distance(0);
    } else {
        let init = local_epochs.drop_last();
        let e = local_epochs.last();
        assert(e == local_epochs[local_epochs.len() - 1]);
        assert(epochs_near(start as int, init)) by {
            assert forall|i: int| 0 <= i < init.len() implies init[i] == local_epochs[i] by {}
        }
        lemma_min_epoch_never_ahead(start, init);
        let m0 = oldest_in_use(start as int, init);
        assert(oldest_in_use(start as int, local_epochs) == keep_older(m0, e));
        let dm = epoch_distance(start as int, m0);
        lemma_mod_bound(start - m0, p);
        if m0 != start {
            let k = choose|i: int|
                0 <= i < init.len() && init[i] != NOT_IN_CRITICAL && init[i] == m0;
            assert(local_epochs[k] == init[k]);
        }
        if m0 == start {
            lemma_small_distance(0);
        }
        if e != NOT_IN_CRITICAL {
            let de = epoch_distance(start as int, e as int);
            lemma_mod_bound(start - e, p);
            lemma_mod_bound(e - start, p);
            lemma_distance_shift(start as int, m0, e as int);
            lemma_small_distance(de - dm);
            if de >= EPOCH_MASK_HALF {
                // `e` lies ahead of `start`: it is not older than `m0`
                let a = epoch_distance(e as int, start as int);
                vstd::arithmetic::div_mod::lemma_sub_mod_noop(0, start - e, p);
                lemma_small_mod(0, p as nat);
                lemma_small_distance(-de);
                assert(a == p - de);
                if m0 != start {
                    let k = choose|i: int|
                        0 <= i < init.len() && init[i] != NOT_IN_CRITICAL && init[i] == m0;
                    assert(local_epochs[k] == m0);
                    assert(dm + a <= EPOCH_MASK_HALF);
                } else {
                    assert(dm == 0);
                }
            }
        }
        assert forall|i: int|
            0 <= i < local_epochs.len() && local_epochs[i] != NOT_IN_CRITICAL && epoch_distance(
                start as int,
                local_epochs[i] as int,
            ) < EPOCH_MASK_HALF implies epoch_distance(start as int, local_epochs[i] as int)
            <= epoch_distance(start as int, oldest_in_use(start as int, local_epochs)) by {
            if i < local_epochs.len() - 1 {
                assert(init[i] == local_epochs[i]);
            }
        }
        let m = oldest_in_use(start as int, local_epochs);
        if m != start {
            if m == e as int {
                assert(local_epochs[local_epochs.len() - 1] == m);
            } else {
                let k = choose|i: int|
                    0 <= i < init.len() && init[i] != NOT_IN_CRITICAL && init[i] == m0;
                assert(local_epochs[k] == m);
            }
        }
    }
}

/// Reclamation is safe: when every worker in a critical section lies within
/// half the circle of the global epoch, a batch that may be freed against the
/// oldest epoch in use was retired strictly before the epoch that every such
/// worker announced, so none of them can still hold it.
pub proof fn lemma_reclaim_safe(global: usize, local_epochs: Seq<usize>, retired: usize)
    requires
        global <= EPOCH_MASK,
        within_window(global as int, local_epochs),
        reclaimable(oldest_in_use(global as int, local_epochs), retired as int),
    ensures
        epoch_distance(global as int, retired as int) > 0,
        forall|i: int|
            0 <= i < local_epochs.len() && local_epochs[i] != NOT_IN_CRITICAL ==> epoch_distance(
                global as int,
                retired as int,
            ) > epoch_distance(global as int, local_epochs[i] as int),
{
    lemma_epoch_constants();
    let p = epoch_modulus();
    lemma_oldest_in_use(global, local_epochs);
    let m = oldest_in_use(global as int, local_epochs);
    let dm = epoch_distance(global as int, m);
    let dr = epoch_distance(global as int, retired as int);
    lemma_mod_bound(global - m, p);
    lemma_mod_bound(global - retired, p);
    lemma_distance_shift(global as int, m, retired as int);
    lemma_small_distance(dr - dm);
}

} // verus!

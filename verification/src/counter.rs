//! Counting the primes of a range `[start, limit]`: the base primes up to the
//! square root of the limit are found once, the range is cut into segments of
//! one size, and the segment sieve is run on each. The count is the primes
//! among the base primes that lie in the range, plus what every segment
//! reports.

use crate::cpu::{get_cache_size, get_cores};
use crate::primality::{
    lemma_no_primes_below_two, lemma_primes_between_bound, lemma_primes_between_split, prime,
    primes_between,
};
use crate::segment::{scratch_after, segment_count, segment_sieve};
use crate::sieve::{
    entries_below, lemma_entries_below_bounds, lemma_odd_entries, lemma_table_counts,
    lists_primes_up_to, simple_sieve,
};
use crate::tiling::{
    lemma_count_is_exact, lemma_count_so_far, lemma_segment_bounds, segment_high, segment_low,
    segments_needed, segments_total,
};
use vstd::prelude::*;

verus! {

/// `root` is the integer square root of `n`: the largest number whose square
/// does not exceed `n`.
pub open spec fn is_sqrt_floor(n: int, root: int) -> bool {
    0 <= root && root * root <= n < (root + 1) * (root + 1)
}

/// The integer square root of `n`, exact for every 64-bit value.
pub fn isqrt(n: u64) -> (root: u32)
    ensures
        is_sqrt_floor(n as int, root as int),
{
    let mut lo: u64 = 0;
    let mut hi: u64 = 0x1_0000_0000;
    assert(0x1_0000_0000 * 0x1_0000_0000 > n) by (nonlinear_arith)
        requires
            n <= u64::MAX,
    ;
    while hi - lo > 1
        invariant
            lo < hi <= 0x1_0000_0000,
            lo * lo <= n < hi * hi,
        decreases hi - lo,
    {
        let mid: u64 = lo + (hi - lo) / 2;
        assert(mid * mid <= 0xffff_ffff * 0xffff_ffff) by (nonlinear_arith)
            requires
                mid <= 0xffff_ffff,
        ;
        if mid * mid <= n {
            lo = mid;
        } else {
            hi = mid;
        }
    }
    lo as u32
}

/// Counts the entries of `table` that are below `start`.
pub fn count_below(table: &Vec<u32>, start: u64) -> (below: usize)
    ensures
        below == entries_below(table@, start as int),
{
    let mut below: usize = 0;
    let mut i: usize = 0;
    while i < table.len()
        invariant
            i <= table.len(),
            below <= i,
            below == entries_below(table@.take(i as int), start as int),
        decreases table.len() - i,
    {
        assert(table@.take(i + 1).drop_last() == table@.take(i as int));
        if (table[i] as u64) < start {
            below += 1;
        }
        i += 1;
    }
    assert(table@.take(i as int) == table@);
    below
}

/// The largest cache hint that is taken as given, in bytes; a larger one
/// counts as this much. A segment then spans at most 2^32 numbers.
pub const MAX_CACHE_HINT: usize = 0x1000_0000;

/// The size of the segments that `[start, limit]` is cut into: sixteen
/// numbers for each byte of the cache hint, but no less than the square root
/// of the limit and no more than what lies above the root and the start up
/// to the limit, rounded up to a multiple of 16.
pub open spec fn segment_span(limit: int, start: int, root: int, cache: int) -> int {
    let hint = if cache > MAX_CACHE_HINT {
        MAX_CACHE_HINT * 16
    } else {
        cache * 16
    };
    let wanted = if root > hint {
        root
    } else {
        hint
    };
    let floor = if root > start - 1 {
        root
    } else {
        start - 1
    };
    let span = if wanted < limit - floor {
        wanted
    } else {
        limit - floor
    };
    (span + 15) / 16 * 16
}

/// The integer square root of a number of at least 2 is at least 1 and
/// below the number.
pub proof fn lemma_root_below(limit: int, root: int)
    requires
        2 <= limit,
        is_sqrt_floor(limit, root),
    ensures
        1 <= root < limit,
{
    assert(1 <= root && root < limit) by (nonlinear_arith)
        requires
            2 <= limit,
            0 <= root,
            root * root <= limit < (root + 1) * (root + 1),
    ;
}

/// Computes the segment size for `[start, limit]` from the root of the limit
/// and the cache hint.
pub fn segment_size(limit: u64, start: u64, root: u32, cache: usize) -> (step: u64)
    requires
        2 <= start <= limit,
        is_sqrt_floor(limit as int, root as int),
    ensures
        step == segment_span(limit as int, start as int, root as int, cache as int),
        16 <= step <= 0x1_0000_0000,
        step % 16 == 0,
{
    proof {
        lemma_root_below(limit as int, root as int);
    }
    let hint: u64 = if cache > MAX_CACHE_HINT {
        MAX_CACHE_HINT as u64 * 16
    } else {
        cache as u64 * 16
    };
    let wanted: u64 = if root as u64 > hint {
        root as u64
    } else {
        hint
    };
    let floor: u64 = if root as u64 > start - 1 {
        root as u64
    } else {
        start - 1
    };
    let span: u64 = if wanted < limit - floor {
        wanted
    } else {
        limit - floor
    };
    (span + 15) / 16 * 16
}

/// The primes of `[start, limit]` that no segment reports: the base primes
/// from `start` on and, where the limit is 3, the prime 2, which the table
/// does not hold yet and which has no slot in the one segment `[2, 3]`.
pub open spec fn seeded(start: int, limit: int, root: int) -> nat {
    if limit == 3 && start <= 2 {
        primes_between(start, root) + 1
    } else {
        primes_between(start, root)
    }
}

/// Counts the primes of `[start, limit]` that no segment reports: the
/// entries of the table from `start` on, and one more for the prime 2 where
/// the limit is 3.
pub fn initial_count(table: &Vec<u32>, start: u64, limit: u64, root: u32) -> (seed: usize)
    requires
        2 <= start <= limit,
        is_sqrt_floor(limit as int, root as int),
        lists_primes_up_to(table@, root as int),
    ensures
        seed == seeded(start as int, limit as int, root as int),
{
    proof {
        lemma_table_counts(table@, root as int, start as int);
        lemma_entries_below_bounds(table@, start as int);
        lemma_primes_between_bound(start as int, root as int);
        assert forall|i: int| 0 <= i < table@.len() implies table@[i] >= 2 by {
            assert(prime(table@[i] as int));
        }
        if limit == 3 {
            assert(root == 1) by (nonlinear_arith)
                requires
                    0 <= root,
                    root * root <= 3 < (root + 1) * (root + 1),
            ;
            lemma_no_primes_below_two(start as int, root as int);
        }
    }
    let mut seed: usize = table.len();
    if start > 2 {
        seed -= if start > root as u64 {
            table.len()
        } else {
            count_below(table, start)
        };
    }
    if limit == 3 && start == 2 {
        seed += 1;
    }
    seed
}

/// One piece of the range, both ends included.
#[derive(Clone, Copy, Debug, PartialEq, Eq)]
pub struct Segment {
    pub low: usize,
    pub high: usize,
}

/// What a cursor stands for: the range, the segment size, and the index of
/// the next segment to hand out, or `None` once the last one is out.
pub struct CursorState {
    pub start: int,
    pub limit: int,
    pub step: int,
    pub next: Option<int>,
}

/// The cursor from which the workers claim their segments, each segment
/// once and in order.
pub struct WorkCursor {
    start: u64,
    limit: u64,
    step: u64,
    next: Option<u64>,
}

impl View for WorkCursor {
    type V = CursorState;

    closed spec fn view(&self) -> CursorState {
        CursorState {
            start: self.start as int,
            limit: self.limit as int,
            step: self.step as int,
            next: match self.next {
                Some(k) => Some(k as int),
                None => None,
            },
        }
    }
}

impl WorkCursor {
    /// The next segment, where there is one, starts within the range.
    #[verifier::type_invariant]
    spec fn inv(self) -> bool {
        &&& self.step >= 1
        &&& self.limit <= usize::MAX
        &&& self.next matches Some(k) ==> self.start + k * self.step <= self.limit
    }

    /// A cursor at the first segment of `[start, limit]`, or an exhausted one
    /// where the range is empty.
    pub fn new(start: usize, limit: usize, step: u64) -> (cursor: WorkCursor)
        requires
            step >= 1,
        ensures
            cursor@.start == start,
            cursor@.limit == limit,
            cursor@.step == step,
            cursor@.next == if start <= limit {
                Some(0int)
            } else {
                None
            },
    {
        assert(0 * step == 0) by (nonlinear_arith);
        WorkCursor {
            start: start as u64,
            limit: limit as u64,
            step,
            next: if start <= limit {
                Some(0)
            } else {
                None
            },
        }
    }

    /// Whether every segment has been handed out.
    pub fn is_exhausted(&self) -> (done: bool)
        ensures
            done == (self@.next is None),
    {
        self.next.is_none()
    }

    /// Hands out the next segment and moves on, to the segment after it or to
    /// the end where the segment reaches the limit. An exhausted cursor hands
    /// out nothing and stays as it is.
    pub fn claim(&mut self) -> (segment: Option<Segment>)
        ensures
            final(self)@.start == old(self)@.start,
            final(self)@.limit == old(self)@.limit,
            final(self)@.step == old(self)@.step,
            match old(self)@.next {
                None => segment is None && final(self)@.next is None,
                Some(k) => {
                    let high = segment_high(old(self)@.start, old(self)@.limit, old(self)@.step, k);
                    &&& 0 <= k
                    &&& segment_low(old(self)@.start, old(self)@.step, k) <= high <= old(
                        self,
                    )@.limit <= usize::MAX
                    &&& segment == Some(
                        Segment {
                            low: segment_low(old(self)@.start, old(self)@.step, k) as usize,
                            high: high as usize,
                        },
                    )
                    &&& final(self)@.next == if high >= old(self)@.limit {
                        None
                    } else {
                        Some(k + 1)
                    }
                },
            },
    {
        proof {
            use_type_invariant(&*self);
        }
        match self.next {
            None => None,
            Some(k) => {
                let low: u64 = self.start + k * self.step;
                let high: u64 = if self.step - 1 < self.limit - low {
                    low + (self.step - 1)
                } else {
                    self.limit
                };
                proof {
                    assert((k + 1) * self.step == k * self.step + self.step) by (nonlinear_arith);
                    assert(k <= k * self.step) by (nonlinear_arith)
                        requires
                            self.step >= 1,
                    ;
                }
                self.next = if high >= self.limit {
                    None
                } else {
                    Some(k + 1)
                };
                Some(Segment { low: low as usize, high: high as usize })
            },
        }
    }
}

/// What a plan stands for: the range, the root of its limit, the segment
/// size, the base primes, and the count that the total starts from.
pub struct PlanView {
    pub start: int,
    pub limit: int,
    pub root: int,
    pub step: int,
    pub base_primes: Seq<u32>,
    pub seed: int,
}

impl PlanView {
    /// What holds of every plan: the base primes are the primes up to the
    /// root of the limit, the segments are a multiple of 16 wide, and the
    /// seed counts the primes of the range that no segment reports.
    pub open spec fn wf(self) -> bool {
        &&& 2 <= self.start <= self.limit <= usize::MAX
        &&& is_sqrt_floor(self.limit, self.root)
        &&& 16 <= self.step <= 0x1_0000_0000
        &&& self.step % 16 == 0
        &&& lists_primes_up_to(self.base_primes, self.root)
        &&& self.seed == seeded(self.start, self.limit, self.root)
    }

    /// How many segments the plan cuts its range into.
    pub open spec fn segments(self) -> int {
        segments_needed(self.start, self.limit, self.step)
    }

    /// What the first `k` segments of the plan report together.
    pub open spec fn reported(self, k: int) -> nat {
        segments_total(self.base_primes, self.start, self.limit, self.step, k)
    }

    /// How many primes the range of the plan holds.
    pub open spec fn total(self) -> nat {
        primes_between(self.start, self.limit)
    }

    /// Whether `cursor` walks the segments of this plan.
    pub open spec fn drives(self, cursor: CursorState) -> bool {
        &&& cursor.start == self.start
        &&& cursor.limit == self.limit
        &&& cursor.step == self.step
    }
}

/// What the workers share and only read: the range, the segment size, the
/// base primes, and the count that the total starts from.
pub struct SievePlan {
    start: usize,
    limit: usize,
    root: u32,
    step: u64,
    base_primes: Vec<u32>,
    seed: usize,
}

impl View for SievePlan {
    type V = PlanView;

    closed spec fn view(&self) -> PlanView {
        PlanView {
            start: self.start as int,
            limit: self.limit as int,
            root: self.root as int,
            step: self.step as int,
            base_primes: self.base_primes@,
            seed: self.seed as int,
        }
    }
}

impl SievePlan {
    #[verifier::type_invariant]
    spec fn inv(self) -> bool {
        self@.wf()
    }

    /// Plans the count of the primes of `[start, limit]`: finds the base
    /// primes, sizes the segments after the cache hint, and counts what the
    /// segments will not report.
    pub fn new(limit: usize, start: usize, cache: usize) -> (plan: SievePlan)
        requires
            2 <= start <= limit,
        ensures
            plan@.wf(),
            plan@.start == start,
            plan@.limit == limit,
            plan@.step == segment_span(limit as int, start as int, plan@.root, cache as int),
    {
        let root = isqrt(limit as u64);
        let step = segment_size(limit as u64, start as u64, root, cache);
        let base_primes = simple_sieve(root);
        let seed = initial_count(&base_primes, start as u64, limit as u64, root);
        SievePlan { start, limit, root, step, base_primes, seed }
    }

    /// The count that the total starts from: the primes of the range that no
    /// segment reports.
    pub fn seed(&self) -> (seed: usize)
        ensures
            self@.wf(),
            seed == self@.seed,
    {
        proof {
            use_type_invariant(self);
        }
        self.seed
    }

    /// The size of the segments.
    pub fn step(&self) -> (step: u64)
        ensures
            self@.wf(),
            step == self@.step,
    {
        proof {
            use_type_invariant(self);
        }
        self.step
    }

    /// The base primes: all primes up to the root of the limit.
    pub fn base_primes(&self) -> (table: &Vec<u32>)
        ensures
            self@.wf(),
            table@ == self@.base_primes,
    {
        proof {
            use_type_invariant(self);
        }
        &self.base_primes
    }

    /// A cursor at the first segment of the plan.
    pub fn cursor(&self) -> (cursor: WorkCursor)
        ensures
            self@.wf(),
            self@.drives(cursor@),
            cursor@.next == Some(0int),
    {
        proof {
            use_type_invariant(self);
        }
        WorkCursor::new(self.start, self.limit, self.step)
    }

    /// A scratch buffer large enough for any segment of the plan.
    pub fn scratch(&self) -> (buffer: Vec<u8>)
        ensures
            self@.wf(),
            buffer.len() == self@.step / 16,
            forall|i: int| 0 <= i < buffer.len() ==> buffer[i] == 0xff,
    {
        proof {
            use_type_invariant(self);
        }
        vec![0xff; (self.step / 16) as usize]
    }

    /// Sieves one segment, no wider than the plan's segments, and returns
    /// what it reports.
    pub fn sieve_segment(&self, scratch: &mut Vec<u8>, segment: Segment) -> (found: u32)
        requires
            old(scratch).len() >= self@.step / 16,
            segment.high - segment.low < self@.step,
        ensures
            found == segment_count(self@.base_primes, segment.low as int, segment.high as int),
            scratch_after(
                old(scratch)@,
                final(scratch)@,
                self@.base_primes,
                segment.low as int,
                segment.high as int,
            ),
    {
        proof {
            use_type_invariant(self);
            lemma_odd_entries(self.base_primes@, self.root as int);
        }
        segment_sieve(scratch, &self.base_primes, segment.low, segment.high)
    }
}

/// The start of the range that a caller asks for: 2 where none is given or
/// a lower one is.
pub open spec fn range_start(start: Option<usize>) -> int {
    match start {
        Some(s) if s > 2 => s as int,
        _ => 2,
    }
}

/// The count of a range is the count from 2 up to its limit less the count
/// from 2 up to just below its start.
pub proof fn lemma_count_is_difference(limit: usize, start: usize)
    requires
        2 <= start <= limit,
    ensures
        primes_between(range_start(Some(start)), limit as int) == primes_between(
            range_start(None),
            limit as int,
        ) - primes_between(range_start(None), start - 1),
{
    lemma_primes_between_split(2, start - 1, limit as int);
}

/// One worker's run: claims segments from the cursor until none is left,
/// sieves each, and adds what it reports to the count.
///
/// The count comes in as the seed and what the segments before the cursor
/// have reported, and goes out as the count of the whole range.
pub fn run_worker(
    plan: &SievePlan,
    cursor: &mut WorkCursor,
    scratch: &mut Vec<u8>,
    count: &mut usize,
)
    requires
        plan@.drives(old(cursor)@),
        old(scratch).len() >= plan@.step / 16,
        match old(cursor)@.next {
            Some(k) => *old(count) == plan@.seed + plan@.reported(k),
            None => *old(count) == plan@.total(),
        },
    ensures
        plan@.drives(final(cursor)@),
        final(cursor)@.next is None,
        final(scratch).len() == old(scratch).len(),
        *final(count) == plan@.total(),
{
    proof {
        use_type_invariant(plan);
    }
    loop
        invariant
            plan@.wf(),
            plan@.drives(cursor@),
            scratch.len() >= plan@.step / 16,
            scratch.len() == old(scratch).len(),
            match cursor@.next {
                Some(k) => *count == plan@.seed + plan@.reported(k),
                None => *count == plan@.total(),
            },
        ensures
            cursor@.next is None,
        decreases
            match cursor@.next {
                Some(k) => plan@.segments() - k + 1,
                None => 0,
            },
    {
        let ghost at = cursor@.next;
        match cursor.claim() {
            None => {
                break ;
            },
            Some(segment) => {
                let ghost k = at->0;
                proof {
                    lemma_segment_bounds(plan@.start, plan@.limit, plan@.step, k);
                    lemma_count_so_far(
                        plan@.base_primes,
                        plan@.start,
                        plan@.limit,
                        plan@.root,
                        plan@.step,
                        k + 1,
                    );
                    lemma_count_is_exact(
                        plan@.base_primes,
                        plan@.start,
                        plan@.limit,
                        plan@.root,
                        plan@.step,
                    );
                }
                let found = plan.sieve_segment(scratch, segment);
                *count = *count + found as usize;
            },
        }
    }
}

/// Counts the primes `p` with `start <= p <= limit`, where a `start` that is
/// missing or below 2 stands for 2.
///
/// `threads` says how many workers are to share the segments and `cache` how
/// many bytes a worker's sieve buffer should stay within; where one is
/// missing the machine is asked. Neither changes the count. Here the workers
/// take their turns one after another, so the first of them finds every
/// segment still to be had.
pub fn count_primes(
    limit: usize,
    start: Option<usize>,
    threads: Option<usize>,
    cache: Option<usize>,
) -> (count: usize)
    ensures
        count == primes_between(range_start(start), limit as int),
        limit < 2 ==> count == 0,
{
    if limit < 2 {
        proof {
            lemma_no_primes_below_two(range_start(start), limit as int);
        }
        return 0;
    }
    // A pool of no workers is taken as a pool of one.
    let workers: usize = match threads {
        Some(n) => if n > 0 {
            n
        } else {
            1
        },
        None => get_cores(),
    };
    let cache: usize = match cache {
        Some(bytes) => bytes,
        None => get_cache_size(),
    };
    let start: usize = match start {
        Some(s) => if s > 2 {
            s
        } else {
            2
        },
        None => 2,
    };
    if start > limit {
        proof {
            lemma_primes_between_bound(start as int, limit as int);
        }
        return 0;
    }
    let plan = SievePlan::new(limit, start, cache);
    let mut cursor = plan.cursor();
    let mut scratch = plan.scratch();
    let mut count: usize = plan.seed();
    let mut worker: usize = 0;
    while worker < workers && !cursor.is_exhausted()
        invariant
            plan@.wf(),
            plan@.drives(cursor@),
            scratch.len() >= plan@.step / 16,
            workers >= 1,
            worker <= workers,
            worker == 0 ==> cursor@.next == Some(0int) && count == plan@.seed + plan@.reported(0),
            worker > 0 ==> cursor@.next is None && count == plan@.total(),
        decreases workers - worker,
    {
        run_worker(&plan, &mut cursor, &mut scratch, &mut count);
        worker += 1;
    }
    count
}

} // verus!

//! How the segments cover a range, and why their counts add up to the
//! primes of the range however wide they are and whichever worker sieves
//! which.

use crate::counter::{is_sqrt_floor, lemma_root_below, seeded, segment_span};
use crate::primality::{
    lemma_no_primes_below_two, lemma_primes_between_bound, lemma_primes_between_split,
    lemma_small_primes, primes_between,
};
use crate::segment::{above, lemma_survivors_are_primes, segment_count};
use crate::sieve::lists_primes_up_to;
use vstd::prelude::*;

verus! {

/// Where segment `k` starts.
pub open spec fn segment_low(start: int, step: int, k: int) -> int {
    start + k * step
}

/// Where segment `k` ends: `step` numbers from its start, or at the limit if
/// that comes first.
pub open spec fn segment_high(start: int, limit: int, step: int, k: int) -> int {
    if start + k * step + step - 1 < limit {
        start + k * step + step - 1
    } else {
        limit
    }
}

/// How many segments of size `step` it takes to cover `[start, limit]`.
pub open spec fn segments_needed(start: int, limit: int, step: int) -> int {
    (limit - start) / step + 1
}

/// What the first `k` segments report together.
pub open spec fn segments_total(table: Seq<u32>, start: int, limit: int, step: int, k: int) -> nat
    decreases k,
{
    if k <= 0 {
        0
    } else {
        segments_total(table, start, limit, step, k - 1) + segment_count(
            table,
            segment_low(start, step, k - 1),
            segment_high(start, limit, step, k - 1),
        )
    }
}

/// Where the first `k` segments end: just before the start where there is
/// none yet.
pub open spec fn covered_to(start: int, limit: int, step: int, k: int) -> int {
    if k <= 0 {
        start - 1
    } else {
        segment_high(start, limit, step, k - 1)
    }
}

/// The last segment is the one that reaches the limit, and every segment
/// before it ends one short of the next one's start.
pub proof fn lemma_segment_bounds(start: int, limit: int, step: int, k: int)
    requires
        start <= limit,
        step >= 1,
        0 <= k,
    ensures
        segments_needed(start, limit, step) >= 1,
        k < segments_needed(start, limit, step) <==> segment_low(start, step, k) <= limit,
        k + 1 < segments_needed(start, limit, step) <==> segment_high(start, limit, step, k)
            < limit,
        segment_low(start, step, k + 1) == segment_low(start, step, k) + step,
        segment_low(start, step, k) <= limit ==> covered_to(start, limit, step, k)
            == segment_low(start, step, k) - 1,
{
    let n = (limit - start) / step;
    vstd::arithmetic::div_mod::lemma_fundamental_div_mod(limit - start, step);
    vstd::arithmetic::div_mod::lemma_div_pos_is_pos(limit - start, step);
    assert((k + 1) * step == k * step + step) by (nonlinear_arith);
    assert((k - 1) * step == k * step - step) by (nonlinear_arith);
    assert(k <= n <==> k * step <= limit - start) by (nonlinear_arith)
        requires
            limit - start == step * n + (limit - start) % step,
            0 <= (limit - start) % step < step,
            step >= 1,
            0 <= k,
            0 <= n,
    ;
    assert(k + 1 <= n <==> (k + 1) * step <= limit - start) by (nonlinear_arith)
        requires
            limit - start == step * n + (limit - start) % step,
            0 <= (limit - start) % step < step,
            step >= 1,
            0 <= k,
            0 <= n,
    ;
}

/// With the primes up to the root of the limit as the table, the first `k`
/// segments of `[start, limit]` report the primes above the root from the
/// start up to where they end.
pub proof fn lemma_segments_report_primes(
    table: Seq<u32>,
    start: int,
    limit: int,
    root: int,
    step: int,
    k: int,
)
    requires
        2 <= start <= limit,
        3 <= limit,
        is_sqrt_floor(limit, root),
        lists_primes_up_to(table, root),
        step >= 2,
        0 <= k <= segments_needed(start, limit, step),
    ensures
        segments_total(table, start, limit, step, k) == primes_between(
            above(start, root),
            covered_to(start, limit, step, k),
        ),
    decreases k,
{
    let from = above(start, root);
    if k == 0 {
        lemma_primes_between_bound(from, start - 1);
    } else {
        lemma_segments_report_primes(table, start, limit, root, step, k - 1);
        lemma_segment_bounds(start, limit, step, k - 1);
        let low = segment_low(start, step, k - 1);
        let high = segment_high(start, limit, step, k - 1);
        assert(low <= high <= limit);
        assert(low >= start) by (nonlinear_arith)
            requires
                low == start + (k - 1) * step,
                k >= 1,
                step >= 2,
        ;
        assert(!(low == 2 && high == 2));
        lemma_survivors_are_primes(table, root, low, high);
        assert(covered_to(start, limit, step, k - 1) == low - 1);
        if low >= from {
            assert(above(low, root) == low);
            lemma_primes_between_split(from, low - 1, high);
        } else {
            assert(above(low, root) == from);
            lemma_primes_between_bound(from, low - 1);
        }
    }
}

/// The primes that the segments do not report and those that they do are
/// together the primes of `[start, limit]`, whatever the segment size: the
/// count does not depend on how the range is cut.
pub proof fn lemma_count_is_exact(table: Seq<u32>, start: int, limit: int, root: int, step: int)
    requires
        2 <= start <= limit,
        is_sqrt_floor(limit, root),
        lists_primes_up_to(table, root),
        step >= 2,
    ensures
        seeded(start, limit, root) + segments_total(
            table,
            start,
            limit,
            step,
            segments_needed(start, limit, step),
        ) == primes_between(start, limit),
{
    let n = segments_needed(start, limit, step);
    lemma_root_below(limit, root);
    lemma_small_primes();
    if limit == 2 {
        lemma_segment_bounds(start, limit, step, 0);
        assert(n == 1);
        assert(segments_total(table, start, limit, step, 1) == segments_total(
            table,
            start,
            limit,
            step,
            0,
        ) + segment_count(table, 2, 2));
        lemma_no_primes_below_two(start, root);
        assert(primes_between(2, 2) == primes_between(2, 1) + 1);
        lemma_no_primes_below_two(2, 1);
    } else {
        lemma_segment_bounds(start, limit, step, n - 1);
        lemma_segments_report_primes(table, start, limit, root, step, n);
        assert(covered_to(start, limit, step, n) == limit);
        let from = above(start, root);
        if root >= 2 {
            assert(limit >= 4) by (nonlinear_arith)
                requires
                    root >= 2,
                    root * root <= limit,
            ;
            if start <= root {
                lemma_primes_between_split(start, root, limit);
            } else {
                lemma_primes_between_bound(start, root);
            }
        } else {
            // The limit is 3 and the table is empty.
            assert(limit == 3) by (nonlinear_arith)
                requires
                    root == 1,
                    limit < (root + 1) * (root + 1),
                    3 <= limit,
            ;
            lemma_no_primes_below_two(start, root);
            if start == 2 {
                assert(primes_between(2, 3) == primes_between(2, 2) + 1);
                assert(primes_between(2, 2) == primes_between(2, 1) + 1);
                assert(primes_between(3, 3) == primes_between(3, 2) + 1);
                lemma_no_primes_below_two(2, 1);
            }
        }
    }
}

/// While the segments are at work, the count so far is no more than the
/// primes of the whole range.
pub proof fn lemma_count_so_far(
    table: Seq<u32>,
    start: int,
    limit: int,
    root: int,
    step: int,
    k: int,
)
    requires
        2 <= start <= limit,
        is_sqrt_floor(limit, root),
        lists_primes_up_to(table, root),
        step >= 2,
        0 <= k <= segments_needed(start, limit, step),
    ensures
        seeded(start, limit, root) + segments_total(table, start, limit, step, k)
            <= primes_between(start, limit) <= limit,
    decreases segments_needed(start, limit, step) - k,
{
    let n = segments_needed(start, limit, step);
    if k == n {
        lemma_count_is_exact(table, start, limit, root, step);
        lemma_primes_between_bound(start, limit);
    } else {
        lemma_count_so_far(table, start, limit, root, step, k + 1);
    }
}

/// Whatever the cache hint, the segments are a multiple of 16 wide, at least
/// 16 and at most 2^32.
pub proof fn lemma_segment_span_bounds(limit: int, start: int, root: int, cache: int)
    requires
        2 <= start <= limit,
        is_sqrt_floor(limit, root),
        root <= u32::MAX,
        0 <= cache,
    ensures
        16 <= segment_span(limit, start, root, cache) <= 0x1_0000_0000,
        segment_span(limit, start, root, cache) % 16 == 0,
{
    lemma_root_below(limit, root);
}

/// Two ways of cutting `[start, limit]` into segments count the same.
pub proof fn lemma_count_ignores_segment_size(
    table: Seq<u32>,
    start: int,
    limit: int,
    root: int,
    step: int,
    other_step: int,
)
    requires
        2 <= start <= limit,
        is_sqrt_floor(limit, root),
        lists_primes_up_to(table, root),
        step >= 2,
        other_step >= 2,
    ensures
        segments_total(table, start, limit, step, segments_needed(start, limit, step))
            == segments_total(
            table,
            start,
            limit,
            other_step,
            segments_needed(start, limit, other_step),
        ),
{
    lemma_count_is_exact(table, start, limit, root, step);
    lemma_count_is_exact(table, start, limit, root, other_step);
}

/// The count does not depend on the cache hint: the segments that one hint
/// gives and those that another gives report the same number of primes.
pub proof fn lemma_count_ignores_cache(
    table: Seq<u32>,
    start: int,
    limit: int,
    root: int,
    cache: int,
    other_cache: int,
)
    requires
        2 <= start <= limit,
        is_sqrt_floor(limit, root),
        root <= u32::MAX,
        lists_primes_up_to(table, root),
        0 <= cache,
        0 <= other_cache,
    ensures
        ({
            let step = segment_span(limit, start, root, cache);
            let other_step = segment_span(limit, start, root, other_cache);
            segments_total(table, start, limit, step, segments_needed(start, limit, step))
                == segments_total(
                table,
                start,
                limit,
                other_step,
                segments_needed(start, limit, other_step),
            )
        }),
{
    lemma_segment_span_bounds(limit, start, root, cache);
    lemma_segment_span_bounds(limit, start, root, other_cache);
    lemma_count_ignores_segment_size(
        table,
        start,
        limit,
        root,
        segment_span(limit, start, root, cache),
        segment_span(limit, start, root, other_cache),
    );
}

/// What the worker `worker` reports of the first `k` segments, where
/// `owner` says which worker each segment fell to.
pub open spec fn worker_share(
    table: Seq<u32>,
    start: int,
    limit: int,
    step: int,
    owner: spec_fn(int) -> int,
    worker: int,
    k: int,
) -> nat
    decreases k,
{
    if k <= 0 {
        0
    } else if owner(k - 1) == worker {
        worker_share(table, start, limit, step, owner, worker, k - 1) + segment_count(
            table,
            segment_low(start, step, k - 1),
            segment_high(start, limit, step, k - 1),
        )
    } else {
        worker_share(table, start, limit, step, owner, worker, k - 1)
    }
}

/// What the workers `0..workers` report together of the first `k` segments.
pub open spec fn shares_total(
    table: Seq<u32>,
    start: int,
    limit: int,
    step: int,
    owner: spec_fn(int) -> int,
    workers: int,
    k: int,
) -> nat
    decreases workers,
{
    if workers <= 0 {
        0
    } else {
        shares_total(table, start, limit, step, owner, workers - 1, k) + worker_share(
            table,
            start,
            limit,
            step,
            owner,
            workers - 1,
            k,
        )
    }
}

/// One more segment adds its count to the shares of the workers `0..workers`
/// where it fell to one of them, and nothing otherwise.
proof fn lemma_shares_step(
    table: Seq<u32>,
    start: int,
    limit: int,
    step: int,
    owner: spec_fn(int) -> int,
    workers: int,
    k: int,
)
    requires
        0 <= workers,
        1 <= k,
    ensures
        shares_total(table, start, limit, step, owner, workers, k) == shares_total(
            table,
            start,
            limit,
            step,
            owner,
            workers,
            k - 1,
        ) + if 0 <= owner(k - 1) < workers {
            segment_count(
                table,
                segment_low(start, step, k - 1),
                segment_high(start, limit, step, k - 1),
            )
        } else {
            0
        },
    decreases workers,
{
    if workers > 0 {
        lemma_shares_step(table, start, limit, step, owner, workers - 1, k);
    }
}

/// However the segments fall to the workers, the shares of the workers add
/// up to what the segments report together: the count does not depend on
/// how many workers there are, nor on which of them sieves which segment.
pub proof fn lemma_shares_add_up(
    table: Seq<u32>,
    start: int,
    limit: int,
    step: int,
    owner: spec_fn(int) -> int,
    workers: int,
    k: int,
)
    requires
        0 <= k,
        forall|j: int| 0 <= j < k ==> 0 <= #[trigger] owner(j) < workers,
    ensures
        shares_total(table, start, limit, step, owner, workers, k) == segments_total(
            table,
            start,
            limit,
            step,
            k,
        ),
    decreases k,
{
    if k == 0 {
        lemma_no_shares(table, start, limit, step, owner, workers);
    } else {
        lemma_shares_add_up(table, start, limit, step, owner, workers, k - 1);
        assert(0 <= owner(k - 1) < workers);
        lemma_shares_step(table, start, limit, step, owner, workers, k);
    }
}

/// Of no segments the workers report nothing.
proof fn lemma_no_shares(
    table: Seq<u32>,
    start: int,
    limit: int,
    step: int,
    owner: spec_fn(int) -> int,
    workers: int,
)
    ensures
        shares_total(table, start, limit, step, owner, workers, 0) == 0,
    decreases workers,
{
    if workers > 0 {
        lemma_no_shares(table, start, limit, step, owner, workers - 1);
    }
}

/// With any number of workers, and the segments falling to them in any way,
/// the seed and the workers' shares are together the primes of
/// `[start, limit]`.
pub proof fn lemma_count_ignores_workers(
    table: Seq<u32>,
    start: int,
    limit: int,
    root: int,
    step: int,
    owner: spec_fn(int) -> int,
    workers: int,
)
    requires
        2 <= start <= limit,
        is_sqrt_floor(limit, root),
        lists_primes_up_to(table, root),
        step >= 2,
        forall|j: int|
            0 <= j < segments_needed(start, limit, step) ==> 0 <= #[trigger] owner(j) < workers,
    ensures
        seeded(start, limit, root) + shares_total(
            table,
            start,
            limit,
            step,
            owner,
            workers,
            segments_needed(start, limit, step),
        ) == primes_between(start, limit),
{
    lemma_segment_bounds(start, limit, step, 0);
    lemma_shares_add_up(
        table,
        start,
        limit,
        step,
        owner,
        workers,
        segments_needed(start, limit, step),
    );
    lemma_count_is_exact(table, start, limit, root, step);
}

} // verus!

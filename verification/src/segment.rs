//! The segment sieve: counts what the base primes leave standing among the
//! odd numbers of one range. Slot `s` of the scratch buffer stands for the
//! odd number `first + 2 * s`, where `first` is the first candidate of the
//! range.

use crate::bits::{bit_at, unset_last_bits};
use crate::bitvector::{
    clear_slot, count_marked, count_marked_bytes, fill_ones, lemma_count_marked_clear_tail, marked,
};
use crate::primality::{
    divides, least_prime_factor, lemma_divides_quotient, lemma_divides_sum,
    lemma_factor_divides, lemma_least_prime_factor, lemma_odd_has_odd_divisors,
    lemma_prime_is_two_or_odd, lemma_small_primes, prime, primes_between,
};
use crate::sieve::{lemma_odd_multiples_step, lists_primes_up_to};
use vstd::prelude::*;

verus! {

/// A number that has a slot in a segment: odd and at least 3.
pub open spec fn candidate(w: int) -> bool {
    w >= 3 && w % 2 == 1
}

/// None of the entries `1..upto` of `table` divides `w`. Entry 0 is left out:
/// in a table of primes it is 2, which divides no candidate.
pub open spec fn unsieved_by(table: Seq<u32>, upto: int, w: int) -> bool {
    forall|i: int| 1 <= i < upto && i < table.len() ==> !divides(#[trigger] table[i] as int, w)
}

/// No entry of `table` but the first divides `w`.
pub open spec fn unsieved(table: Seq<u32>, w: int) -> bool {
    unsieved_by(table, table.len() as int, w)
}

/// How many candidates `w` with `low <= w <= high` the table leaves standing.
pub open spec fn survivors(table: Seq<u32>, low: int, high: int) -> nat
    decreases high - low + 1,
{
    if high < low {
        0
    } else if candidate(high) && unsieved(table, high) {
        survivors(table, low, high - 1) + 1
    } else {
        survivors(table, low, high - 1)
    }
}

/// What the segment sieve returns for `[low, high]`: the range that holds
/// 2 alone counts one prime, any other range counts its surviving candidates.
pub open spec fn segment_count(table: Seq<u32>, low: int, high: int) -> nat {
    if low == 2 && high == 2 {
        1
    } else {
        survivors(table, low, high)
    }
}

/// The first candidate at or above `low`.
pub open spec fn first_candidate(low: int) -> int {
    if low < 3 {
        3
    } else if low % 2 == 0 {
        low + 1
    } else {
        low
    }
}

/// The last odd number at or below `high`.
pub open spec fn last_candidate(high: int) -> int {
    if high % 2 == 0 {
        high - 1
    } else {
        high
    }
}

/// How many bytes of scratch the segment `[low, high]` needs: one bit for
/// each odd number from its first candidate to its last.
pub open spec fn segment_bytes(low: int, high: int) -> int {
    if first_candidate(low) > last_candidate(high) {
        0
    } else {
        (last_candidate(high) - first_candidate(low)) / 16 + 1
    }
}

/// The scratch buffer after the entries `1..applied` of `table` have struck
/// out their multiples: within the bytes in use, a slot is set when its
/// number is within the range and none of those entries divides it.
pub open spec fn sieved(
    buf: Seq<u8>,
    table: Seq<u32>,
    first: int,
    last: int,
    applied: int,
) -> bool {
    forall|s: int|
        0 <= s < 8 * ((last - first) / 16 + 1) ==> #[trigger] marked(buf, s) == (first + 2 * s
            <= last && unsieved_by(table, applied, first + 2 * s))
}

/// The scratch buffer while the odd multiples of `p`, entry `applied` of the
/// table, are struck out, up to but not including `upto`.
pub open spec fn sieving(
    buf: Seq<u8>,
    table: Seq<u32>,
    first: int,
    last: int,
    applied: int,
    p: int,
    upto: int,
) -> bool {
    forall|s: int|
        0 <= s < 8 * ((last - first) / 16 + 1) ==> #[trigger] marked(buf, s) == (first + 2 * s
            <= last && unsieved_by(table, applied, first + 2 * s) && !(divides(p, first + 2 * s)
            && first + 2 * s < upto))
}

/// How the scratch buffer is left: untouched where the range has no
/// candidate, and otherwise with every byte past those in use full and the
/// slots in use showing the surviving candidates.
pub open spec fn scratch_after(
    before: Seq<u8>,
    after: Seq<u8>,
    table: Seq<u32>,
    low: int,
    high: int,
) -> bool {
    let first = first_candidate(low);
    let last = last_candidate(high);
    &&& after.len() == before.len()
    &&& (low == 2 && high == 2 || first > last) ==> after == before
    &&& !(low == 2 && high == 2) && first <= last ==> {
        &&& sieved(after, table, first, last, table.len() as int)
        &&& forall|i: int| segment_bytes(low, high) <= i < after.len() ==> after[i] == 0xff
    }
}

/// A multiple of `p` at or above `first` is at least `first` rounded up to
/// the next multiple of `p`.
proof fn lemma_first_multiple(first: int, p: int, w: int)
    requires
        p > 0,
        first >= 0,
        divides(p, w),
        w >= first,
    ensures
        first % p != 0 ==> w >= first + p - first % p,
{
    let r = first % p;
    lemma_rounded_down(first, p);
    lemma_divides_sum(p, w, first - r);
    if r != 0 {
        let x = w - (first - r);
        lemma_divides_quotient(p, x);
        let q = x / p;
        assert(q >= 1) by (nonlinear_arith)
            requires
                x == p * q,
                x > 0,
                p > 0,
        ;
        assert(x >= p) by (nonlinear_arith)
            requires
                x == p * q,
                q >= 1,
                p > 0,
        ;
    }
}

/// A number less its remainder by `p` is a multiple of `p`.
proof fn lemma_rounded_down(first: int, p: int)
    requires
        p > 0,
    ensures
        divides(p, first - first % p),
{
    vstd::arithmetic::div_mod::lemma_fundamental_div_mod(first, p);
    lemma_factor_divides(p, first / p);
}

/// Two multiples of `p` less than `p` apart are the same.
proof fn lemma_multiples_apart(p: int, m: int, w: int)
    requires
        p > 0,
        divides(p, m),
        divides(p, w),
        m <= w < m + p,
    ensures
        w == m,
{
    lemma_divides_sum(p, w, m);
    lemma_divides_quotient(p, w - m);
    let q = (w - m) / p;
    assert(q == 0) by (nonlinear_arith)
        requires
            w - m == p * q,
            0 <= w - m < p,
            p > 0,
    ;
    assert(p * 0 == 0) by (nonlinear_arith);
}

/// No candidate lies below the first candidate or above the last one, so the
/// survivors of a range are those between the two.
pub proof fn lemma_survivors_normalized(table: Seq<u32>, low: int, high: int)
    ensures
        survivors(table, low, high) == survivors(
            table,
            first_candidate(low),
            last_candidate(high),
        ),
{
    let first = first_candidate(low);
    let last = last_candidate(high);
    if high < low {
        lemma_survivors_empty(table, first, last);
    } else {
        assert(survivors(table, low, high) == survivors(table, low, last)) by {
            if high != last {
                assert(!candidate(high));
            }
        }
        if last < first {
            lemma_survivors_below_first(table, low, last);
            lemma_survivors_empty(table, first, last);
        } else {
            lemma_survivors_split(table, low, first - 1, last);
            lemma_survivors_below_first(table, low, first - 1);
        }
    }
}

/// An empty range has no survivors.
proof fn lemma_survivors_empty(table: Seq<u32>, low: int, high: int)
    requires
        high < low,
    ensures
        survivors(table, low, high) == 0,
{
}

/// A range that ends before the first candidate at or above its start has
/// no survivors.
proof fn lemma_survivors_below_first(table: Seq<u32>, low: int, high: int)
    requires
        high < first_candidate(low),
    ensures
        survivors(table, low, high) == 0,
    decreases high - low + 1,
{
    if high >= low {
        lemma_survivors_below_first(table, low, high - 1);
    }
}

/// The survivors of a range are those of two adjoining parts of it.
pub proof fn lemma_survivors_split(table: Seq<u32>, low: int, mid: int, high: int)
    requires
        low <= mid + 1,
        mid <= high,
    ensures
        survivors(table, low, high) == survivors(table, low, mid) + survivors(
            table,
            mid + 1,
            high,
        ),
    decreases high - mid,
{
    if high > mid {
        lemma_survivors_split(table, low, mid, high - 1);
    }
}

/// The set slots of a sieved buffer are the survivors of its range.
proof fn lemma_slots_are_survivors(buf: Seq<u8>, table: Seq<u32>, first: int, n: int)
    requires
        candidate(first),
        0 <= n,
        forall|s: int| 0 <= s < n ==> #[trigger] marked(buf, s) == unsieved(table, first + 2 * s),
    ensures
        count_marked(buf, n) == survivors(table, first, first + 2 * n - 2),
    decreases n,
{
    if n > 0 {
        lemma_slots_are_survivors(buf, table, first, n - 1);
        let w = first + 2 * n - 2;
        assert(marked(buf, n - 1) == unsieved(table, w));
        assert(candidate(w));
        assert(!candidate(w - 1));
        if n > 1 {
            assert(survivors(table, first, w - 1) == survivors(table, first, w - 2));
        } else {
            lemma_survivors_empty(table, first, w - 1);
            lemma_survivors_empty(table, first, w - 2);
        }
    }
}

/// Where the table lists the primes up to `bound` and `w` is below the
/// square of `bound + 1`, the table leaves the candidate `w` standing exactly
/// when `w` is a prime above `bound`.
pub proof fn lemma_unsieved_is_prime(table: Seq<u32>, bound: int, w: int)
    requires
        0 <= bound,
        lists_primes_up_to(table, bound),
        w < (bound + 1) * (bound + 1),
    ensures
        (candidate(w) && unsieved(table, w)) == (prime(w) && w > bound && w >= 3),
{
    if candidate(w) && unsieved(table, w) {
        let q = least_prime_factor(w);
        lemma_least_prime_factor(w);
        lemma_odd_has_odd_divisors(q, w);
        if w <= bound || !prime(w) {
            if !prime(w) {
                assert(q <= bound) by (nonlinear_arith)
                    requires
                        q * q <= w,
                        w < (bound + 1) * (bound + 1),
                        q >= 2,
                        bound >= 0,
                ;
            }
            lemma_small_primes();
            assert(prime(q) && q <= bound);
            let i = choose|i: int| 0 <= i < table.len() && #[trigger] table[i] == q;
            assert(prime(2) && 2 <= bound);
            let j = choose|j: int| 0 <= j < table.len() && #[trigger] table[j] == 2;
            assert(i != j);
            if i == 0 {
                assert(table[i] < table[j]);
            }
            assert(1 <= i < table.len());
            assert(divides(table[i] as int, w));
            assert(false);
        }
    }
    if prime(w) && w > bound && w >= 3 {
        lemma_prime_is_two_or_odd(w);
        assert forall|i: int| 1 <= i < table.len() implies !divides(
            #[trigger] table[i] as int,
            w,
        ) by {
            assert(prime(table[i] as int) && table[i] <= bound);
        }
    }
}

/// With the primes up to `bound` as its table, and below the square of
/// `bound + 1`, a range's survivors are its primes above `bound`, the
/// prime 2 apart.
pub proof fn lemma_survivors_are_primes(table: Seq<u32>, bound: int, low: int, high: int)
    requires
        0 <= bound,
        lists_primes_up_to(table, bound),
        high < (bound + 1) * (bound + 1),
    ensures
        survivors(table, low, high) == primes_between(above(low, bound), high),
    decreases high - low + 1,
{
    let from = above(low, bound);
    if high < low {
        crate::primality::lemma_primes_between_bound(from, high);
    } else {
        lemma_survivors_are_primes(table, bound, low, high - 1);
        lemma_unsieved_is_prime(table, bound, high);
        if high < from {
            crate::primality::lemma_primes_between_bound(from, high);
            crate::primality::lemma_primes_between_bound(from, high - 1);
        }
    }
}

/// The least number that is at least `low`, above `bound`, and at least 3.
pub open spec fn above(low: int, bound: int) -> int {
    let a = if low > bound + 1 {
        low
    } else {
        bound + 1
    };
    if a > 3 {
        a
    } else {
        3
    }
}

/// The distance from `first` to the first odd multiple of `p` at or above
/// it, for odd `first` and `p`.
pub open spec fn first_odd_multiple(first: int, p: int) -> int {
    let nearest = if first % p == 0 {
        0
    } else {
        p - first % p
    };
    if nearest % 2 == 1 {
        nearest + p
    } else {
        nearest
    }
}

/// The first odd multiple of `p` at or above `first` is one, and no odd
/// multiple of `p` lies between `first` and it: once the entries before `p`
/// have struck out their multiples, the striking of `p` can start there.
proof fn lemma_sieving_starts(
    buf: Seq<u8>,
    table: Seq<u32>,
    first: int,
    last: int,
    applied: int,
    p: int,
)
    requires
        candidate(first),
        p > 0,
        p % 2 == 1,
        sieved(buf, table, first, last, applied),
    ensures
        first_odd_multiple(first, p) % 2 == 0,
        0 <= first_odd_multiple(first, p) < 2 * p,
        divides(p, first + first_odd_multiple(first, p)),
        sieving(buf, table, first, last, applied, p, first + first_odd_multiple(first, p)),
{
    let rest = first % p;
    let nearest = if rest == 0 {
        0
    } else {
        p - rest
    };
    let offset = first_odd_multiple(first, p);
    lemma_rounded_down(first, p);
    lemma_factor_divides(p, 1);
    assert(p * 1 == p) by (nonlinear_arith);
    lemma_divides_sum(p, first - rest, p);
    lemma_divides_sum(p, first + nearest, p);
    assert forall|s: int| 0 <= s < 8 * ((last - first) / 16 + 1) implies #[trigger] marked(buf, s)
        == (first + 2 * s <= last && unsieved_by(table, applied, first + 2 * s) && !(divides(
        p,
        first + 2 * s,
    ) && first + 2 * s < first + offset)) by {
        let w = first + 2 * s;
        if divides(p, w) && w < first + offset {
            lemma_first_multiple(first, p, w);
            lemma_multiples_apart(p, first + nearest, w);
        }
    }
}

/// Clearing the slot of `m`, the next odd multiple of `p` that is due, moves
/// the striking on to `m + 2 * p`.
proof fn lemma_sieving_step(
    before: Seq<u8>,
    after: Seq<u8>,
    table: Seq<u32>,
    first: int,
    last: int,
    applied: int,
    p: int,
    m: int,
)
    requires
        candidate(first),
        p > 0,
        p % 2 == 1,
        m % 2 == 1,
        divides(p, m),
        first <= m <= last,
        after.len() == before.len(),
        after.len() >= (last - first) / 16 + 1,
        sieving(before, table, first, last, applied, p, m),
        forall|s: int|
            0 <= s < 8 * after.len() ==> #[trigger] marked(after, s) == (s != (m - first) / 2
                && marked(before, s)),
    ensures
        sieving(after, table, first, last, applied, p, m + 2 * p),
{
    assert forall|s: int| 0 <= s < 8 * ((last - first) / 16 + 1) implies #[trigger] marked(
        after,
        s,
    ) == (first + 2 * s <= last && unsieved_by(table, applied, first + 2 * s) && !(divides(
        p,
        first + 2 * s,
    ) && first + 2 * s < m + 2 * p)) by {
        let w = first + 2 * s;
        assert(marked(before, s) == (w <= last && unsieved_by(table, applied, w) && !(divides(p, w)
            && w < m)));
        if w != m && divides(p, w) && m <= w < m + 2 * p {
            lemma_odd_multiples_step(p, m, w);
        }
    }
}

/// Once the multiple of `p` that is due lies above `last`, entry `applied`
/// of the table has struck out all its multiples.
proof fn lemma_sieving_done(
    buf: Seq<u8>,
    table: Seq<u32>,
    first: int,
    last: int,
    applied: int,
    m: int,
)
    requires
        1 <= applied < table.len(),
        m > last,
        sieving(buf, table, first, last, applied, table[applied] as int, m),
    ensures
        sieved(buf, table, first, last, applied + 1),
{
    let p = table[applied] as int;
    assert forall|s: int| 0 <= s < 8 * ((last - first) / 16 + 1) implies #[trigger] marked(buf, s)
        == (first + 2 * s <= last && unsieved_by(table, applied + 1, first + 2 * s)) by {
        let w = first + 2 * s;
        assert(marked(buf, s) == (w <= last && unsieved_by(table, applied, w) && !(divides(p, w)
            && w < m)));
        if w <= last {
            if unsieved_by(table, applied, w) && !divides(p, w) {
                assert forall|i: int| 1 <= i < applied + 1 && i < table.len() implies !divides(
                    #[trigger] table[i] as int,
                    w,
                ) by {}
            }
            if unsieved_by(table, applied + 1, w) {
                assert(!divides(table[applied] as int, w));
            }
        }
    }
}

/// Strikes out of the scratch buffer the odd multiples of `p`, entry
/// `applied` of the table, that lie in the segment from `first` to `last`.
fn strike_segment(
    sieve: &mut Vec<u8>,
    Ghost(table): Ghost<Seq<u32>>,
    Ghost(applied): Ghost<int>,
    p: u32,
    first: u64,
    last: u64,
)
    requires
        candidate(first as int),
        first <= last,
        last % 2 == 1,
        last - first <= u32::MAX,
        old(sieve).len() >= (last - first) / 16 + 1,
        1 <= applied < table.len(),
        table[applied] == p,
        p % 2 == 1,
        sieved(old(sieve)@, table, first as int, last as int, applied),
    ensures
        final(sieve).len() == old(sieve).len(),
        sieved(final(sieve)@, table, first as int, last as int, applied + 1),
        forall|i: int|
            (last - first) / 16 + 1 <= i < final(sieve).len() ==> final(sieve)[i] == old(sieve)[i],
{
    let span: u64 = last - first;
    let step: u64 = p as u64;
    // The distance from `first` to the first multiple of `p` at or above it,
    // and one multiple further where that one is even.
    let rest: u64 = first % step;
    let mut offset: u64 = if rest == 0 {
        0
    } else {
        step - rest
    };
    if offset % 2 == 1 {
        offset += step;
    }
    proof {
        lemma_sieving_starts(sieve@, table, first as int, last as int, applied, p as int);
    }
    while offset <= span
        invariant
            candidate(first as int),
            first <= last,
            last % 2 == 1,
            span == last - first,
            span <= u32::MAX,
            step == p,
            p % 2 == 1,
            offset % 2 == 0,
            offset <= span + 2 * step,
            divides(p as int, first + offset),
            sieve.len() == old(sieve).len(),
            sieve.len() >= (last - first) / 16 + 1,
            1 <= applied < table.len(),
            table[applied] == p,
            sieving(sieve@, table, first as int, last as int, applied, p as int, first + offset),
            forall|i: int| (last - first) / 16 + 1 <= i < sieve.len() ==> sieve[i] == old(sieve)[i],
        decreases span + 2 * step - offset,
    {
        let ghost before = sieve@;
        clear_slot(sieve, (offset / 2) as usize);
        proof {
            lemma_sieving_step(
                before,
                sieve@,
                table,
                first as int,
                last as int,
                applied,
                p as int,
                first + offset,
            );
            lemma_factor_divides(p as int, 2);
            lemma_divides_sum(p as int, first + offset, p * 2);
        }
        // Twice `p` further, because even numbers are not on the sieve.
        offset += 2 * step;
    }
    proof {
        lemma_sieving_done(sieve@, table, first as int, last as int, applied, first + offset);
    }
}

/// A full buffer whose last byte in use has lost the slots above `last` is
/// the sieve before any entry of the table has struck anything out.
proof fn lemma_fresh_scratch(full: Seq<u8>, buf: Seq<u8>, table: Seq<u32>, first: int, last: int)
    requires
        first <= last,
        (last - first) % 2 == 0,
        buf.len() == full.len(),
        full.len() >= (last - first) / 16 + 1,
        forall|s: int| 0 <= s < 8 * full.len() ==> #[trigger] marked(full, s),
        forall|i: int| 0 <= i < buf.len() && i != (last - first) / 16 ==> buf[i] == full[i],
        forall|k: u8|
            k < 8 ==> #[trigger] bit_at(buf[(last - first) / 16], k) == (k < 8 - (7 - ((last
                - first) / 2) % 8) && bit_at(full[(last - first) / 16], k)),
    ensures
        sieved(buf, table, first, last, 1),
{
    let top = (last - first) / 16;
    assert forall|s: int| 0 <= s < 8 * ((last - first) / 16 + 1) implies #[trigger] marked(buf, s)
        == (first + 2 * s <= last && unsieved_by(table, 1, first + 2 * s)) by {
        let k = (s % 8) as u8;
        assert(marked(full, s));
        if s / 8 == top {
            assert(bit_at(buf[top], k) == (k < 8 - (7 - ((last - first) / 2) % 8) && bit_at(
                full[top],
                k,
            )));
        } else {
            assert(buf[s / 8] == full[s / 8]);
        }
    }
}

/// Once every entry of the table has struck out its multiples, the set slots
/// of the bytes in use are the survivors of the segment.
proof fn lemma_sieved_count(buf: Seq<u8>, table: Seq<u32>, first: int, last: int)
    requires
        candidate(first),
        first <= last,
        last % 2 == 1,
        sieved(buf, table, first, last, table.len() as int),
    ensures
        count_marked(buf, 8 * ((last - first) / 16 + 1)) == survivors(table, first, last),
{
    let n = (last - first) / 2 + 1;
    let size = (last - first) / 16 + 1;
    assert forall|s: int| n <= s < 8 * size implies !#[trigger] marked(buf, s) by {}
    assert forall|s: int| 0 <= s < n implies #[trigger] marked(buf, s) == unsieved(
        table,
        first + 2 * s,
    ) by {}
    lemma_count_marked_clear_tail(buf, n, 8 * size);
    lemma_slots_are_survivors(buf, table, first, n);
}

/// Sieves the odd numbers from `first` to `last` with the table and counts
/// those left standing.
fn sieve_candidates(sieve: &mut Vec<u8>, primes: &Vec<u32>, first: u64, last: u64) -> (count: u32)
    requires
        candidate(first as int),
        first <= last,
        last % 2 == 1,
        last - first <= u32::MAX,
        old(sieve).len() >= (last - first) / 16 + 1,
        forall|i: int| 1 <= i < primes.len() ==> primes[i] % 2 == 1,
    ensures
        count == survivors(primes@, first as int, last as int),
        final(sieve).len() == old(sieve).len(),
        sieved(final(sieve)@, primes@, first as int, last as int, primes@.len() as int),
        forall|i: int|
            (last - first) / 16 + 1 <= i < final(sieve).len() ==> final(sieve)[i] == 0xff,
{
    let span: u64 = last - first;
    let size: usize = (span / 16) as usize + 1;

    fill_ones(sieve);
    // The slots of the last byte in use that stand for numbers above `last`
    // are cleared.
    let ghost full = sieve@;
    unset_last_bits(&mut sieve[size - 1], (7 - (span / 2) % 8) as u8);
    proof {
        lemma_fresh_scratch(full, sieve@, primes@, first as int, last as int);
    }

    let mut i: usize = 1;
    while i < primes.len()
        invariant
            candidate(first as int),
            first <= last,
            last % 2 == 1,
            last - first <= u32::MAX,
            sieve.len() == old(sieve).len(),
            sieve.len() >= (last - first) / 16 + 1,
            1 <= i,
            forall|j: int| 1 <= j < primes.len() ==> primes[j] % 2 == 1,
            sieved(sieve@, primes@, first as int, last as int, i as int),
            forall|j: int| (last - first) / 16 + 1 <= j < sieve.len() ==> sieve[j] == 0xff,
        decreases primes.len() - i,
    {
        strike_segment(sieve, Ghost(primes@), Ghost(i as int), primes[i], first, last);
        i += 1;
    }
    proof {
        lemma_applied_all(sieve@, primes@, first as int, last as int, i as int);
        lemma_sieved_count(sieve@, primes@, first as int, last as int);
    }
    count_marked_bytes(sieve, size)
}

/// Past the end of the table there is nothing more to apply.
proof fn lemma_applied_all(buf: Seq<u8>, table: Seq<u32>, first: int, last: int, applied: int)
    requires
        applied >= 1,
        applied >= table.len(),
        sieved(buf, table, first, last, applied),
    ensures
        sieved(buf, table, first, last, table.len() as int),
{
    assert forall|s: int| 0 <= s < 8 * ((last - first) / 16 + 1) implies #[trigger] marked(buf, s)
        == (first + 2 * s <= last && unsieved_by(table, table.len() as int, first + 2 * s)) by {
        let w = first + 2 * s;
        assert(marked(buf, s) == (w <= last && unsieved_by(table, applied, w)));
        if unsieved_by(table, applied, w) {
            assert(unsieved_by(table, table.len() as int, w));
        }
        if unsieved_by(table, table.len() as int, w) {
            assert(unsieved_by(table, applied, w));
        }
    }
}

/// Counts what the table leaves standing in `[low, high]`, using `sieve` as
/// scratch.
///
/// With the primes up to some bound as the table, and `high` below the
/// square of the bound plus one, these are the primes of the range above the
/// bound: the table strikes out its own entries with their multiples. The
/// range that holds 2 alone counts 1 whatever the table.
pub fn segment_sieve(sieve: &mut Vec<u8>, primes: &Vec<u32>, low: usize, high: usize) -> (count:
    u32)
    requires
        old(sieve).len() >= segment_bytes(low as int, high as int),
        high - low <= u32::MAX,
        forall|i: int| 1 <= i < primes.len() ==> primes[i] % 2 == 1,
    ensures
        count == segment_count(primes@, low as int, high as int),
        forall|bound: int|
            0 <= bound && #[trigger] lists_primes_up_to(primes@, bound) && high < (bound + 1) * (
            bound + 1) && !(low == 2 && high == 2) ==> count == primes_between(
                above(low as int, bound),
                high as int,
            ),
        scratch_after(old(sieve)@, final(sieve)@, primes@, low as int, high as int),
{
    proof {
        lemma_survivors_normalized(primes@, low as int, high as int);
        assert forall|bound: int|
            0 <= bound && #[trigger] lists_primes_up_to(primes@, bound) && high < (bound + 1) * (
            bound + 1) implies survivors(primes@, low as int, high as int) == primes_between(
            above(low as int, bound),
            high as int,
        ) by {
            lemma_survivors_are_primes(primes@, bound, low as int, high as int);
        }
    }
    if low == 2 && high == 2 {
        return 1;
    } else if low > high {
        return 0;
    } else if low == high && low % 2 == 0 {
        return 0;
    }
    // Both ends are moved onto odd numbers, the lower one to 3 at least.
    let first: u64 = if low < 3 {
        3
    } else if low % 2 == 0 {
        low as u64 + 1
    } else {
        low as u64
    };
    let last: u64 = if high % 2 == 0 {
        high as u64 - 1
    } else {
        high as u64
    };
    if first > last {
        return 0;
    }
    sieve_candidates(sieve, primes, first, last)
}

} // verus!

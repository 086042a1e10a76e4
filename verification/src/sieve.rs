//! The base sieve: all primes up to a bound, by an odd-only, bit-packed
//! Sieve of Eratosthenes. Slot `s` of its buffer stands for the odd number
//! `2 * s + 3`.

use crate::bits::{bit_at, unset_last_bits};
use crate::bitvector::{clear_slot, is_marked, lemma_full_byte, marked};
use crate::primality::{
    divides, lemma_divides_quotient, lemma_divides_sum, lemma_divides_transitive,
    lemma_factor_divides, lemma_no_primes_in_tail, lemma_odd_has_odd_divisors,
    lemma_prime_by_small_divisors, lemma_prime_is_two_or_odd, lemma_primes_between_bound,
    lemma_primes_between_split, lemma_small_primes, prime, primes_between,
};
use vstd::prelude::*;

verus! {

/// `table` is the ascending list of all primes up to `bound`.
pub open spec fn lists_primes_up_to(table: Seq<u32>, bound: int) -> bool {
    &&& forall|i: int, j: int| 0 <= i < j < table.len() ==> table[i] < table[j]
    &&& forall|i: int|
        0 <= i < table.len() ==> prime(#[trigger] table[i] as int) && table[i] <= bound
    &&& forall|p: int|
        #[trigger] prime(p) && p <= bound ==> exists|i: int|
            0 <= i < table.len() && #[trigger] table[i] == p
}

/// Every entry but the first of a list of primes is odd.
pub proof fn lemma_odd_entries(table: Seq<u32>, bound: int)
    requires
        lists_primes_up_to(table, bound),
    ensures
        forall|i: int| 1 <= i < table.len() ==> table[i] % 2 == 1,
{
    assert forall|i: int| 1 <= i < table.len() implies table[i] % 2 == 1 by {
        assert(prime(table[i] as int));
        assert(prime(table[0] as int));
        assert(table[0] < table[i]);
        lemma_prime_is_two_or_odd(table[i] as int);
    }
}

/// How many entries of `table` are below `start`.
pub open spec fn entries_below(table: Seq<u32>, start: int) -> nat
    decreases table.len(),
{
    if table.len() == 0 {
        0
    } else if table.last() < start {
        entries_below(table.drop_last(), start) + 1
    } else {
        entries_below(table.drop_last(), start)
    }
}

/// There are no more entries below a bound than entries, and none where
/// every entry is at least the bound.
pub proof fn lemma_entries_below_bounds(table: Seq<u32>, start: int)
    ensures
        entries_below(table, start) <= table.len(),
        (forall|i: int| 0 <= i < table.len() ==> table[i] >= start) ==> entries_below(
            table,
            start,
        ) == 0,
    decreases table.len(),
{
    if table.len() > 0 {
        lemma_entries_below_bounds(table.drop_last(), start);
    }
}

/// In the list of the primes up to `bound`, the entries that are at least
/// `start` are as many as there are primes from `start` to `bound`.
pub proof fn lemma_table_counts(table: Seq<u32>, bound: int, start: int)
    requires
        lists_primes_up_to(table, bound),
    ensures
        table.len() - entries_below(table, start) == primes_between(start, bound),
    decreases table.len(),
{
    if table.len() == 0 {
        lemma_empty_table(table, bound, start);
    } else {
        let top = table.last() as int;
        let rest = table.drop_last();
        assert(prime(top) && top <= bound);
        // Nothing between the last entry and the bound is prime.
        lemma_no_primes_after(table, bound, top + 1);
        assert(lists_primes_up_to(rest, top - 1)) by {
            assert forall|p: int| #[trigger] prime(p) && p <= top - 1 implies exists|i: int|
                0 <= i < rest.len() && #[trigger] rest[i] == p by {
                let i = choose|i: int| 0 <= i < table.len() && #[trigger] table[i] == p;
                assert(rest[i] == p);
            }
        }
        lemma_table_counts(rest, top - 1, start);
        if top >= start {
            lemma_primes_between_split(start, top, bound);
        } else {
            lemma_primes_between_bound(start, top);
            lemma_primes_between_bound(start, top - 1);
            if bound >= start {
                lemma_primes_between_split(start, start - 1, bound);
                assert(primes_between(start, bound) == primes_between(top + 1, bound)) by {
                    lemma_no_primes_in_tail(top + 1, start, bound);
                }
            }
        }
    }
}

/// Where the list of the primes up to `bound` is empty, no number up to
/// `bound` is prime.
proof fn lemma_empty_table(table: Seq<u32>, bound: int, from: int)
    requires
        lists_primes_up_to(table, bound),
        table.len() == 0,
    ensures
        primes_between(from, bound) == 0,
    decreases bound - from + 1,
{
    if bound >= from {
        if prime(bound) {
            let i = choose|i: int| 0 <= i < table.len() && #[trigger] table[i] == bound;
        }
        lemma_empty_table(table, bound - 1, from);
    }
}

/// Above the last entry of the list of the primes up to `bound`, no number
/// up to `bound` is prime.
proof fn lemma_no_primes_after(table: Seq<u32>, bound: int, from: int)
    requires
        lists_primes_up_to(table, bound),
        table.len() > 0,
        from > table.last(),
    ensures
        primes_between(from, bound) == 0,
    decreases bound - from + 1,
{
    if bound >= from {
        if prime(bound) {
            let i = choose|i: int| 0 <= i < table.len() && #[trigger] table[i] == bound;
            assert(table[i] <= table.last());
        }
        assert(lists_primes_up_to(table, bound - 1)) by {
            assert forall|i: int| 0 <= i < table.len() implies prime(#[trigger] table[i] as int)
                && table[i] <= bound - 1 by {
                assert(table[i] <= table.last());
            }
        }
        lemma_no_primes_after(table, bound - 1, from);
    }
}

/// The list of the primes up to `bound` is as long as there are primes from
/// 2 to `bound`.
pub proof fn lemma_table_len(table: Seq<u32>, bound: int)
    requires
        lists_primes_up_to(table, bound),
    ensures
        table.len() == primes_between(2, bound),
{
    lemma_table_counts(table, bound, 2);
    lemma_entries_below_bounds(table, 2);
    assert forall|i: int| 0 <= i < table.len() implies table[i] >= 2 by {
        assert(prime(table[i] as int));
    }
}

/// The odd number that slot `slot` of the base sieve stands for.
pub open spec fn slot_value(slot: int) -> int {
    2 * slot + 3
}

/// `w` has a divisor `d` with `3 <= d < below` whose square does not exceed
/// it: the sieve has struck `w` out once it has passed `below`.
pub open spec fn struck_below(w: int, below: int) -> bool {
    exists|d: int| 3 <= d < below && d * d <= w && #[trigger] divides(d, w)
}

/// The buffer while the scan stands at the odd number `at`: a slot is set
/// when its number is within `size` and nothing below `at` has struck it out.
pub open spec fn scanned_to(buf: Seq<u8>, size: int, at: int) -> bool {
    forall|s: int|
        0 <= s < 8 * buf.len() ==> #[trigger] marked(buf, s) == (slot_value(s) <= size
            && !struck_below(slot_value(s), at))
}

/// The buffer while the multiples of the prime `v` are struck out, up to but
/// not including `upto`.
pub open spec fn striking(buf: Seq<u8>, size: int, v: int, upto: int) -> bool {
    forall|s: int|
        0 <= s < 8 * buf.len() ==> #[trigger] marked(buf, s) == (slot_value(s) <= size
            && !struck_below(slot_value(s), v) && !(divides(v, slot_value(s)) && v * v
            <= slot_value(s) && slot_value(s) < upto))
}

/// Between an odd multiple of an odd `v` and the one `2 * v` later there is
/// no other odd multiple of `v`.
pub proof fn lemma_odd_multiples_step(v: int, m: int, w: int)
    requires
        v > 0,
        v % 2 == 1,
        m % 2 == 1,
        w % 2 == 1,
        divides(v, m),
        divides(v, w),
        m <= w < m + 2 * v,
    ensures
        w == m,
{
    lemma_divides_sum(v, w, m);
    lemma_divides_quotient(v, w - m);
    let q = (w - m) / v;
    assert(q == 0 || q == 1) by (nonlinear_arith)
        requires
            w - m == v * q,
            0 <= w - m < 2 * v,
            v > 0,
    ;
    if q == 1 {
        assert(v * 1 == v) by (nonlinear_arith);
    } else {
        assert(v * 0 == 0) by (nonlinear_arith);
    }
}

/// An odd number at least 3 that nothing below itself has struck out is
/// prime.
proof fn lemma_unstruck_is_prime(v: int)
    requires
        v >= 3,
        v % 2 == 1,
        !struck_below(v, v),
    ensures
        prime(v),
{
    assert forall|d: int| 2 <= d && d * d <= v implies !#[trigger] divides(d, v) by {
        if divides(d, v) {
            lemma_odd_has_odd_divisors(d, v);
            assert(d < v) by (nonlinear_arith)
                requires
                    d >= 2,
                    d * d <= v,
            ;
            assert(3 <= d < v && d * d <= v && divides(d, v));
        }
    }
    lemma_prime_by_small_divisors(v);
}

/// Once the scan has passed the odd number `v`, whose multiples from `v * v`
/// on are struck out where `v` is a prime whose square is within `size`, it
/// stands at `v + 2`.
proof fn lemma_scan_advances(buf: Seq<u8>, size: int, v: int)
    requires
        v >= 3,
        v % 2 == 1,
        prime(v) && v * v <= size ==> striking(buf, size, v, size + 1),
        !(prime(v) && v * v <= size) ==> scanned_to(buf, size, v),
    ensures
        scanned_to(buf, size, v + 2),
{
    assert forall|s: int| 0 <= s < 8 * buf.len() implies #[trigger] marked(buf, s) == (slot_value(
        s,
    ) <= size && !struck_below(slot_value(s), v + 2)) by {
        let w = slot_value(s);
        if w <= size {
            if struck_below(w, v + 2) && !struck_below(w, v) {
                let d = choose|d: int| 3 <= d < v + 2 && d * d <= w && #[trigger] divides(d, w);
                lemma_odd_has_odd_divisors(d, w);
                assert(d == v);
                if !prime(v) {
                    // A composite `v` has a divisor that struck `w` out before.
                    if struck_below(v, v) {
                        let e = choose|e: int| 3 <= e < v && e * e <= v && #[trigger] divides(e, v);
                        lemma_divides_transitive(e, v, w);
                        assert(e * e <= w) by (nonlinear_arith)
                            requires
                                e * e <= v,
                                v * v <= w,
                                v >= 3,
                        ;
                    } else {
                        lemma_unstruck_is_prime(v);
                    }
                }
            }
            if struck_below(w, v) {
                let d = choose|d: int| 3 <= d < v && d * d <= w && #[trigger] divides(d, w);
                assert(3 <= d < v + 2 && d * d <= w && divides(d, w));
            }
            if divides(v, w) && v * v <= w {
                assert(3 <= v < v + 2 && v * v <= w && divides(v, w));
            }
        }
    }
}

/// A full buffer whose last byte has lost the slots above `size` is the
/// sieve before the scan.
proof fn lemma_fresh_sieve(full: Seq<u8>, buf: Seq<u8>, size: int)
    requires
        3 <= size,
        buf.len() == full.len(),
        full.len() == (size - 3) / 16 + 1,
        forall|i: int| 0 <= i < full.len() ==> full[i] == 0xff,
        forall|i: int| 0 <= i < buf.len() - 1 ==> buf[i] == full[i],
        forall|k: u8|
            k < 8 ==> #[trigger] bit_at(buf[buf.len() - 1], k) == (k < 8 - (7 - ((size - 3) / 2)
                % 8) && bit_at(full[buf.len() - 1], k)),
    ensures
        scanned_to(buf, size, 3),
{
    let top = buf.len() - 1;
    assert forall|s: int| 0 <= s < 8 * buf.len() implies #[trigger] marked(buf, s) == (slot_value(
        s,
    ) <= size && !struck_below(slot_value(s), 3)) by {
        let k = (s % 8) as u8;
        lemma_full_byte(k);
        if s / 8 == top {
            assert(bit_at(buf[top], k) == (k < 8 - (7 - ((size - 3) / 2) % 8) && bit_at(
                full[top],
                k,
            )));
        } else {
            assert(buf[s / 8] == full[s / 8]);
        }
    }
}

/// The list of the primes below the odd number `v`, with `v` added where it
/// is a prime within `bound`, is the list of the primes below `v + 2`.
proof fn lemma_table_extends(before: Seq<u32>, after: Seq<u32>, v: int, bound: int)
    requires
        v >= 3,
        v % 2 == 1,
        lists_primes_up_to(
            before,
            if v - 1 <= bound {
                v - 1
            } else {
                bound
            },
        ),
        prime(v) && v <= bound ==> after == before.push(v as u32) && v <= u32::MAX,
        !(prime(v) && v <= bound) ==> after == before,
    ensures
        lists_primes_up_to(
            after,
            if v + 1 <= bound {
                v + 1
            } else {
                bound
            },
        ),
{
    let reach = if v + 1 <= bound {
        v + 1
    } else {
        bound
    };
    if prime(v + 1) {
        lemma_prime_is_two_or_odd(v + 1);
    }
    assert forall|p: int| #[trigger] prime(p) && p <= reach implies exists|i: int|
        0 <= i < after.len() && #[trigger] after[i] == p by {
        if p == v {
            assert(after[after.len() - 1] == p);
        } else {
            let i = choose|i: int| 0 <= i < before.len() && before[i] == p;
            assert(after[i] == p);
        }
    }
}

/// Clearing the slot of `m`, the next odd multiple of `v` that is due, moves
/// the striking on to `m + 2 * v`.
proof fn lemma_struck_one(before: Seq<u8>, after: Seq<u8>, size: int, v: int, m: int)
    requires
        v >= 3,
        v % 2 == 1,
        m % 2 == 1,
        divides(v, m),
        v * v <= m <= size,
        after.len() == before.len(),
        striking(before, size, v, m),
        forall|s: int|
            0 <= s < 8 * after.len() ==> #[trigger] marked(after, s) == (s != (m - 3) / 2
                && marked(before, s)),
    ensures
        striking(after, size, v, m + 2 * v),
{
    assert forall|s: int| 0 <= s < 8 * after.len() implies #[trigger] marked(after, s) == (
    slot_value(s) <= size && !struck_below(slot_value(s), v) && !(divides(v, slot_value(s)) && v
        * v <= slot_value(s) && slot_value(s) < m + 2 * v)) by {
        let w = slot_value(s);
        assert(marked(before, s) == (w <= size && !struck_below(w, v) && !(divides(v, w) && v * v
            <= w && w < m)));
        if w != m && divides(v, w) && m <= w < m + 2 * v {
            lemma_odd_multiples_step(v, m, w);
        }
    }
}

/// Once the multiple that is due lies above `size`, every multiple within
/// `size` is struck out.
proof fn lemma_struck_all(buf: Seq<u8>, size: int, v: int, m: int)
    requires
        m > size,
        striking(buf, size, v, m),
    ensures
        striking(buf, size, v, size + 1),
{
    assert forall|s: int| 0 <= s < 8 * buf.len() implies #[trigger] marked(buf, s) == (slot_value(
        s,
    ) <= size && !struck_below(slot_value(s), v) && !(divides(v, slot_value(s)) && v * v
        <= slot_value(s) && slot_value(s) < size + 1)) by {
        let w = slot_value(s);
        assert(marked(buf, s) == (w <= size && !struck_below(w, v) && !(divides(v, w) && v * v
            <= w && w < m)));
    }
}

/// Strikes out the odd multiples of the prime `v` from `v * v` up to `size`.
fn strike_multiples(sieve: &mut Vec<u8>, size: u32, v: u64)
    requires
        3 <= v <= size,
        v % 2 == 1,
        v * v <= size,
        size <= 16 * old(sieve).len() + 2,
        scanned_to(old(sieve)@, size as int, v as int),
    ensures
        final(sieve).len() == old(sieve).len(),
        striking(final(sieve)@, size as int, v as int, size + 1),
{
    let mut multiple: u64 = v * v;
    proof {
        lemma_factor_divides(v as int, v as int);
        let k = v as int / 2;
        assert(v * v == 2 * (2 * k * k + 2 * k) + 1 && v * v >= 9) by (nonlinear_arith)
            requires
                v == 2 * k + 1,
                v >= 3,
        ;
    }
    while multiple <= size as u64
        invariant
            3 <= v <= size,
            v % 2 == 1,
            v * v <= multiple,
            9 <= multiple <= size + 2 * v,
            multiple % 2 == 1,
            divides(v as int, multiple as int),
            sieve.len() == old(sieve).len(),
            size <= 16 * sieve.len() + 2,
            striking(sieve@, size as int, v as int, multiple as int),
        decreases size + 2 * v - multiple,
    {
        let ghost before = sieve@;
        clear_slot(sieve, ((multiple - 3) / 2) as usize);
        proof {
            lemma_struck_one(before, sieve@, size as int, v as int, multiple as int);
            lemma_factor_divides(v as int, 2);
            lemma_divides_sum(v as int, multiple as int, v * 2);
        }
        // Twice `v` further, because even numbers are not on the sieve.
        multiple += 2 * v;
    }
    proof {
        lemma_struck_all(sieve@, size as int, v as int, multiple as int);
    }
}

/// All primes up to `size`, in ascending order.
pub fn simple_sieve(size: u32) -> (primes: Vec<u32>)
    ensures
        lists_primes_up_to(primes@, size as int),
        primes.len() == primes_between(2, size as int),
{
    let mut primes: Vec<u32> = Vec::new();
    proof {
        lemma_small_primes();
    }
    if size >= 2 {
        primes.push(2);
    }
    proof {
        let reach = if size <= 2 {
            size as int
        } else {
            2
        };
        assert forall|p: int| #[trigger] prime(p) && p <= reach implies exists|i: int|
            0 <= i < primes@.len() && #[trigger] primes@[i] == p by {
            assert(primes@[0] == 2);
        }
    }
    if size <= 2 {
        proof {
            lemma_table_len(primes@, size as int);
        }
        return primes;
    }
    // One slot per odd number from 3 to `size`, eight slots to a byte.
    let n_bytes: usize = ((size - 3) / 16) as usize + 1;
    let mut sieve: Vec<u8> = vec![0xff; n_bytes];
    // The slots of the last byte that stand for numbers above `size` are
    // cleared.
    let ghost full = sieve@;
    unset_last_bits(&mut sieve[n_bytes - 1], (7 - ((size - 3) / 2) % 8) as u8);
    proof {
        lemma_fresh_sieve(full, sieve@, size as int);
    }
    let n_slots: usize = 8 * n_bytes;
    let mut slot: usize = 0;
    while slot < n_slots
        invariant
            3 <= size,
            n_bytes == (size - 3) / 16 + 1,
            sieve.len() == n_bytes,
            n_slots == 8 * n_bytes,
            slot <= n_slots,
            scanned_to(sieve@, size as int, slot_value(slot as int)),
            lists_primes_up_to(
                primes@,
                if slot_value(slot as int) - 1 <= size {
                    slot_value(slot as int) - 1
                } else {
                    size as int
                },
            ),
        decreases n_slots - slot,
    {
        let ghost v = slot_value(slot as int);
        let ghost found = primes@;
        if is_marked(&sieve, slot) {
            // A slot still set when the scan reaches it stands for a prime.
            let value: u64 = 2 * (slot as u64) + 3;
            proof {
                lemma_unstruck_is_prime(v);
                assert(value * value <= u32::MAX * u32::MAX) by (nonlinear_arith)
                    requires
                        value <= u32::MAX,
                ;
            }
            primes.push(value as u32);
            // Its multiples below its square have a smaller divisor and are
            // struck out already.
            if value * value <= size as u64 {
                strike_multiples(&mut sieve, size, value);
            }
        } else {
            proof {
                // A prime within `size` is never struck out: this slot is no
                // prime whose multiples are due.
                if prime(v) && v * v <= size {
                    assert(v <= size) by (nonlinear_arith)
                        requires
                            v * v <= size,
                            v >= 3,
                    ;
                }
            }
        }
        proof {
            lemma_scan_advances(sieve@, size as int, v);
            lemma_table_extends(found, primes@, v, size as int);
        }
        slot += 1;
    }
    proof {
        lemma_table_len(primes@, size as int);
    }
    primes
}

} // verus!

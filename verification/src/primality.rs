//! What it means to be prime, and the facts about divisors and prime counts
//! that the sieves rest on.

use vstd::arithmetic::div_mod::{lemma_fundamental_div_mod, lemma_mod_multiples_basic};
use vstd::prelude::*;

verus! {

/// `d` divides `n`: `n` is a multiple of `d`. Zero divides only zero.
pub open spec fn divides(d: int, n: int) -> bool {
    if d == 0 {
        n == 0
    } else {
        n % d == 0
    }
}

/// `n` is a prime number: at least 2, with no divisor strictly between 1 and
/// itself.
pub open spec fn prime(n: int) -> bool {
    &&& 2 <= n
    &&& forall|d: int| 2 <= d < n ==> !#[trigger] divides(d, n)
}

/// How many primes `p` there are with `lo <= p <= hi`.
pub open spec fn primes_between(lo: int, hi: int) -> nat
    decreases hi - lo + 1,
{
    if hi < lo {
        0
    } else if prime(hi) {
        primes_between(lo, hi - 1) + 1
    } else {
        primes_between(lo, hi - 1)
    }
}

/// A product is divisible by its factor.
pub proof fn lemma_factor_divides(d: int, k: int)
    ensures
        divides(d, d * k),
        divides(d, k * d),
{
    assert(d * k == k * d) by (nonlinear_arith);
    if d > 0 {
        lemma_mod_multiples_basic(k, d);
    } else if d < 0 {
        assert((d * k) % d == 0) by (nonlinear_arith)
            requires
                d < 0,
        ;
    } else {
        assert(d * k == 0) by (nonlinear_arith)
            requires
                d == 0,
        ;
    }
}

/// A multiple of a nonzero `d` is `d` times the quotient.
pub proof fn lemma_divides_quotient(d: int, n: int)
    requires
        d != 0,
        divides(d, n),
    ensures
        n == d * (n / d),
{
    lemma_fundamental_div_mod(n, d);
}

/// A positive multiple of a positive `d` is at least `d`, and the quotient is
/// at least 1 and at most the multiple.
pub proof fn lemma_divisor_bounds(d: int, n: int)
    requires
        d > 0,
        n > 0,
        divides(d, n),
    ensures
        1 <= d <= n,
        1 <= n / d <= n,
        divides(n / d, n),
{
    lemma_divides_quotient(d, n);
    let q = n / d;
    assert(1 <= q && d <= n && q <= n) by (nonlinear_arith)
        requires
            n == d * q,
            d > 0,
            n > 0,
    ;
    lemma_factor_divides(q, d);
    assert(d * q == q * d) by (nonlinear_arith);
}

/// Divisibility is transitive.
pub proof fn lemma_divides_transitive(a: int, b: int, c: int)
    requires
        divides(a, b),
        divides(b, c),
    ensures
        divides(a, c),
{
    if b == 0 {
    } else if a == 0 {
    } else {
        lemma_divides_quotient(a, b);
        lemma_divides_quotient(b, c);
        let x = b / a;
        let y = c / b;
        assert(c == a * (x * y)) by (nonlinear_arith)
            requires
                b == a * x,
                c == b * y,
        ;
        lemma_factor_divides(a, x * y);
    }
}

/// A divisor of two numbers divides their sum and their difference.
pub proof fn lemma_divides_sum(d: int, a: int, b: int)
    requires
        divides(d, a),
        divides(d, b),
    ensures
        divides(d, a + b),
        divides(d, a - b),
{
    if d != 0 {
        lemma_divides_quotient(d, a);
        lemma_divides_quotient(d, b);
        let x = a / d;
        let y = b / d;
        assert(a + b == d * (x + y) && a - b == d * (x - y)) by (nonlinear_arith)
            requires
                a == d * x,
                b == d * y,
        ;
        lemma_factor_divides(d, x + y);
        lemma_factor_divides(d, x - y);
    }
}

/// The least divisor of `n` that is at least `from`, for `2 <= from <= n`.
pub open spec fn least_divisor_from(n: int, from: int) -> int
    decreases n - from,
{
    if from >= n {
        n
    } else if divides(from, n) {
        from
    } else {
        least_divisor_from(n, from + 1)
    }
}

/// `least_divisor_from` finds a divisor, and nothing between `from` and it
/// divides `n`.
pub proof fn lemma_least_divisor_from(n: int, from: int)
    requires
        2 <= from <= n,
    ensures
        from <= least_divisor_from(n, from) <= n,
        divides(least_divisor_from(n, from), n),
        forall|d: int| from <= d < least_divisor_from(n, from) ==> !#[trigger] divides(d, n),
    decreases n - from,
{
    if from >= n {
        lemma_factor_divides(n, 1);
        assert(n * 1 == n) by (nonlinear_arith);
    } else if divides(from, n) {
    } else {
        lemma_least_divisor_from(n, from + 1);
    }
}

/// The least divisor above 1 of a number `n >= 2`. It is prime, and unless `n`
/// itself is prime its square is at most `n`.
pub open spec fn least_prime_factor(n: int) -> int {
    least_divisor_from(n, 2)
}

/// Every `n >= 2` has a prime factor; a composite one has a prime factor
/// whose square does not exceed it.
pub proof fn lemma_least_prime_factor(n: int)
    requires
        2 <= n,
    ensures
        prime(least_prime_factor(n)),
        divides(least_prime_factor(n), n),
        2 <= least_prime_factor(n) <= n,
        !prime(n) ==> least_prime_factor(n) * least_prime_factor(n) <= n,
        prime(n) ==> least_prime_factor(n) == n,
{
    let q = least_prime_factor(n);
    lemma_least_divisor_from(n, 2);
    assert forall|d: int| 2 <= d < q implies !#[trigger] divides(d, q) by {
        if divides(d, q) {
            lemma_divides_transitive(d, q, n);
        }
    }
    if q < n {
        lemma_divisor_bounds(q, n);
        let r = n / q;
        lemma_divides_quotient(q, n);
        assert(r >= 2) by (nonlinear_arith)
            requires
                n == q * r,
                q < n,
                q >= 2,
                r >= 1,
        ;
        assert(r >= q);
        assert(q * q <= n) by (nonlinear_arith)
            requires
                n == q * r,
                r >= q,
                q >= 2,
        ;
        assert(!prime(n));
    } else {
        if !prime(n) {
            let d = choose|d: int| 2 <= d < n && divides(d, n);
            assert(2 <= d < q && divides(d, n));
        }
    }
}

/// A number with no divisor `d >= 2` whose square fits in it is prime.
pub proof fn lemma_prime_by_small_divisors(n: int)
    requires
        2 <= n,
        forall|d: int| 2 <= d && d * d <= n ==> !#[trigger] divides(d, n),
    ensures
        prime(n),
{
    lemma_least_prime_factor(n);
}

/// An odd number has no even divisor.
pub proof fn lemma_odd_has_odd_divisors(d: int, n: int)
    requires
        n % 2 == 1,
        d != 0,
        divides(d, n),
    ensures
        d % 2 == 1,
{
    if d % 2 == 0 {
        lemma_factor_divides(2, d / 2);
        lemma_divides_transitive(2, d, n);
    }
}

/// A prime other than 2 is odd.
pub proof fn lemma_prime_is_two_or_odd(p: int)
    requires
        prime(p),
    ensures
        p == 2 || p % 2 == 1,
{
    if p != 2 && p % 2 == 0 {
        lemma_factor_divides(2, p / 2);
        assert(divides(2, p));
    }
}

/// The smallest primes.
pub proof fn lemma_small_primes()
    ensures
        !prime(0),
        !prime(1),
        prime(2),
        prime(3),
{
    assert forall|d: int| 2 <= d < 3 implies !#[trigger] divides(d, 3) by {
        assert(d == 2);
    }
}

/// The count of primes in a range is the sum of the counts in two adjoining
/// parts of it.
pub proof fn lemma_primes_between_split(lo: int, mid: int, hi: int)
    requires
        lo <= mid + 1,
        mid <= hi,
    ensures
        primes_between(lo, hi) == primes_between(lo, mid) + primes_between(mid + 1, hi),
    decreases hi - mid,
{
    if hi > mid {
        lemma_primes_between_split(lo, mid, hi - 1);
    }
}

/// A range holds no more primes than integers.
pub proof fn lemma_primes_between_bound(lo: int, hi: int)
    ensures
        lo <= hi ==> primes_between(lo, hi) <= hi - lo + 1,
        hi < lo ==> primes_between(lo, hi) == 0,
    decreases hi - lo + 1,
{
    if hi >= lo {
        lemma_primes_between_bound(lo, hi - 1);
    }
}

/// No range that ends below 2 holds a prime.
pub proof fn lemma_no_primes_below_two(lo: int, hi: int)
    requires
        hi < 2,
    ensures
        primes_between(lo, hi) == 0,
    decreases hi - lo + 1,
{
    if hi >= lo {
        lemma_no_primes_below_two(lo, hi - 1);
    }
}

/// Where a range holds no prime, no range within it that ends where it ends
/// holds one.
pub proof fn lemma_no_primes_in_tail(from: int, start: int, hi: int)
    requires
        primes_between(from, hi) == 0,
        from <= start,
    ensures
        primes_between(start, hi) == 0,
{
    if hi >= start {
        lemma_primes_between_split(from, start - 1, hi);
    } else {
        lemma_primes_between_bound(start, hi);
    }
}

} // verus!

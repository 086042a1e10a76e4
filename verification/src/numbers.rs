//! Trial-division helpers on single numbers: primality, prime factors,
//! greatest common divisor and least common multiple.

use crate::primality::{
    divides, lemma_divides_quotient, lemma_divides_sum, lemma_divides_transitive,
    lemma_divisor_bounds, lemma_factor_divides, lemma_odd_has_odd_divisors,
    lemma_prime_by_small_divisors, lemma_small_primes, prime,
};
use vstd::prelude::*;

verus! {

/// The product of the entries of `factors`; 1 where there is none.
pub open spec fn product(factors: Seq<u64>) -> nat
    decreases factors.len(),
{
    if factors.len() == 0 {
        1
    } else {
        product(factors.drop_last()) * factors.last() as nat
    }
}

/// `factors` is the prime factorization of `n`: primes in ascending order,
/// each as often as it divides, whose product is `n`.
pub open spec fn is_factorization(factors: Seq<u64>, n: int) -> bool {
    &&& forall|i: int| 0 <= i < factors.len() ==> prime(#[trigger] factors[i] as int)
    &&& forall|i: int, j: int| 0 <= i <= j < factors.len() ==> factors[i] <= factors[j]
    &&& product(factors) == n
}

/// `d` divides both `a` and `b`.
pub open spec fn common_divisor(d: int, a: int, b: int) -> bool {
    divides(d, a) && divides(d, b)
}

/// `g` is the greatest common divisor of `x` and `y`: it divides both, and
/// every number that divides both divides it. Of 0 and 0 it is 0.
pub open spec fn is_gcd(x: int, y: int, g: int) -> bool {
    &&& 0 <= g
    &&& common_divisor(g, x, y)
    &&& forall|d: int| #[trigger] common_divisor(d, x, y) ==> divides(d, g)
}

/// `m` is a multiple of both `a` and `b`.
pub open spec fn common_multiple(m: int, a: int, b: int) -> bool {
    divides(a, m) && divides(b, m)
}

/// `m` is the least common multiple of `x` and `y`: it is a multiple of
/// both, and every multiple of both is a multiple of it. Where `x` or `y` is
/// 0 it is 0.
pub open spec fn is_lcm(x: int, y: int, m: int) -> bool {
    &&& 0 <= m
    &&& common_multiple(m, x, y)
    &&& forall|c: int| #[trigger] common_multiple(c, x, y) ==> divides(m, c)
}

/// Two numbers that are not negative and divide each other are equal.
pub proof fn lemma_divides_antisymmetric(a: int, b: int)
    requires
        0 <= a,
        0 <= b,
        divides(a, b),
        divides(b, a),
    ensures
        a == b,
{
    if a != 0 && b != 0 {
        lemma_divisor_bounds(a, b);
        lemma_divisor_bounds(b, a);
    }
}

/// A pair of numbers has one greatest common divisor only.
pub proof fn lemma_gcd_unique(x: int, y: int, g: int, h: int)
    requires
        is_gcd(x, y, g),
        is_gcd(x, y, h),
    ensures
        g == h,
{
    assert(common_divisor(g, x, y));
    assert(common_divisor(h, x, y));
    lemma_divides_antisymmetric(g, h);
}

/// A pair of numbers has one least common multiple only.
pub proof fn lemma_lcm_unique(x: int, y: int, m: int, n: int)
    requires
        is_lcm(x, y, m),
        is_lcm(x, y, n),
    ensures
        m == n,
{
    assert(common_multiple(m, x, y));
    assert(common_multiple(n, x, y));
    lemma_divides_antisymmetric(m, n);
}

/// Appending a factor multiplies the product by it.
pub proof fn lemma_product_push(factors: Seq<u64>, f: u64)
    ensures
        product(factors.push(f)) == product(factors) * f,
{
    assert(factors.push(f).drop_last() == factors);
}

/// Checks whether `num` is prime, by trial division.
pub fn is_prime(num: u64) -> (result: bool)
    ensures
        result == prime(num as int),
{
    proof {
        lemma_small_primes();
    }
    if num == 2 {
        return true;
    }
    if num < 2 || num % 2 == 0 {
        proof {
            if num >= 2 {
                assert(divides(2, num as int));
            }
        }
        return false;
    }
    let mut i: u64 = 3;
    while i <= num / i
        invariant
            3 <= i,
            i % 2 == 1,
            3 <= num,
            num % 2 == 1,
            forall|d: int| 2 <= d < i ==> !#[trigger] divides(d, num as int),
        decreases num - i,
    {
        assert(i * i <= num && i < num) by (nonlinear_arith)
            requires
                3 <= i <= num / i,
        ;
        if num % i == 0 {
            assert(divides(i as int, num as int));
            return false;
        }
        proof {
            if divides(i + 1, num as int) {
                lemma_odd_has_odd_divisors(i + 1, num as int);
            }
        }
        i += 2;
    }
    proof {
        assert forall|d: int| 2 <= d && d * d <= num implies !#[trigger] divides(d, num as int) by {
            assert(d < i) by (nonlinear_arith)
                requires
                    d * d <= num,
                    num / i < i,
                    2 <= d,
                    3 <= i,
            ;
        }
        lemma_prime_by_small_divisors(num as int);
    }
    true
}

/// A divisor of `n / d`, for a divisor `d` of `n`, divides `n`.
proof fn lemma_divides_of_quotient(e: int, d: int, n: int)
    requires
        d > 0,
        divides(d, n),
        divides(e, n / d),
    ensures
        divides(e, n),
{
    lemma_divides_quotient(d, n);
    lemma_factor_divides(n / d, d);
    assert(d * (n / d) == (n / d) * d) by (nonlinear_arith);
    lemma_divides_transitive(e, n / d, n);
}

/// Splits `num` into its prime factors, in ascending order. 0 and 1 have
/// none.
pub fn split_into_factors(num: u64) -> (factors: Vec<u64>)
    ensures
        num <= 1 ==> factors@.len() == 0,
        num >= 2 ==> is_factorization(factors@, num as int),
{
    let ghost whole = num;
    let mut num: u64 = num;
    let mut factors: Vec<u64> = Vec::new();
    if num <= 1 {
        return factors;
    }
    proof {
        lemma_small_primes();
        assert(1 * num == num) by (nonlinear_arith);
    }
    // The factor 2 is taken out as often as it divides.
    while num % 2 == 0
        invariant
            1 <= num,
            2 <= whole,
            product(factors@) * num == whole,
            forall|i: int| 0 <= i < factors@.len() ==> #[trigger] factors@[i] == 2,
        decreases num,
    {
        proof {
            lemma_product_push(factors@, 2);
            let p = product(factors@) as int;
            let h = num as int / 2;
            assert(p * 2 * h == p * num) by (nonlinear_arith)
                requires
                    num == 2 * h,
            ;
        }
        factors.push(2);
        num /= 2;
    }
    // Then each odd number in turn, as long as its square fits in what is
    // left.
    let mut i: u64 = 3;
    while i <= num / i
        invariant
            3 <= i,
            i % 2 == 1,
            1 <= num,
            num % 2 == 1,
            2 <= whole,
            product(factors@) * num == whole,
            forall|d: int| 2 <= d < i ==> !#[trigger] divides(d, num as int),
            forall|k: int| 0 <= k < factors@.len() ==> prime(#[trigger] factors@[k] as int),
            forall|k: int| 0 <= k < factors@.len() ==> #[trigger] factors@[k] <= i,
            forall|k: int, j: int| 0 <= k <= j < factors@.len() ==> factors@[k] <= factors@[j],
        decreases
            if num >= i {
                num - i
            } else {
                0
            },
    {
        assert(i * i <= num && i < num) by (nonlinear_arith)
            requires
                3 <= i <= num / i,
        ;
        let ghost entered = num;
        while num % i == 0
            invariant
                3 <= i,
                i % 2 == 1,
                1 <= num <= entered,
                num % 2 == 1,
                2 <= whole,
                product(factors@) * num == whole,
                forall|d: int| 2 <= d < i ==> !#[trigger] divides(d, num as int),
                forall|k: int| 0 <= k < factors@.len() ==> prime(#[trigger] factors@[k] as int),
                forall|k: int| 0 <= k < factors@.len() ==> #[trigger] factors@[k] <= i,
                forall|k: int, j: int| 0 <= k <= j < factors@.len() ==> factors@[k] <= factors@[j],
            decreases num,
        {
            let ghost before = factors@;
            proof {
                assert(divides(i as int, num as int));
                // Nothing below `i` divides it, or it would divide `num`.
                assert forall|d: int| 2 <= d < i implies !#[trigger] divides(d, i as int) by {
                    if divides(d, i as int) {
                        lemma_divides_transitive(d, i as int, num as int);
                    }
                }
                assert(prime(i as int));
                let rest = num as int / i as int;
                lemma_divides_quotient(i as int, num as int);
                lemma_divisor_bounds(i as int, num as int);
                assert forall|d: int| 2 <= d < i implies !#[trigger] divides(d, rest) by {
                    if divides(d, rest) {
                        lemma_divides_of_quotient(d, i as int, num as int);
                    }
                }
                if rest % 2 == 0 {
                    lemma_factor_divides(2, rest / 2);
                    lemma_divides_of_quotient(2, i as int, num as int);
                    assert(divides(2, num as int));
                }
                lemma_product_push(factors@, i);
                let p = product(factors@) as int;
                assert(p * i * rest == p * num) by (nonlinear_arith)
                    requires
                        num == i * rest,
                ;
                assert(rest < num) by (nonlinear_arith)
                    requires
                        num == i * rest,
                        3 <= i,
                        1 <= rest,
                ;
            }
            factors.push(i);
            num /= i;
            proof {
                assert forall|k: int, j: int| 0 <= k <= j < factors@.len() implies factors@[k]
                    <= factors@[j] by {
                    if j == before.len() {
                        if k < before.len() {
                            assert(before[k] <= i);
                        }
                    } else {
                        assert(before[k] <= before[j]);
                    }
                }
            }
        }
        proof {
            if divides(i + 1, num as int) {
                lemma_odd_has_odd_divisors(i + 1, num as int);
            }
        }
        i += 2;
    }
    // What is left, if anything, is one more prime.
    if num > 1 {
        let ghost before = factors@;
        proof {
            assert forall|d: int| 2 <= d && d * d <= num implies !#[trigger] divides(
                d,
                num as int,
            ) by {
                if d >= i {
                    assert(false) by (nonlinear_arith)
                        requires
                            d * d <= num,
                            3 <= i <= d,
                            num / i < i,
                    ;
                }
            }
            lemma_prime_by_small_divisors(num as int);
            if num < i {
                lemma_factor_divides(num as int, 1);
                assert(num * 1 == num) by (nonlinear_arith);
            }
            lemma_product_push(factors@, num);
        }
        factors.push(num);
        proof {
            assert forall|k: int, j: int| 0 <= k <= j < factors@.len() implies factors@[k]
                <= factors@[j] by {
                if j == before.len() {
                    if k < before.len() {
                        assert(before[k] <= i);
                    }
                } else {
                    assert(before[k] <= before[j]);
                }
            }
        }
    } else {
        proof {
            assert(product(factors@) * 1 == product(factors@)) by (nonlinear_arith);
        }
    }
    factors
}

/// Swapping a pair for its divisor and remainder keeps the common divisors.
proof fn lemma_remainder_keeps_divisors(a: int, b: int, d: int)
    requires
        0 <= a,
        0 < b,
    ensures
        common_divisor(d, a, b) == common_divisor(d, b, a % b),
{
    vstd::arithmetic::div_mod::lemma_fundamental_div_mod(a, b);
    let q = a / b;
    let r = a % b;
    lemma_factor_divides(b, q);
    if divides(d, b) {
        lemma_divides_transitive(d, b, b * q);
        if divides(d, a) {
            lemma_divides_sum(d, a, b * q);
        }
        if divides(d, r) {
            lemma_divides_sum(d, b * q, r);
        }
    }
}

/// The greatest common divisor of `x` and `y`, by Euclid's algorithm.
pub fn gcd(x: u64, y: u64) -> (g: u64)
    ensures
        is_gcd(x as int, y as int, g as int),
{
    if x == 0 || y == 0 {
        proof {
            lemma_factor_divides(x as int, 1);
            lemma_factor_divides(y as int, 1);
            assert(x * 1 == x && y * 1 == y) by (nonlinear_arith);
        }
        return x + y;
    }
    if x == y {
        proof {
            lemma_factor_divides(x as int, 1);
            assert(x * 1 == x) by (nonlinear_arith);
        }
        return x;
    }
    let ghost x0 = x as int;
    let ghost y0 = y as int;
    let mut a: u64 = x;
    let mut b: u64 = y;
    while b != 0
        invariant
            forall|d: int|
                #[trigger] common_divisor(d, a as int, b as int) == common_divisor(d, x0, y0),
        decreases b,
    {
        proof {
            assert forall|d: int| #[trigger] common_divisor(d, b as int, a as int % b as int)
                == common_divisor(d, x0, y0) by {
                lemma_remainder_keeps_divisors(a as int, b as int, d);
                assert(common_divisor(d, a as int, b as int) == common_divisor(d, x0, y0));
            }
        }
        let r = a % b;
        a = b;
        b = r;
    }
    proof {
        lemma_factor_divides(a as int, 1);
        assert(a * 1 == a) by (nonlinear_arith);
        assert(common_divisor(a as int, a as int, 0));
        assert forall|d: int| #[trigger] common_divisor(d, x0, y0) implies divides(d, a as int) by {
            assert(common_divisor(d, a as int, b as int));
        }
    }
    a
}

/// The greatest common divisor of two numbers is a sum of multiples of
/// them: the pair returned holds the two coefficients.
pub proof fn lemma_gcd_is_combination(a: int, b: int, g: int) -> (uv: (int, int))
    requires
        0 <= a,
        0 <= b,
        is_gcd(a, b, g),
    ensures
        uv.0 * a + uv.1 * b == g,
    decreases b,
{
    if b == 0 {
        lemma_factor_divides(a, 1);
        assert(a * 1 == a) by (nonlinear_arith);
        assert(common_divisor(a, a, b));
        lemma_divides_antisymmetric(a, g);
        assert(1 * a + 0 * b == a) by (nonlinear_arith);
        (1, 0)
    } else {
        let q = a / b;
        let r = a % b;
        vstd::arithmetic::div_mod::lemma_fundamental_div_mod(a, b);
        lemma_remainder_keeps_divisors(a, b, g);
        assert forall|d: int| #[trigger] common_divisor(d, b, r) implies divides(d, g) by {
            lemma_remainder_keeps_divisors(a, b, d);
            assert(common_divisor(d, a, b));
        }
        let (u, v) = lemma_gcd_is_combination(b, r, g);
        assert(v * a + (u - v * q) * b == u * b + v * r) by (nonlinear_arith)
            requires
                a == b * q + r,
        ;
        (v, u - v * q)
    }
}

/// `x * (y / g)` is the least common multiple of two positive numbers with
/// greatest common divisor `g`.
pub proof fn lemma_lcm_by_gcd(x: int, y: int, g: int)
    requires
        0 < x,
        0 < y,
        is_gcd(x, y, g),
    ensures
        0 < g,
        is_lcm(x, y, x * (y / g)),
{
    assert(common_divisor(g, x, y));
    lemma_divides_quotient(g, x);
    lemma_divides_quotient(g, y);
    let a = x / g;
    let b = y / g;
    let m = x * b;
    lemma_divisor_bounds(g, x);
    lemma_divisor_bounds(g, y);
    assert(m >= 0) by (nonlinear_arith)
        requires
            m == x * b,
            0 < x,
            1 <= b,
    ;
    lemma_factor_divides(x, b);
    assert(m == y * a) by (nonlinear_arith)
        requires
            m == x * b,
            x == g * a,
            y == g * b,
    ;
    lemma_factor_divides(y, a);
    let (u, v) = lemma_gcd_is_combination(x, y, g);
    assert forall|c: int| #[trigger] common_multiple(c, x, y) implies divides(m, c) by {
        lemma_divides_quotient(x, c);
        lemma_divides_quotient(y, c);
        let s = c / x;
        let t = c / y;
        let xy = x * y;
        let k = t * u + s * v;
        assert(c * (u * x) == xy * (t * u)) by (nonlinear_arith)
            requires
                c == y * t,
                xy == x * y,
        ;
        assert(c * (v * y) == xy * (s * v)) by (nonlinear_arith)
            requires
                c == x * s,
                xy == x * y,
        ;
        assert(c * g == c * (u * x) + c * (v * y)) by (nonlinear_arith)
            requires
                u * x + v * y == g,
        ;
        assert(xy * (t * u) + xy * (s * v) == xy * k) by (nonlinear_arith)
            requires
                k == t * u + s * v,
        ;
        assert(xy == m * g) by (nonlinear_arith)
            requires
                xy == x * y,
                m == x * b,
                y == g * b,
        ;
        assert(c == m * k) by (nonlinear_arith)
            requires
                c * g == (m * g) * k,
                0 < g,
        ;
        lemma_factor_divides(m, k);
    }
}

/// The least common multiple of `x` and `y`.
pub fn lcm(x: u64, y: u64) -> (m: u128)
    ensures
        is_lcm(x as int, y as int, m as int),
        (x == 0 || y == 0) ==> m == 0,
{
    if x == 0 && y == 0 {
        return 0;
    }
    let g = gcd(x, y);
    proof {
        assert(common_divisor(g as int, x as int, y as int));
        if x > 0 && y > 0 {
            lemma_lcm_by_gcd(x as int, y as int, g as int);
        } else if x == 0 {
            // The greatest common divisor of 0 and `y` is `y`.
            lemma_factor_divides(y as int, 1);
            assert(y * 1 == y) by (nonlinear_arith);
            assert(common_divisor(y as int, x as int, y as int));
            lemma_divides_antisymmetric(g as int, y as int);
            assert(x * (y / g) == 0) by (nonlinear_arith)
                requires
                    x == 0,
            ;
        } else {
            lemma_factor_divides(x as int, 1);
            assert(x * 1 == x) by (nonlinear_arith);
            assert(common_divisor(x as int, x as int, y as int));
            lemma_divides_antisymmetric(g as int, x as int);
            assert(x * (y / g) == 0) by (nonlinear_arith)
                requires
                    y == 0,
                    g > 0,
            ;
        }
        assert(x * (y / g) <= 0xffff_ffff_ffff_ffff * 0xffff_ffff_ffff_ffff) by (nonlinear_arith)
            requires
                0 <= x <= 0xffff_ffff_ffff_ffff,
                0 <= y / g <= 0xffff_ffff_ffff_ffff,
        ;
    }
    x as u128 * ((y as u128) / (g as u128))
}

} // verus!

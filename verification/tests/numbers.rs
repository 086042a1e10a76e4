use primeutils::{gcd, is_prime, lcm, split_into_factors};

#[test]
fn test_is_prime() {
  assert_eq!(is_prime(0), false);
  assert_eq!(is_prime(1), false);
  assert_eq!(is_prime(2), true);
  assert_eq!(is_prime(3), true);
  assert_eq!(is_prime(4), false);
  assert_eq!(is_prime(5), true);
  assert_eq!(is_prime(6), false);
  assert_eq!(is_prime(7), true);
  assert_eq!(is_prime(99), false);
  assert_eq!(is_prime(100), false);
  assert_eq!(is_prime(101), true);
  assert_eq!(is_prime(102), false);
  assert_eq!(is_prime(103), true);
  assert_eq!(is_prime(4_294_967_290), false);
  assert_eq!(is_prime(4_294_967_291), true);
  assert_eq!(is_prime(4_294_967_292), false);
  assert_eq!(is_prime(4_294_967_295), false);
  assert_eq!(is_prime(4_294_967_296), false);
  assert_eq!(is_prime(18_446_744_073_709_551_614), false);
  assert_eq!(is_prime(18_446_744_073_709_551_615), false);
}

#[test]
fn test_factors() {
  assert_eq!(split_into_factors(0), vec![]);
  assert_eq!(split_into_factors(1), vec![]);
  assert_eq!(split_into_factors(2), vec![2]);
  assert_eq!(split_into_factors(3), vec![3]);
  assert_eq!(split_into_factors(4), vec![2, 2]);
  assert_eq!(split_into_factors(5), vec![5]);
  assert_eq!(split_into_factors(6), vec![2, 3]);
  assert_eq!(split_into_factors(7), vec![7]);
  assert_eq!(split_into_factors(99), vec![3, 3, 11]);
  assert_eq!(split_into_factors(100), vec![2, 2, 5, 5]);
  assert_eq!(split_into_factors(101), vec![101]);
  assert_eq!(split_into_factors(102), vec![2, 3, 17]);
  assert_eq!(split_into_factors(103), vec![103]);
  assert_eq!(split_into_factors(4_294_967_290), vec![2, 5, 19, 22_605_091]);
  assert_eq!(split_into_factors(4_294_967_291), vec![4_294_967_291]);
  assert_eq!(split_into_factors(4_294_967_292), vec![2, 2, 3, 3, 7, 11, 31, 151, 331]);
  assert_eq!(split_into_factors(4_294_967_295), vec![3, 5, 17, 257, 65_537]);
  assert_eq!(split_into_factors(4_294_967_296), vec![2, 2, 2, 2, 2, 2, 2, 2, 2, 2, 2, 2, 2, 2, 2, 2, 2, 2, 2, 2, 2, 2, 2, 2, 2, 2, 2, 2, 2, 2, 2, 2]);
  assert_eq!(split_into_factors(18_446_744_073_709_551_614), vec![2, 7, 7, 73, 127, 337, 92_737, 649_657]);
  assert_eq!(split_into_factors(18_446_744_073_709_551_615), vec![3, 5, 17, 257, 641, 65_537, 6_700_417]);
}

#[test]
fn test_gcd() {
  assert_eq!(gcd(0, 0), 0);
  assert_eq!(gcd(0, 1), 1);
  assert_eq!(gcd(1, 0), 1);
  assert_eq!(gcd(1, 1), 1);
  assert_eq!(gcd(2, 4), 2);
  assert_eq!(gcd(4, 2), 2);
  assert_eq!(gcd(3, 9), 3);
  assert_eq!(gcd(9, 3), 3);
  assert_eq!(gcd(6, 8), 2);
  assert_eq!(gcd(7, 13), 1);
  assert_eq!(gcd(99, 121), 11);
  assert_eq!(gcd(100, 80), 20);
  assert_eq!(gcd(101, 103), 1);
  assert_eq!(gcd(102, 170), 34);
  assert_eq!(gcd(103, 206), 103);
  assert_eq!(gcd(1_234_567_890, 987_654_321), 9);
  assert_eq!(gcd(4_294_967_295, 65_536), 1);
  assert_eq!(gcd(4_294_967_296, 65_536), 65_536);
  assert_eq!(gcd(4_294_967_290, 4_294_967_295), 5);
  assert_eq!(gcd(4_294_967_291, 4_294_967_292), 1);
  assert_eq!(gcd(4_294_967_292, 4_294_967_296), 4);
  assert_eq!(gcd(18_446_744_073_709_551_614, 18_446_744_073_709_551_615), 1);
  assert_eq!(gcd(18_446_744_073_709_551_615, 18_446_744_073_709_551_615), 18_446_744_073_709_551_615);
}

#[test]
fn test_lcm() {
  assert_eq!(lcm(0, 0), 0);
  assert_eq!(lcm(0, 1), 0);
  assert_eq!(lcm(1, 0), 0);
  assert_eq!(lcm(1, 1), 1);
  assert_eq!(lcm(2, 4), 4);
  assert_eq!(lcm(4, 2), 4);
  assert_eq!(lcm(3, 9), 9);
  assert_eq!(lcm(6, 8), 24);
  assert_eq!(lcm(7, 13), 91);
  assert_eq!(lcm(99, 121), 1089);
  assert_eq!(lcm(100, 80), 400);
  assert_eq!(lcm(101, 103), 10403);
  assert_eq!(lcm(102, 170), 510);
  assert_eq!(lcm(103, 206), 206);
  assert_eq!(lcm(4_294_967_295, 65_536), 281_474_976_645_120);
  assert_eq!(lcm(4_294_967_296, 65_536), 4_294_967_296);
  assert_eq!(lcm(1_234_567_890, 987_654_321), 135_480_701_236_261_410);
  assert_eq!(lcm(4_294_967_290, 4_294_967_295), 3_689_348_808_728_956_110);
  assert_eq!(lcm(4_294_967_291, 4_294_967_292), 18_446_744_035_054_845_972);
  assert_eq!(lcm(4_294_967_292, 4_294_967_296), 4_611_686_014_132_420_608);
  assert_eq!(lcm(18_446_744_073_709_551_614, 18_446_744_073_709_551_615), 340_282_366_920_938_463_408_034_375_210_639_556_610);
}

#[test]
fn test_is_prime_rejects_squares_of_primes() {
  assert_eq!(is_prime(9), false);
  assert_eq!(is_prime(25), false);
  assert_eq!(is_prime(49), false);
  assert_eq!(is_prime(4_293_001_441), false);
}

#[test]
fn test_is_prime_agrees_with_factors() {
  let mut n: u64 = 0;
  while n < 2_000 {
    let factors = split_into_factors(n);
    assert_eq!(is_prime(n), factors.len() == 1 && factors[0] == n);
    n += 1;
  }
}

#[test]
fn test_factors_multiply_back() {
  let mut n: u64 = 2;
  while n < 3_000 {
    let factors = split_into_factors(n);
    let mut product: u64 = 1;
    let mut last: u64 = 2;
    for f in factors {
      assert!(is_prime(f));
      assert!(last <= f);
      last = f;
      product *= f;
    }
    assert_eq!(product, n);
    n += 1;
  }
}

#[test]
fn test_factors_of_prime_squares() {
  assert_eq!(split_into_factors(9), vec![3, 3]);
  assert_eq!(split_into_factors(49), vec![7, 7]);
  assert_eq!(split_into_factors(4_293_001_441), vec![65_521, 65_521]);
}

#[test]
fn test_gcd_divides_and_lcm_is_multiple() {
  let mut x: u64 = 0;
  while x < 60 {
    let mut y: u64 = 0;
    while y < 60 {
      let g = gcd(x, y);
      let m = lcm(x, y);
      if x == 0 && y == 0 {
        assert_eq!(g, 0);
      } else {
        assert_eq!(x % g, 0);
        assert_eq!(y % g, 0);
      }
      if x == 0 || y == 0 {
        assert_eq!(m, 0);
      } else {
        assert_eq!(m % x as u128, 0);
        assert_eq!(m % y as u128, 0);
        assert_eq!(m * g as u128, x as u128 * y as u128);
      }
      assert_eq!(g, gcd(y, x));
      assert_eq!(m, lcm(y, x));
      y += 1;
    }
    x += 1;
  }
}

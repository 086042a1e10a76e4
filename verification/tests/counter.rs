use primeutils::count_primes;

#[test]
fn test_count_primes() {
  assert_eq!(count_primes(10, None, None, None), 4);
  assert_eq!(count_primes(10, Some(2), None, None), 4);
  assert_eq!(count_primes(10, Some(3), None, None), 3);
  assert_eq!(count_primes(10, Some(5), None, None), 2);
  assert_eq!(count_primes(10, Some(11), None, None), 0);
  assert_eq!(count_primes(100, None, None, None), 25);
  assert_eq!(count_primes(1000, None, None, None), 168);
  assert_eq!(count_primes(10_000, None, None, None), 1229);
  assert_eq!(count_primes(100_000, None, None, None), 9592);
  assert_eq!(count_primes(1_000_000, None, None, None), 78498);
  assert_eq!(count_primes(10_000_000, None, None, None), 664579);
  assert_eq!(count_primes(100, Some(50), None, None), 10);
  assert_eq!(count_primes(100, Some(97), None, None), 1);
  assert_eq!(count_primes(100, Some(98), None, None), 0);
  assert_eq!(count_primes(2, None, None, None), 1);
  assert_eq!(count_primes(1, None, None, None), 0);
  assert_eq!(count_primes(0, None, None, None), 0);
  // Test with explicit threads and cache
  assert_eq!(count_primes(100, None, Some(1), Some(1)), 25);
  assert_eq!(count_primes(100, None, Some(4), Some(2)), 25);
}

#[test]
fn test_count_primes_small_limits() {
  assert_eq!(count_primes(3, None, None, None), 2);
  assert_eq!(count_primes(3, Some(3), None, None), 1);
  assert_eq!(count_primes(3, Some(2), Some(1), Some(1)), 2);
  assert_eq!(count_primes(4, None, None, None), 2);
  assert_eq!(count_primes(2, Some(2), None, None), 1);
  assert_eq!(count_primes(2, Some(0), None, None), 1);
  assert_eq!(count_primes(2, Some(3), None, None), 0);
}

#[test]
fn test_count_primes_start_above_limit() {
  assert_eq!(count_primes(10, Some(12), None, None), 0);
  assert_eq!(count_primes(10, Some(1_000), Some(2), Some(64)), 0);
}

#[test]
fn test_count_primes_is_a_difference() {
  let limit: usize = 500;
  let mut start: usize = 2;
  while start <= limit {
    assert_eq!(
      count_primes(limit, Some(start), Some(1), Some(1)),
      count_primes(limit, None, Some(1), Some(1)) - count_primes(start - 1, None, Some(1), Some(1))
    );
    start += 1;
  }
}

#[test]
fn test_count_primes_ignores_workers_and_cache() {
  let mut limit: usize = 0;
  while limit < 300 {
    let expected = count_primes(limit, Some(3), Some(1), Some(1));
    assert_eq!(count_primes(limit, Some(3), Some(4), Some(2)), expected);
    assert_eq!(count_primes(limit, Some(3), Some(0), Some(0)), expected);
    assert_eq!(count_primes(limit, Some(3), Some(7), Some(1_000_000)), expected);
    assert_eq!(count_primes(limit, Some(3), None, Some(usize::MAX)), expected);
    limit += 1;
  }
  assert_eq!(count_primes(51, Some(3), None, Some(2)), 14);
  assert_eq!(count_primes(19, Some(3), None, Some(1)), 7);
}

#[test]
fn test_count_primes_matches_trial_division() {
  let mut expected: usize = 0;
  let mut limit: usize = 0;
  while limit < 2_000 {
    if primeutils::is_prime(limit as u64) {
      expected += 1;
    }
    assert_eq!(count_primes(limit, None, Some(2), Some(1)), expected);
    limit += 1;
  }
}

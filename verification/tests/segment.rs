use primeutils::segment_sieve;
use primeutils::simple_sieve;

fn primes_in(low: usize, high: usize) -> u32 {
  let mut count: u32 = 0;
  let mut n = low;
  while n <= high {
    if primeutils::is_prime(n as u64) {
      count += 1;
    }
    n += 1;
  }
  count
}

#[test]
fn test_segment_special_cases() {
  let table = simple_sieve(10);
  let mut scratch: Vec<u8> = vec![0; 8];
  assert_eq!(segment_sieve(&mut scratch, &table, 2, 2), 1);
  assert_eq!(scratch, vec![0; 8]);
  assert_eq!(segment_sieve(&mut scratch, &table, 20, 10), 0);
  assert_eq!(segment_sieve(&mut scratch, &table, 14, 14), 0);
  assert_eq!(segment_sieve(&mut scratch, &table, 1, 1), 0);
  assert_eq!(segment_sieve(&mut scratch, &table, 0, 2), 0);
  assert_eq!(scratch, vec![0; 8]);
  assert_eq!(segment_sieve(&mut scratch, &table, 13, 13), 1);
  assert_eq!(segment_sieve(&mut scratch, &table, 15, 15), 0);
}

#[test]
fn test_segment_leaves_out_the_base_primes() {
  let table = simple_sieve(10);
  let mut scratch: Vec<u8> = vec![0; 8];
  // Of 2..=100 the table strikes out its own entries too: 25 primes less 4.
  assert_eq!(segment_sieve(&mut scratch, &table, 2, 100), 21);
  assert_eq!(segment_sieve(&mut scratch, &table, 3, 9), 0);
  assert_eq!(segment_sieve(&mut scratch, &table, 11, 100), 21);
}

#[test]
fn test_segment_counts_primes_above_the_table() {
  let table = simple_sieve(31);
  let mut scratch: Vec<u8> = vec![0; 64];
  let mut low: usize = 32;
  while low < 200 {
    let mut high = low;
    while high < 1_000 {
      assert_eq!(segment_sieve(&mut scratch, &table, low, high), primes_in(low, high));
      high += 37;
    }
    low += 1;
  }
}

#[test]
fn test_segment_whose_ends_are_sixteen_apart() {
  let table = simple_sieve(7);
  let mut scratch: Vec<u8> = vec![0; 2];
  // 35, 37, .., 51 are nine candidates: two bytes.
  assert_eq!(segment_sieve(&mut scratch, &table, 35, 51), 4);
  assert_eq!(segment_sieve(&mut scratch, &table, 19, 35), 4);
}

#[test]
fn test_segment_with_an_empty_table() {
  let table = simple_sieve(1);
  let mut scratch: Vec<u8> = vec![0; 1];
  assert_eq!(segment_sieve(&mut scratch, &table, 2, 3), 1);
  assert_eq!(segment_sieve(&mut scratch, &table, 3, 3), 1);
  assert_eq!(segment_sieve(&mut scratch, &table, 2, 2), 1);
}

#[test]
fn test_segment_scratch_is_left_sieved() {
  let table = simple_sieve(5);
  let mut scratch: Vec<u8> = vec![0; 3];
  // Candidates 7, 9, .., 35: 7, 11, 13, 17, 19, 23, 29, 31 stay.
  assert_eq!(segment_sieve(&mut scratch, &table, 7, 35), 8);
  assert_eq!(scratch, vec![0b0110_1101, 0b0001_1001, 0xff]);
}

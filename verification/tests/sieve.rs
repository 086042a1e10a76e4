use primeutils::simple_sieve;

#[test]
fn test_simple_sieve() {
  assert_eq!(simple_sieve(0), vec![]);
  assert_eq!(simple_sieve(1), vec![]);
  assert_eq!(simple_sieve(2), vec![2]);
  assert_eq!(simple_sieve(3), vec![2, 3]);
  assert_eq!(simple_sieve(4), vec![2, 3]);
  assert_eq!(simple_sieve(10), vec![2, 3, 5, 7]);
  assert_eq!(simple_sieve(20), vec![2, 3, 5, 7, 11, 13, 17, 19]);
  assert_eq!(simple_sieve(30), vec![2, 3, 5, 7, 11, 13, 17, 19, 23, 29]);
  assert_eq!(simple_sieve(50), vec![2, 3, 5, 7, 11, 13, 17, 19, 23, 29, 31, 37, 41, 43, 47]);
  assert_eq!(simple_sieve(100), vec![2, 3, 5, 7, 11, 13, 17, 19, 23, 29, 31, 37, 41, 43, 47, 53, 59, 61, 67, 71, 73, 79, 83, 89, 97]);
  assert_eq!(simple_sieve(101), vec![2, 3, 5, 7, 11, 13, 17, 19, 23, 29, 31, 37, 41, 43, 47, 53, 59, 61, 67, 71, 73, 79, 83, 89, 97, 101]);
  assert_eq!(simple_sieve(102), vec![2, 3, 5, 7, 11, 13, 17, 19, 23, 29, 31, 37, 41, 43, 47, 53, 59, 61, 67, 71, 73, 79, 83, 89, 97, 101]);
  assert_eq!(simple_sieve(199), vec![2, 3, 5, 7, 11, 13, 17, 19, 23, 29, 31, 37, 41, 43, 47, 53, 59, 61, 67, 71, 73, 79, 83, 89, 97, 101, 103, 107, 109, 113, 127, 131, 137, 139, 149, 151, 157, 163, 167, 173, 179, 181, 191, 193, 197, 199]);
  assert_eq!(simple_sieve(1_000), vec![
    2, 3, 5, 7, 11, 13, 17, 19, 23, 29, 31, 37, 41, 43, 47, 53, 59, 61, 67, 71, 73, 79, 83, 89, 97,
    101, 103, 107, 109, 113, 127, 131, 137, 139, 149, 151, 157, 163, 167, 173, 179, 181, 191, 193, 197, 199,
    211, 223, 227, 229, 233, 239, 241, 251, 257, 263, 269, 271, 277, 281, 283, 293, 307, 311, 313, 317,
    331, 337, 347, 349, 353, 359, 367, 373, 379, 383, 389, 397, 401, 409, 419, 421, 431, 433, 439, 443,
    449, 457, 461, 463, 467, 479, 487, 491, 499, 503, 509, 521, 523, 541, 547, 557, 563, 569, 571, 577,
    587, 593, 599, 601, 607, 613, 617, 619, 631, 641, 643, 647, 653, 659, 661, 673, 677, 683, 691, 701,
    709, 719, 727, 733, 739, 743, 751, 757, 761, 769, 773, 787, 797, 809, 811, 821, 823, 827, 829, 839,
    853, 857, 859, 863, 877, 881, 883, 887, 907, 911, 919, 929, 937, 941, 947, 953, 967, 971, 977, 983, 991, 997
  ]);
  assert_eq!(simple_sieve(10_000).len(), 1229);
  assert_eq!(simple_sieve(100_000).len(), 9592);
  assert_eq!(simple_sieve(1_000_000).len(), 78498);
  assert_eq!(simple_sieve(10_000_000).len(), 664579);
}

#[test]
fn test_simple_sieve_matches_trial_division() {
  let primes = simple_sieve(5_000);
  let mut expected: Vec<u32> = Vec::new();
  let mut n: u32 = 0;
  while n <= 5_000 {
    if primeutils::is_prime(n as u64) {
      expected.push(n);
    }
    n += 1;
  }
  assert_eq!(primes, expected);
}

#[test]
fn test_simple_sieve_known_counts() {
  assert_eq!(simple_sieve(1_000).len(), 168);
  assert_eq!(simple_sieve(10_000).len(), 1229);
  assert_eq!(simple_sieve(1_000_000).len(), 78498);
}

#[test]
fn test_simple_sieve_around_byte_ends() {
  assert_eq!(simple_sieve(17), vec![2, 3, 5, 7, 11, 13, 17]);
  assert_eq!(simple_sieve(18), vec![2, 3, 5, 7, 11, 13, 17]);
  assert_eq!(simple_sieve(19), vec![2, 3, 5, 7, 11, 13, 17, 19]);
  assert_eq!(simple_sieve(9), vec![2, 3, 5, 7]);
  assert_eq!(simple_sieve(25), vec![2, 3, 5, 7, 11, 13, 17, 19, 23]);
}

#[test]
fn test_simple_sieve_near_the_top_of_u32() {
  let top = simple_sieve(65_536 * 4);
  assert_eq!(*top.last().unwrap(), 262_139);
}

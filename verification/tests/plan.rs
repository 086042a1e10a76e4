use primeutils::counter::{
  count_below, initial_count, isqrt, run_worker, segment_size, Segment, SievePlan, WorkCursor,
};
use primeutils::simple_sieve;

#[test]
fn test_isqrt() {
  assert_eq!(isqrt(0), 0);
  assert_eq!(isqrt(1), 1);
  assert_eq!(isqrt(2), 1);
  assert_eq!(isqrt(3), 1);
  assert_eq!(isqrt(4), 2);
  assert_eq!(isqrt(99), 9);
  assert_eq!(isqrt(100), 10);
  assert_eq!(isqrt(10_000_000), 3162);
  assert_eq!(isqrt(4_294_967_295), 65_535);
  assert_eq!(isqrt(4_294_967_296), 65_536);
  assert_eq!(isqrt(18_446_744_065_119_617_024), 4_294_967_294);
  assert_eq!(isqrt(18_446_744_065_119_617_025), 4_294_967_295);
  assert_eq!(isqrt(18_446_744_073_709_551_615), 4_294_967_295);
  // A square beyond what a double holds exactly.
  assert_eq!(isqrt(9_007_199_515_875_288 - 1), 94_906_266);
}

#[test]
fn test_segment_size() {
  // Sixteen numbers for each byte of the hint.
  assert_eq!(segment_size(10_000_000, 2, 3162, 32_768), 524_288);
  // No less than the root, rounded up to a multiple of 16.
  assert_eq!(segment_size(10_000_000, 2, 3162, 1), 3168);
  assert_eq!(segment_size(10_000_000, 2, 3162, 0), 3168);
  // No more than what lies above the root and the start.
  assert_eq!(segment_size(100, 2, 10, 32_768), 96);
  assert_eq!(segment_size(100, 98, 10, 32_768), 16);
  assert_eq!(segment_size(10, 10, 3, 1), 16);
  assert_eq!(segment_size(2, 2, 1, 1), 16);
  // A hint above the largest one counts as the largest.
  assert_eq!(
    segment_size(18_446_744_073_709_551_615, 2, 4_294_967_295, 1 << 40),
    4_294_967_296
  );
  assert_eq!(
    segment_size(18_446_744_073_709_551_615, 2, 4_294_967_295, 1),
    4_294_967_296
  );
}

#[test]
fn test_count_below_and_initial_count() {
  let table = simple_sieve(31);
  assert_eq!(count_below(&table, 0), 0);
  assert_eq!(count_below(&table, 2), 0);
  assert_eq!(count_below(&table, 3), 1);
  assert_eq!(count_below(&table, 12), 5);
  assert_eq!(count_below(&table, 31), 10);
  assert_eq!(count_below(&table, 32), 11);
  assert_eq!(initial_count(&table, 2, 1_000, 31), 11);
  assert_eq!(initial_count(&table, 12, 1_000, 31), 6);
  assert_eq!(initial_count(&table, 31, 1_000, 31), 1);
  assert_eq!(initial_count(&table, 32, 1_000, 31), 0);
  assert_eq!(initial_count(&table, 500, 1_000, 31), 0);
  let none = simple_sieve(1);
  assert_eq!(initial_count(&none, 2, 2, 1), 0);
  assert_eq!(initial_count(&none, 2, 3, 1), 1);
  assert_eq!(initial_count(&none, 3, 3, 1), 0);
}

#[test]
fn test_cursor_hands_out_each_segment_once() {
  let mut cursor = WorkCursor::new(2, 100, 32);
  assert!(!cursor.is_exhausted());
  assert_eq!(cursor.claim(), Some(Segment { low: 2, high: 33 }));
  assert_eq!(cursor.claim(), Some(Segment { low: 34, high: 65 }));
  assert_eq!(cursor.claim(), Some(Segment { low: 66, high: 97 }));
  assert!(!cursor.is_exhausted());
  assert_eq!(cursor.claim(), Some(Segment { low: 98, high: 100 }));
  assert!(cursor.is_exhausted());
  assert_eq!(cursor.claim(), None);
  assert_eq!(cursor.claim(), None);
  assert!(cursor.is_exhausted());
}

#[test]
fn test_cursor_edges() {
  let mut exact = WorkCursor::new(3, 34, 16);
  assert_eq!(exact.claim(), Some(Segment { low: 3, high: 18 }));
  assert_eq!(exact.claim(), Some(Segment { low: 19, high: 34 }));
  assert_eq!(exact.claim(), None);
  let mut single = WorkCursor::new(7, 7, 16);
  assert_eq!(single.claim(), Some(Segment { low: 7, high: 7 }));
  assert_eq!(single.claim(), None);
  let mut empty = WorkCursor::new(8, 7, 16);
  assert!(empty.is_exhausted());
  assert_eq!(empty.claim(), None);
  let mut top = WorkCursor::new(usize::MAX - 20, usize::MAX, 16);
  assert_eq!(top.claim(), Some(Segment { low: usize::MAX - 20, high: usize::MAX - 5 }));
  assert_eq!(top.claim(), Some(Segment { low: usize::MAX - 4, high: usize::MAX }));
  assert_eq!(top.claim(), None);
}

#[test]
fn test_plan() {
  let plan = SievePlan::new(1_000, 12, 4);
  assert_eq!(plan.seed(), 6);
  assert_eq!(plan.step(), 64);
  assert_eq!(*plan.base_primes(), simple_sieve(31));
  assert_eq!(plan.scratch().len(), 4);
  let mut cursor = plan.cursor();
  assert_eq!(cursor.claim(), Some(Segment { low: 12, high: 75 }));
  let mut scratch = plan.scratch();
  // 37, 41, 43, 47, 53, 59, 61, 67, 71, 73.
  assert_eq!(plan.sieve_segment(&mut scratch, Segment { low: 12, high: 75 }), 10);
}

#[test]
fn test_run_worker_from_any_segment() {
  let plan = SievePlan::new(1_000, 2, 4);
  let mut scratch = plan.scratch();
  let mut cursor = plan.cursor();
  let mut count = plan.seed();
  // Another worker takes the first two segments.
  let mut other = 0;
  for _ in 0..2 {
    let segment = cursor.claim().unwrap();
    other += plan.sieve_segment(&mut scratch, segment) as usize;
  }
  count += other;
  run_worker(&plan, &mut cursor, &mut scratch, &mut count);
  assert_eq!(count, 168);
  assert!(cursor.is_exhausted());
  run_worker(&plan, &mut cursor, &mut scratch, &mut count);
  assert_eq!(count, 168);
}

use primeutils::cpu::{
  cache_capacity, cache_levels, cores_from, get_cache_size, get_cores, l1_data_cache_bytes,
  CacheKind, CacheLevel, DEFAULT_CACHE_BYTES,
};

fn level(kind: CacheKind, level: u8, ways: usize, partitions: usize, line_size: usize, sets: usize) -> CacheLevel {
  CacheLevel { kind, level, ways, partitions, line_size, sets }
}

#[test]
fn test_cores_from() {
  assert_eq!(cores_from(0), 1);
  assert_eq!(cores_from(1), 1);
  assert_eq!(cores_from(12), 12);
}

#[test]
fn test_cache_capacity() {
  assert_eq!(cache_capacity(&level(CacheKind::Data, 1, 8, 1, 64, 64)), 32_768);
  assert_eq!(cache_capacity(&level(CacheKind::Data, 1, 12, 1, 64, 64)), 49_152);
  assert_eq!(cache_capacity(&level(CacheKind::Data, 1, 0, 1, 64, 64)), DEFAULT_CACHE_BYTES);
  assert_eq!(cache_capacity(&level(CacheKind::Data, 1, 8, 1, 64, 0)), DEFAULT_CACHE_BYTES);
  assert_eq!(
    cache_capacity(&level(CacheKind::Data, 1, usize::MAX, 2, 1, 1)),
    DEFAULT_CACHE_BYTES
  );
  assert_eq!(
    cache_capacity(&level(CacheKind::Data, 1, 1 << 20, 1 << 20, 1 << 20, 1 << 20)),
    DEFAULT_CACHE_BYTES
  );
}

#[test]
fn test_l1_data_cache_bytes() {
  assert_eq!(l1_data_cache_bytes(&vec![]), 32_768);
  let caches = vec![
    level(CacheKind::Instruction, 1, 8, 1, 64, 128),
    level(CacheKind::Unified, 1, 4, 1, 64, 32),
    level(CacheKind::Data, 2, 16, 1, 64, 2048),
    level(CacheKind::Data, 1, 12, 1, 64, 64),
    level(CacheKind::Data, 1, 2, 1, 64, 64),
    level(CacheKind::Unified, 3, 16, 1, 64, 16384),
  ];
  assert_eq!(l1_data_cache_bytes(&caches), 49_152);
  let without = vec![
    level(CacheKind::Instruction, 1, 8, 1, 64, 128),
    level(CacheKind::Unified, 2, 16, 1, 64, 2048),
    level(CacheKind::Null, 1, 1, 1, 1, 1),
    level(CacheKind::Reserved, 1, 1, 1, 1, 1),
  ];
  assert_eq!(l1_data_cache_bytes(&without), 32_768);
  let broken = vec![level(CacheKind::Data, 1, 0, 1, 64, 64), level(CacheKind::Data, 1, 8, 1, 64, 64)];
  assert_eq!(l1_data_cache_bytes(&broken), 32_768);
}

#[test]
fn test_machine_answers_are_usable() {
  assert!(get_cores() >= 1);
  assert!(get_cache_size() >= 1);
  assert_eq!(get_cache_size(), l1_data_cache_bytes(&cache_levels()));
}

#[test]
fn test_cache_levels_hold_what_registers_can_give() {
  for cache in cache_levels() {
    assert!(cache.level <= primeutils::cpu::MAX_LEVEL);
    assert!(1 <= cache.ways && cache.ways <= primeutils::cpu::MAX_WAYS);
    assert!(1 <= cache.partitions && cache.partitions <= primeutils::cpu::MAX_PARTITIONS);
    assert!(1 <= cache.line_size && cache.line_size <= primeutils::cpu::MAX_LINE_SIZE);
    assert!(cache.sets <= primeutils::cpu::MAX_SETS);
  }
}

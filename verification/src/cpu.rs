//! What the machine says of itself: how many cores it has and how large its
//! first-level data cache is. Both are only hints for the counter, and both
//! fall back to a fixed value where the machine gives no usable answer.

use vstd::prelude::*;

verus! {

/// The cache size assumed where no first-level data cache can be read.
pub const DEFAULT_CACHE_BYTES: usize = 32768;

/// `raw_cpuid::CacheParameter`: the registers that describe one cache.
#[verifier::external_type_specification]
#[verifier::external_body]
pub struct ExCacheParameter(raw_cpuid::CacheParameter);

/// What a cache holds.
#[derive(Clone, Copy, Debug)]
pub enum CacheKind {
    Null,
    Data,
    Instruction,
    Unified,
    Reserved,
}

/// One cache of the processor, by the numbers that its size is made of.
#[derive(Clone, Copy, Debug)]
pub struct CacheLevel {
    pub kind: CacheKind,
    pub level: u8,
    pub ways: usize,
    pub partitions: usize,
    pub line_size: usize,
    pub sets: usize,
}

/// The highest level that the registers of a cache can give.
pub const MAX_LEVEL: u8 = 7;

/// The most ways of associativity that the registers of a cache can give.
pub const MAX_WAYS: usize = 1024;

/// The most line partitions that the registers of a cache can give.
pub const MAX_PARTITIONS: usize = 1024;

/// The largest line size that the registers of a cache can give.
pub const MAX_LINE_SIZE: usize = 4096;

/// The most sets that the registers of a cache can give.
pub const MAX_SETS: usize = 0xffff_ffff;

/// Whether the numbers of `cache` are such as the registers of a cache can
/// give: each lies within what the bits that it is read from can hold.
pub open spec fn from_registers(cache: CacheLevel) -> bool {
    &&& cache.level <= MAX_LEVEL
    &&& 1 <= cache.ways <= MAX_WAYS
    &&& 1 <= cache.partitions <= MAX_PARTITIONS
    &&& 1 <= cache.line_size <= MAX_LINE_SIZE
    &&& cache.sets <= MAX_SETS
}

/// Whether `caches` is a list such as reading the processor can give: the
/// numbers of every entry are such as the registers of a cache can give.
pub open spec fn read_from_registers(caches: Seq<CacheLevel>) -> bool {
    forall|i: int| 0 <= i < caches.len() ==> from_registers(#[trigger] caches[i])
}

/// `num_cpus::get`: the number of logical cores the system reports. Nothing
/// is claimed of the number.
pub assume_specification[ num_cpus::get ]() -> (cores: usize)
;

/// `raw_cpuid::CacheParameter::level`: the cache's level, which is three
/// bits of a register and so at most 7. Nothing more is claimed of it.
pub assume_specification[ raw_cpuid::CacheParameter::level ](
    cache: &raw_cpuid::CacheParameter,
) -> (level: u8)
    ensures
        level <= MAX_LEVEL,
;

/// `raw_cpuid::CacheParameter::associativity`: the cache's ways of
/// associativity, which is ten bits of a register and one more, and so from
/// 1 to 1024. Nothing more is claimed of it.
pub assume_specification[ raw_cpuid::CacheParameter::associativity ](
    cache: &raw_cpuid::CacheParameter,
) -> (ways: usize)
    ensures
        1 <= ways <= MAX_WAYS,
;

/// `raw_cpuid::CacheParameter::physical_line_partitions`: the cache's
/// physical line partitions, which is ten bits of a register and one more,
/// and so from 1 to 1024. Nothing more is claimed of it.
pub assume_specification[ raw_cpuid::CacheParameter::physical_line_partitions ](
    cache: &raw_cpuid::CacheParameter,
) -> (partitions: usize)
    ensures
        1 <= partitions <= MAX_PARTITIONS,
;

/// `raw_cpuid::CacheParameter::coherency_line_size`: the cache's line size in
/// bytes, which is twelve bits of a register and one more, and so from 1 to
/// 4096. Nothing more is claimed of it.
pub assume_specification[ raw_cpuid::CacheParameter::coherency_line_size ](
    cache: &raw_cpuid::CacheParameter,
) -> (line_size: usize)
    ensures
        1 <= line_size <= MAX_LINE_SIZE,
;

/// `raw_cpuid::CacheParameter::sets`: the cache's number of sets, which is a
/// 32-bit register and one more, computed in 32 bits, and so no more than 32
/// bits hold. That it is not 0 is not claimed: the sum may wrap.
pub assume_specification[ raw_cpuid::CacheParameter::sets ](
    cache: &raw_cpuid::CacheParameter,
) -> (sets: usize)
    ensures
        sets <= MAX_SETS,
;

/// `raw_cpuid::CacheParameter::cache_type`, with each variant of the outside
/// enum handed on as the variant of the same name. Nothing is claimed of
/// which one comes.
#[verifier::external_body]
fn cache_kind(cache: &raw_cpuid::CacheParameter) -> (kind: CacheKind) {
    match cache.cache_type() {
        raw_cpuid::CacheType::Null => CacheKind::Null,
        raw_cpuid::CacheType::Data => CacheKind::Data,
        raw_cpuid::CacheType::Instruction => CacheKind::Instruction,
        raw_cpuid::CacheType::Unified => CacheKind::Unified,
        raw_cpuid::CacheType::Reserved => CacheKind::Reserved,
    }
}

/// `raw_cpuid::CpuId::new` and `CpuId::get_cache_parameters`, with the
/// iterator's items collected: the caches that the processor describes, in
/// its order, or none where it describes none. Nothing is claimed of them.
#[verifier::external_body]
fn cache_parameters() -> (caches: Vec<raw_cpuid::CacheParameter>) {
    match raw_cpuid::CpuId::new().get_cache_parameters() {
        Some(parameters) => parameters.collect(),
        None => Vec::new(),
    }
}

/// The size in bytes that the numbers of `cache` multiply to.
pub open spec fn capacity(cache: CacheLevel) -> int {
    cache.ways * cache.partitions * cache.line_size * cache.sets
}

/// Whether `cache` is a first-level data cache.
pub open spec fn is_l1_data(cache: CacheLevel) -> bool {
    cache.kind is Data && cache.level == 1
}

/// The size to assume on reading `cache` as the first-level data cache: its
/// capacity, or the default where that is zero or too large for the machine.
pub open spec fn usable_capacity(cache: CacheLevel) -> int {
    if 0 < capacity(cache) <= usize::MAX {
        capacity(cache)
    } else {
        DEFAULT_CACHE_BYTES as int
    }
}

/// The cache size that a list of caches gives: that of the first entry that
/// is a first-level data cache, or the default where there is none.
pub open spec fn l1_cache_bytes(caches: Seq<CacheLevel>) -> int
    decreases caches.len(),
{
    if caches.len() == 0 {
        DEFAULT_CACHE_BYTES as int
    } else if is_l1_data(caches.first()) {
        usable_capacity(caches.first())
    } else {
        l1_cache_bytes(caches.drop_first())
    }
}

/// The capacity of `cache` in bytes, or the default where it is zero or does
/// not fit the machine word.
pub fn cache_capacity(cache: &CacheLevel) -> (bytes: usize)
    ensures
        bytes == usable_capacity(*cache),
        bytes > 0,
{
    let ghost a = cache.ways as int;
    let ghost b = cache.partitions as int;
    let ghost c = cache.line_size as int;
    let ghost d = cache.sets as int;
    if cache.ways == 0 || cache.partitions == 0 || cache.line_size == 0 || cache.sets == 0 {
        assert(a * b * c * d == 0) by (nonlinear_arith)
            requires
                a == 0 || b == 0 || c == 0 || d == 0,
        ;
        return DEFAULT_CACHE_BYTES;
    }
    assert(a * b >= 1 && a * b * c >= a * b && a * b * c * d >= a * b * c) by (nonlinear_arith)
        requires
            a >= 1,
            b >= 1,
            c >= 1,
            d >= 1,
    ;
    match cache.ways.checked_mul(cache.partitions) {
        None => DEFAULT_CACHE_BYTES,
        Some(ab) => match ab.checked_mul(cache.line_size) {
            None => DEFAULT_CACHE_BYTES,
            Some(abc) => match abc.checked_mul(cache.sets) {
                None => DEFAULT_CACHE_BYTES,
                Some(abcd) => abcd,
            },
        },
    }
}

/// The size of the first-level data cache among `caches`, in bytes, or the
/// default where there is none to go by.
pub fn l1_data_cache_bytes(caches: &Vec<CacheLevel>) -> (bytes: usize)
    ensures
        bytes == l1_cache_bytes(caches@),
        bytes > 0,
{
    let mut i: usize = 0;
    assert(caches@.skip(0) == caches@);
    while i < caches.len()
        invariant
            i <= caches.len(),
            l1_cache_bytes(caches@) == l1_cache_bytes(caches@.skip(i as int)),
        decreases caches.len() - i,
    {
        let cache = &caches[i];
        assert(caches@.skip(i as int).first() == caches@[i as int]);
        assert(caches@.skip(i as int).drop_first() == caches@.skip(i + 1));
        let is_data = match cache.kind {
            CacheKind::Data => true,
            _ => false,
        };
        if is_data && cache.level == 1 {
            return cache_capacity(cache);
        }
        i += 1;
    }
    DEFAULT_CACHE_BYTES
}

/// The number of cores to work with when the system reports `reported`: that
/// number, or 1 where it reports none.
pub fn cores_from(reported: usize) -> (cores: usize)
    ensures
        cores == if reported > 0 {
            reported
        } else {
            1
        },
{
    if reported > 0 {
        reported
    } else {
        1
    }
}

/// Reads the processor's caches as plain numbers: one entry for each cache
/// that the processor describes, in its order, with the numbers that the
/// cache's registers give.
pub fn cache_levels() -> (caches: Vec<CacheLevel>)
    ensures
        read_from_registers(caches@),
{
    let parameters = cache_parameters();
    let mut caches: Vec<CacheLevel> = Vec::new();
    let mut i: usize = 0;
    while i < parameters.len()
        invariant
            i <= parameters.len(),
            caches.len() == i,
            forall|j: int| 0 <= j < caches.len() ==> from_registers(#[trigger] caches[j]),
        decreases parameters.len() - i,
    {
        let cache = &parameters[i];
        caches.push(
            CacheLevel {
                kind: cache_kind(cache),
                level: cache.level(),
                ways: cache.associativity(),
                partitions: cache.physical_line_partitions(),
                line_size: cache.coherency_line_size(),
                sets: cache.sets(),
            },
        );
        i += 1;
    }
    caches
}

/// The size of the processor's first-level data cache in bytes, or 32768
/// where it cannot be read: what the list of the caches that the processor
/// describes gives as the cache size.
pub fn get_cache_size() -> (bytes: usize)
    ensures
        bytes > 0,
        exists|caches: Seq<CacheLevel>|
            #[trigger] read_from_registers(caches) && bytes == l1_cache_bytes(caches),
{
    let caches = cache_levels();
    l1_data_cache_bytes(&caches)
}

/// The number of cores of the processor, or 1 where it cannot be read.
pub fn get_cores() -> (cores: usize)
    ensures
        cores > 0,
{
    cores_from(num_cpus::get())
}

} // verus!

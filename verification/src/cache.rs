//! The sizes of the caches of the processor that runs the program, as the
//! CPUID instruction describes them. This is about the machine at hand, not
//! about the machine whose topology was read from text.
use crate::topology::MachineTopology;
use vstd::prelude::*;

verus! {

/// What a cache holds.
#[derive(Debug, Clone, Copy, PartialEq, Eq, Structural)]
pub enum CacheKind {
    Null,
    Data,
    Instruction,
    Unified,
    Reserved,
}

/// One cache of the processor: its level, what it holds, and the four
/// numbers whose product is its size in bytes.
#[derive(Debug, Clone, Copy, PartialEq, Eq, Structural)]
pub struct CacheParams {
    pub level: u8,
    pub kind: CacheKind,
    pub associativity: usize,
    pub partitions: usize,
    pub line_size: usize,
    pub sets: usize,
}

/// Trusted: the description of one cache that `raw_cpuid`, which `x86`
/// hands on as `x86::cpuid`, decodes from the registers of CPUID. Nothing is
/// known of what it holds.
#[verifier::external_type_specification]
#[verifier::external_body]
pub struct ExCacheParameter(x86::cpuid::CacheParameter);

/// Trusted: `CpuId::new().get_cache_parameters()`, collected: the caches
/// that the processor reports, or nothing where it has no such report. What
/// comes back depends on the machine, so nothing is claimed of it.
#[verifier::external_body]
fn host_caches() -> Option<Vec<x86::cpuid::CacheParameter>> {
    match x86::cpuid::CpuId::new().get_cache_parameters() {
        Some(caches) => Some(caches.collect()),
        None => None,
    }
}

/// What the registers of CPUID have room for: three bits for the level, ten
/// bits each for the ways of associativity and the line partitions and
/// twelve bits for the line size, each of these three counted from one, and
/// a register of 32 bits for the sets.
pub open spec fn encodable(cache: CacheParams) -> bool {
    &&& cache.level <= 7
    &&& 1 <= cache.associativity <= 1024
    &&& 1 <= cache.partitions <= 1024
    &&& 1 <= cache.line_size <= 4096
    &&& cache.sets <= 0xFFFF_FFFF
}

/// Trusted: the getters `level`, `cache_type`, `associativity`,
/// `physical_line_partitions`, `coherency_line_size` and `sets` of a
/// `CacheParameter`, each handed on as it is. Which values they give depends
/// on the machine; claimed is only the range of each, which follows from the
/// bits that the getter reads: `level` reads three bits, `associativity` and
/// `physical_line_partitions` read ten bits and add one, `coherency_line_size`
/// reads twelve bits and adds one, and `sets` adds one to a `u32` within
/// `u32`.
#[verifier::external_body]
fn describe(cache: &x86::cpuid::CacheParameter) -> (r: CacheParams)
    ensures
        encodable(r),
{
    CacheParams {
        level: cache.level(),
        kind: match cache.cache_type() {
            x86::cpuid::CacheType::Null => CacheKind::Null,
            x86::cpuid::CacheType::Data => CacheKind::Data,
            x86::cpuid::CacheType::Instruction => CacheKind::Instruction,
            x86::cpuid::CacheType::Unified => CacheKind::Unified,
            x86::cpuid::CacheType::Reserved => CacheKind::Reserved,
        },
        associativity: cache.associativity(),
        partitions: cache.physical_line_partitions(),
        line_size: cache.coherency_line_size(),
        sets: cache.sets(),
    }
}

/// The size of a cache in bytes: its ways of associativity times its line
/// partitions times its line size times its sets.
pub open spec fn cache_bytes(cache: CacheParams) -> nat {
    (cache.associativity * cache.partitions * cache.line_size * cache.sets) as nat
}

/// The first of `caches` that is of `level` and holds `kind`.
pub open spec fn first_cache(caches: Seq<CacheParams>, level: u8, kind: CacheKind) -> Option<
    CacheParams,
>
    decreases caches.len(),
{
    if caches.len() == 0 {
        None
    } else if caches[0].level == level && caches[0].kind == kind {
        Some(caches[0])
    } else {
        first_cache(caches.drop_first(), level, kind)
    }
}

/// The size in bytes of the first of `caches` that is of `level` and holds
/// `kind`: nothing where there is no such cache or its size is above
/// `u64::MAX`.
pub open spec fn size_among(caches: Seq<CacheParams>, level: u8, kind: CacheKind) -> Option<u64> {
    match first_cache(caches, level, kind) {
        Some(cache) => if cache_bytes(cache) <= u64::MAX {
            Some(cache_bytes(cache) as u64)
        } else {
            None
        },
        None => None,
    }
}

/// The size of a cache in bytes, where it fits in a `u64`.
pub fn cache_size(cache: &CacheParams) -> (r: Option<u64>)
    ensures
        r == if cache_bytes(*cache) <= u64::MAX {
            Some(cache_bytes(*cache) as u64)
        } else {
            None::<u64>
        },
{
    let ways = cache.associativity as u64;
    let partitions = cache.partitions as u64;
    let line = cache.line_size as u64;
    let sets = cache.sets as u64;
    proof {
        assert(ways * partitions * line * sets == cache_bytes(*cache));
        if ways * partitions > u64::MAX && line > 0 && sets > 0 {
            assert(ways * partitions * line * sets >= ways * partitions) by (nonlinear_arith)
                requires
                    ways * partitions >= 0,
                    line >= 1,
                    sets >= 1,
            ;
        }
        if ways * partitions * line > u64::MAX && sets > 0 {
            assert(ways * partitions * line * sets >= ways * partitions * line) by (nonlinear_arith)
                requires
                    ways * partitions * line >= 0,
                    sets >= 1,
            ;
        }
        if line == 0 || sets == 0 {
            assert(ways * partitions * line * sets == 0) by (nonlinear_arith)
                requires
                    line == 0 || sets == 0,
            ;
        }
    }
    if line == 0 || sets == 0 {
        return Some(0);
    }
    match ways.checked_mul(partitions) {
        Some(a) => match a.checked_mul(line) {
            Some(b) => b.checked_mul(sets),
            None => None,
        },
        None => None,
    }
}

/// The size in bytes of the first of `caches` that is of `level` and holds
/// `kind`.
pub fn size_of_cache(caches: &Vec<CacheParams>, level: u8, kind: CacheKind) -> (r: Option<u64>)
    ensures
        r == size_among(caches@, level, kind),
{
    let mut i: usize = 0;
    assert(caches@.skip(0) =~= caches@);
    while i < caches.len()
        invariant
            0 <= i <= caches.len(),
            first_cache(caches@, level, kind) == first_cache(caches@.skip(i as int), level, kind),
        decreases caches.len() - i,
    {
        let cache = &caches[i];
        proof {
            assert(caches@.skip(i as int)[0] == *cache);
            assert(caches@.skip(i as int).drop_first() =~= caches@.skip(i + 1));
        }
        if cache.level == level && cache.kind == kind {
            return cache_size(cache);
        }
        i = i + 1;
    }
    None
}

/// A report such as CPUID can give: every cache in it is within what the
/// registers have room for.
pub open spec fn is_report(caches: Seq<CacheParams>) -> bool {
    forall|i: int| 0 <= i < caches.len() ==> encodable(#[trigger] caches[i])
}

/// `size` is what some report that CPUID can give tells of the cache of
/// `level` that holds `kind`: the size in bytes of the first such cache in
/// the report, and nothing where the report has none.
pub open spec fn reported_size(size: Option<u64>, level: u8, kind: CacheKind) -> bool {
    exists|caches: Seq<CacheParams>| is_report(caches) && size == #[trigger] size_among(caches, level, kind)
}

/// The cache that `first_cache` finds is one of the list, of the level and
/// the kind that were asked for.
pub proof fn lemma_first_cache(caches: Seq<CacheParams>, level: u8, kind: CacheKind)
    ensures
        first_cache(caches, level, kind) matches Some(cache) ==> caches.contains(cache)
            && cache.level == level && cache.kind == kind,
    decreases caches.len(),
{
    if caches.len() > 0 {
        if caches[0].level == level && caches[0].kind == kind {
            assert(caches.contains(caches[0]));
        } else {
            let rest = caches.drop_first();
            lemma_first_cache(rest, level, kind);
            if let Some(cache) = first_cache(rest, level, kind) {
                let i = choose|i: int| 0 <= i < rest.len() && rest[i] == cache;
                assert(caches[i + 1] == cache);
            }
        }
    }
}

/// The size of a cache that is within what the registers have room for fits
/// in a `u64`.
pub proof fn lemma_encodable_fits(cache: CacheParams)
    requires
        encodable(cache),
    ensures
        cache_bytes(cache) <= 1024 * 1024 * 4096 * 0xFFFF_FFFF,
        cache_bytes(cache) <= u64::MAX,
{
    let a = cache.associativity as int;
    let b = cache.partitions as int;
    let c = cache.line_size as int;
    let d = cache.sets as int;
    assert(a * b <= 1024 * 1024) by (nonlinear_arith)
        requires
            0 <= a <= 1024,
            0 <= b <= 1024,
    ;
    assert(a * b * c <= 1024 * 1024 * 4096) by (nonlinear_arith)
        requires
            0 <= a * b <= 1024 * 1024,
            0 <= c <= 4096,
    ;
    assert(a * b * c * d <= 1024 * 1024 * 4096 * 0xFFFF_FFFF) by (nonlinear_arith)
        requires
            0 <= a * b * c <= 1024 * 1024 * 4096,
            0 <= d <= 0xFFFF_FFFF,
    ;
}

/// What is told of a cache is nothing, or the size of a cache of the level
/// and the kind that were asked for: the product of four numbers that the
/// registers have room for.
pub proof fn lemma_reported_size(size: Option<u64>, level: u8, kind: CacheKind)
    requires
        reported_size(size, level, kind),
    ensures
        size matches Some(bytes) ==> exists|cache: CacheParams|
            encodable(cache) && cache.level == level && cache.kind == kind && bytes
                == #[trigger] cache_bytes(cache) && bytes <= 1024 * 1024 * 4096 * 0xFFFF_FFFF,
{
    let caches = choose|caches: Seq<CacheParams>|
        is_report(caches) && size == #[trigger] size_among(caches, level, kind);
    lemma_first_cache(caches, level, kind);
    if let Some(cache) = first_cache(caches, level, kind) {
        let i = choose|i: int| 0 <= i < caches.len() && caches[i] == cache;
        assert(encodable(caches[i]));
        lemma_encodable_fits(cache);
    }
}

/// The size in bytes of the cache of `level` that holds `kind` in the
/// processor that runs the program: what the report of the processor tells
/// of it, and nothing where the processor gives no report.
fn host_cache_size(level: u8, kind: CacheKind) -> (r: Option<u64>)
    ensures
        reported_size(r, level, kind),
{
    match host_caches() {
        Some(found) => {
            let mut caches: Vec<CacheParams> = Vec::new();
            let mut i: usize = 0;
            while i < found.len()
                invariant
                    0 <= i <= found.len(),
                    is_report(caches@),
                decreases found.len() - i,
            {
                caches.push(describe(&found[i]));
                i = i + 1;
            }
            let size = size_of_cache(&caches, level, kind);
            assert(is_report(caches@) && size == size_among(caches@, level, kind));
            size
        },
        None => {
            let ghost nothing = Seq::<CacheParams>::empty();
            assert(is_report(nothing) && size_among(nothing, level, kind) is None);
            None
        },
    }
}

impl MachineTopology {
    /// The size in bytes of the level-1 data cache of the processor that
    /// runs the program: what the report of the processor tells of the
    /// first cache of level 1 that holds data.
    pub fn l1_size(&self) -> (r: Option<u64>)
        ensures
            reported_size(r, 1, CacheKind::Data),
    {
        host_cache_size(1, CacheKind::Data)
    }

    /// The size in bytes of the level-2 cache of the processor that runs the
    /// program: what the report of the processor tells of the first cache of
    /// level 2 that holds data and instructions.
    pub fn l2_size(&self) -> (r: Option<u64>)
        ensures
            reported_size(r, 2, CacheKind::Unified),
    {
        host_cache_size(2, CacheKind::Unified)
    }

    /// The size in bytes of the level-3 cache of the processor that runs the
    /// program: what the report of the processor tells of the first cache of
    /// level 3 that holds data and instructions.
    pub fn l3_size(&self) -> (r: Option<u64>)
        ensures
            reported_size(r, 3, CacheKind::Unified),
    {
        host_cache_size(3, CacheKind::Unified)
    }
}

} // verus!

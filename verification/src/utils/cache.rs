//! Cache sizes from the deterministic cache parameters leaf (leaf 4) of
//! `cpuid`: each sub-leaf describes one cache, until one reports the null
//! cache type.

use vstd::prelude::*;

verus! {

/// The registers `(eax, ebx, ecx)` of one sub-leaf of `cpuid` leaf 4.
pub type CacheLeaf = (u32, u32, u32);

/// The cache type field (bits 0 to 4 of `eax`): 0 for no more caches, 1 for
/// data, 2 for instruction, 3 for unified.
pub open spec fn cache_type(leaf: CacheLeaf) -> u32 {
    leaf.0 & 0x1f
}

/// The cache level field (bits 5 to 7 of `eax`).
pub open spec fn cache_level(leaf: CacheLeaf) -> u32 {
    (leaf.0 >> 5u32) & 0x7
}

/// The size of the cache in bytes: ways times partitions times line size
/// times sets, each field of `ebx` and `ecx` stored as one less than its
/// value.
pub open spec fn cache_bytes(leaf: CacheLeaf) -> int {
    let ways = ((leaf.1 >> 22u32) & 0x3ff) + 1;
    let partitions = ((leaf.1 >> 12u32) & 0x3ff) + 1;
    let line_size = (leaf.1 & 0xfff) + 1;
    let sets = leaf.2 + 1;
    ways * partitions * line_size * sets
}

/// The size of the cache in KiB, rounded down.
pub open spec fn cache_kb(leaf: CacheLeaf) -> usize {
    (cache_bytes(leaf) / 1024) as usize
}

/// The sizes `(l1, l2, l3)` after one more leaf: a level-1 data cache sets
/// `l1`, a level-2 or level-3 unified cache sets `l2` or `l3`, any other
/// cache leaves them as they are.
pub open spec fn record_leaf(sizes: (usize, usize, usize), leaf: CacheLeaf) -> (usize, usize, usize) {
    let kb = cache_kb(leaf);
    if cache_level(leaf) == 1 && cache_type(leaf) == 1 {
        (kb, sizes.1, sizes.2)
    } else if cache_level(leaf) == 2 && cache_type(leaf) == 3 {
        (sizes.0, kb, sizes.2)
    } else if cache_level(leaf) == 3 && cache_type(leaf) == 3 {
        (sizes.0, sizes.1, kb)
    } else {
        sizes
    }
}

/// The sizes recorded from `sizes` on over the leaves in order, up to the
/// first leaf that reports no cache.
pub open spec fn sizes_from(leaves: Seq<CacheLeaf>, sizes: (usize, usize, usize)) -> (
    usize,
    usize,
    usize,
)
    decreases leaves.len(),
{
    if leaves.len() == 0 || cache_type(leaves[0]) == 0 {
        sizes
    } else {
        sizes_from(leaves.drop_first(), record_leaf(sizes, leaves[0]))
    }
}

/// The cache sizes `(l1, l2, l3)` in KiB that a sequence of leaves reports.
pub open spec fn cache_sizes(leaves: Seq<CacheLeaf>) -> (usize, usize, usize) {
    sizes_from(leaves, (0, 0, 0))
}

/// Sub-leaf `sub_leaf` of `cpuid` leaf 4, as `(eax, ebx, ecx)`. What the
/// processor reports is not stated: it depends on the machine.
#[verifier::external_body]
fn cpuid_cache_leaf(sub_leaf: u32) -> CacheLeaf {
    let res = std::arch::x86_64::__cpuid_count(4, sub_leaf);
    (res.eax, res.ebx, res.ecx)
}

/// The size in KiB of the cache that a leaf describes.
pub fn leaf_kb(leaf: CacheLeaf) -> (kb: usize)
    ensures
        kb == cache_kb(leaf),
{
    let ebx = leaf.1;
    let ecx = leaf.2;
    let ways = (ebx >> 22u32) & 0x3ff;
    let partitions = (ebx >> 12u32) & 0x3ff;
    let line_size = ebx & 0xfff;
    assert(ways <= 0x3ff && partitions <= 0x3ff && line_size <= 0xfff) by (bit_vector)
        requires
            ways == (ebx >> 22u32) & 0x3ff,
            partitions == (ebx >> 12u32) & 0x3ff,
            line_size == ebx & 0xfff,
    ;
    let w = ways as u128 + 1;
    let p = partitions as u128 + 1;
    let l = line_size as u128 + 1;
    let s = ecx as u128 + 1;
    proof {
        vstd::arithmetic::mul::lemma_mul_upper_bound(w as int, 0x400, p as int, 0x400);
        vstd::arithmetic::mul::lemma_mul_upper_bound(
            (w * p) as int,
            0x10_0000,
            l as int,
            0x1000,
        );
        vstd::arithmetic::mul::lemma_mul_upper_bound(
            (w * p * l) as int,
            0x1_0000_0000,
            s as int,
            0x1_0000_0000,
        );
    }
    let bytes = w * p * l * s;
    (bytes / 1024) as usize
}

/// The sizes after recording one more leaf.
pub fn record(sizes: (usize, usize, usize), leaf: CacheLeaf) -> (r: (usize, usize, usize))
    ensures
        r == record_leaf(sizes, leaf),
{
    let kind = leaf.0 & 0x1f;
    let level = (leaf.0 >> 5u32) & 0x7;
    let kb = leaf_kb(leaf);
    if level == 1 && kind == 1 {
        (kb, sizes.1, sizes.2)
    } else if level == 2 && kind == 3 {
        (sizes.0, kb, sizes.2)
    } else if level == 3 && kind == 3 {
        (sizes.0, sizes.1, kb)
    } else {
        sizes
    }
}

/// The cache sizes `(l1, l2, l3)` in KiB that the leaves report, read in
/// order up to the first leaf that reports no cache; a level that no leaf
/// describes stays 0.
pub fn sizes_of_leaves(leaves: &[CacheLeaf]) -> (r: (usize, usize, usize))
    ensures
        r == cache_sizes(leaves@),
{
    let mut sizes: (usize, usize, usize) = (0, 0, 0);
    let mut i: usize = 0;
    assert(leaves@.skip(0) =~= leaves@);
    while i < leaves.len()
        invariant
            i <= leaves@.len(),
            sizes_from(leaves@.skip(i as int), sizes) == cache_sizes(leaves@),
        decreases leaves@.len() - i,
    {
        let leaf = leaves[i];
        assert(leaves@.skip(i as int)[0] == leaf);
        if leaf.0 & 0x1f == 0 {
            return sizes;
        }
        assert(leaves@.skip(i as int).drop_first() =~= leaves@.skip(i + 1));
        sizes = record(sizes, leaf);
        i += 1;
    }
    assert(leaves@.skip(i as int).len() == 0);
    sizes
}

/// The number of sub-leaves that a scan can read: indices 0 to `u32::MAX`.
pub open spec fn sub_leaf_count() -> int {
    0x1_0000_0000
}

/// `leaves` is what reading sub-leaves 0, 1, 2, ... through `read` gave, in
/// order, up to and including the first one that reports no cache (or up to
/// the last sub-leaf index, whichever comes first).
pub open spec fn is_leaf_scan<R: Fn(u32) -> CacheLeaf>(read: R, leaves: Seq<CacheLeaf>) -> bool {
    &&& 0 < leaves.len() <= sub_leaf_count()
    &&& forall|k: int| 0 <= k < leaves.len() ==> call_ensures(read, (k as u32,), #[trigger] leaves[k])
    &&& forall|k: int| 0 <= k < leaves.len() - 1 ==> cache_type(#[trigger] leaves[k]) != 0
    &&& cache_type(leaves.last()) == 0 || leaves.len() == sub_leaf_count()
}

/// The cache sizes `(l1, l2, l3)` in KiB that `read` reports, reading
/// sub-leaves 0, 1, 2, ... in order until one reports no cache: the result is
/// what `cache_sizes` gives for the leaves read.
pub fn sizes_from_reader<R: Fn(u32) -> CacheLeaf>(read: R) -> (r: (usize, usize, usize))
    requires
        forall|k: u32| call_requires(read, (k,)),
    ensures
        exists|leaves: Seq<CacheLeaf>| is_leaf_scan(read, leaves) && r == cache_sizes(leaves),
{
    let mut sizes: (usize, usize, usize) = (0, 0, 0);
    let ghost mut seen: Seq<CacheLeaf> = Seq::empty();
    let mut i: u32 = 0;
    loop
        invariant
            seen.len() == i,
            forall|k: u32| call_requires(read, (k,)),
            forall|k: int| 0 <= k < seen.len() ==> call_ensures(read, (k as u32,), #[trigger] seen[k]),
            forall|k: int| 0 <= k < seen.len() ==> cache_type(#[trigger] seen[k]) != 0,
            sizes == cache_sizes(seen),
        decreases u32::MAX - i,
    {
        let leaf = read(i);
        if leaf.0 & 0x1f == 0 {
            proof {
                lemma_sizes_from_push_end(seen, leaf, (0, 0, 0));
                let leaves = seen.push(leaf);
                assert(leaves[i as int] == leaf);
                assert(call_ensures(read, (i,), leaf));
                assert forall|k: int| 0 <= k < leaves.len() implies call_ensures(
                    read,
                    (k as u32,),
                    #[trigger] leaves[k],
                ) by {
                    if k < i {
                        assert(leaves[k] == seen[k]);
                    }
                }
                assert(forall|k: int| 0 <= k < leaves.len() - 1 ==> #[trigger] leaves[k] == seen[k]);
                assert(is_leaf_scan(read, leaves));
                assert(sizes == cache_sizes(leaves));
            }
            return sizes;
        }
        proof {
            lemma_sizes_extend(seen, leaf);
        }
        sizes = record(sizes, leaf);
        proof {
            seen = seen.push(leaf);
        }
        if i == u32::MAX {
            assert(is_leaf_scan(read, seen));
            return sizes;
        }
        i += 1;
    }
}

/// `leaves` is what reading `cpuid` leaf 4 sub-leaf by sub-leaf gave: each
/// leaf is an answer that `cpuid_cache_leaf` can give for its index, up to
/// and including the first that reports no cache.
pub closed spec fn is_cpuid_leaf_scan(leaves: Seq<CacheLeaf>) -> bool {
    is_leaf_scan(cpuid_cache_leaf, leaves)
}

/// Returns the cache sizes `(l1, l2, l3)` in KiB of the current processor,
/// read from `cpuid` leaf 4 sub-leaf by sub-leaf, from sub-leaf 0 on, until
/// one reports no cache: the size of the level-1 data cache and of the
/// level-2 and level-3 unified caches, 0 for a level that the processor does
/// not report.
pub fn get_cache_size() -> (r: (usize, usize, usize))
    ensures
        exists|leaves: Seq<CacheLeaf>| is_cpuid_leaf_scan(leaves) && r == cache_sizes(leaves),
{
    sizes_from_reader(cpuid_cache_leaf)
}

/// A leaf that reports no cache ends the fold: adding it after a run of
/// leaves that all describe caches changes nothing.
proof fn lemma_sizes_from_push_end(seen: Seq<CacheLeaf>, leaf: CacheLeaf, sizes: (usize, usize, usize))
    requires
        forall|k: int| 0 <= k < seen.len() ==> cache_type(#[trigger] seen[k]) != 0,
        cache_type(leaf) == 0,
    ensures
        sizes_from(seen.push(leaf), sizes) == sizes_from(seen, sizes),
    decreases seen.len(),
{
    let longer = seen.push(leaf);
    if seen.len() == 0 {
        assert(longer[0] == leaf);
    } else {
        assert(longer[0] == seen[0]);
        assert(longer.drop_first() =~= seen.drop_first().push(leaf));
        assert forall|k: int| 0 <= k < seen.drop_first().len() implies cache_type(
            #[trigger] seen.drop_first()[k],
        ) != 0 by {
            assert(seen.drop_first()[k] == seen[k + 1]);
        }
        lemma_sizes_from_push_end(seen.drop_first(), leaf, record_leaf(sizes, seen[0]));
    }
}

/// Reading one more leaf that describes a cache records it.
pub proof fn lemma_sizes_extend(seen: Seq<CacheLeaf>, leaf: CacheLeaf)
    requires
        forall|k: int| 0 <= k < seen.len() ==> cache_type(#[trigger] seen[k]) != 0,
        cache_type(leaf) != 0,
    ensures
        cache_sizes(seen.push(leaf)) == record_leaf(cache_sizes(seen), leaf),
{
    lemma_sizes_from_push(seen, leaf, (0, 0, 0));
}

/// Folding over a run of leaves that all describe caches, then one more.
proof fn lemma_sizes_from_push(seen: Seq<CacheLeaf>, leaf: CacheLeaf, sizes: (usize, usize, usize))
    requires
        forall|k: int| 0 <= k < seen.len() ==> cache_type(#[trigger] seen[k]) != 0,
        cache_type(leaf) != 0,
    ensures
        sizes_from(seen.push(leaf), sizes) == record_leaf(sizes_from(seen, sizes), leaf),
    decreases seen.len(),
{
    let longer = seen.push(leaf);
    assert(longer[0] == if seen.len() == 0 {
        leaf
    } else {
        seen[0]
    });
    if seen.len() == 0 {
        assert(longer.drop_first() =~= Seq::<CacheLeaf>::empty());
        assert(sizes_from(longer.drop_first(), record_leaf(sizes, leaf)) == record_leaf(sizes, leaf));
    } else {
        assert(longer.drop_first() =~= seen.drop_first().push(leaf));
        assert forall|k: int| 0 <= k < seen.drop_first().len() implies cache_type(
            #[trigger] seen.drop_first()[k],
        ) != 0 by {
            assert(seen.drop_first()[k] == seen[k + 1]);
        }
        lemma_sizes_from_push(seen.drop_first(), leaf, record_leaf(sizes, seen[0]));
    }
}

/// The fields of a leaf decode to what was encoded in them: the cache type
/// in bits 0 to 4 of `eax` and the level in bits 5 to 7, whatever the higher
/// bits of `eax` hold; ways, partitions and line size (each less one) in
/// bits 22 to 31, 12 to 21 and 0 to 11 of `ebx`; sets (less one) in `ecx`.
/// The size is the product of the four counts.
pub proof fn lemma_leaf_fields_decode(
    kind: u32,
    level: u32,
    high: u32,
    ways: u32,
    partitions: u32,
    line_size: u32,
    sets: u32,
)
    requires
        kind < 32,
        level < 8,
        high < 0x100_0000,
        1 <= ways <= 1024,
        1 <= partitions <= 1024,
        1 <= line_size <= 4096,
        1 <= sets,
    ensures
        ({
            let eax = kind | (level << 5u32) | (high << 8u32);
            let ebx = (((ways - 1) as u32) << 22u32) | (((partitions - 1) as u32) << 12u32) | ((
            line_size - 1) as u32);
            let leaf = (eax, ebx, (sets - 1) as u32);
            &&& cache_type(leaf) == kind
            &&& cache_level(leaf) == level
            &&& cache_bytes(leaf) == ways * partitions * line_size * sets
        }),
{
    let eax = kind | (level << 5u32) | (high << 8u32);
    let w = (ways - 1) as u32;
    let p = (partitions - 1) as u32;
    let l = (line_size - 1) as u32;
    let ebx = (w << 22u32) | (p << 12u32) | l;
    assert(eax & 0x1f == kind && (eax >> 5u32) & 0x7 == level) by (bit_vector)
        requires
            kind < 32,
            level < 8,
            high < 0x100_0000,
            eax == kind | (level << 5u32) | (high << 8u32),
    ;
    assert((ebx >> 22u32) & 0x3ff == w && (ebx >> 12u32) & 0x3ff == p && ebx & 0xfff == l)
        by (bit_vector)
        requires
            w < 1024,
            p < 1024,
            l < 4096,
            ebx == (w << 22u32) | (p << 12u32) | l,
    ;
}

/// Only bits 0 to 7 of `eax` (type and level) decide how a leaf is
/// recorded: the higher bits (sharing, core counts and the like) change
/// nothing.
pub proof fn lemma_record_ignores_high_eax_bits(sizes: (usize, usize, usize), eax: u32, ebx: u32, ecx: u32)
    ensures
        record_leaf(sizes, (eax, ebx, ecx)) == record_leaf(sizes, (eax & 0xff, ebx, ecx)),
        cache_level((eax, ebx, ecx)) < 8,
        cache_type((eax, ebx, ecx)) < 32,
{
    assert((eax & 0xff) & 0x1f == eax & 0x1f && ((eax & 0xff) >> 5u32) & 0x7 == (eax >> 5u32) & 0x7
        && (eax >> 5u32) & 0x7 < 8 && eax & 0x1f < 32) by (bit_vector);
}

/// How one leaf is recorded, from its registers: a level-1 data cache (type
/// 1) replaces the first size, a level-2 or level-3 unified cache (type 3)
/// the second or third, by its size in KiB (ways times partitions times line
/// size times sets, over 1024, rounded down); any other leaf changes nothing.
pub proof fn lemma_record_leaf_from_registers(
    sizes: (usize, usize, usize),
    eax: u32,
    ebx: u32,
    ecx: u32,
)
    ensures
        ({
            let kind = eax & 0x1f;
            let level = (eax >> 5u32) & 0x7;
            let bytes = (((ebx >> 22u32) & 0x3ff) + 1) * (((ebx >> 12u32) & 0x3ff) + 1) * ((ebx
                & 0xfff) + 1) * (ecx + 1);
            let kb = (bytes / 1024) as usize;
            record_leaf(sizes, (eax, ebx, ecx)) == if level == 1 && kind == 1 {
                (kb, sizes.1, sizes.2)
            } else if level == 2 && kind == 3 {
                (sizes.0, kb, sizes.2)
            } else if level == 3 && kind == 3 {
                (sizes.0, sizes.1, kb)
            } else {
                sizes
            }
        }),
{
}

/// Nothing about the caches is known before the first leaf, and the first
/// leaf that reports no cache ends the scan: whatever follows it is ignored.
pub proof fn lemma_scan_stops_at_empty_leaf(
    seen: Seq<CacheLeaf>,
    empty: CacheLeaf,
    rest: Seq<CacheLeaf>,
)
    requires
        forall|k: int| 0 <= k < seen.len() ==> cache_type(#[trigger] seen[k]) != 0,
        empty.0 & 0x1f == 0,
    ensures
        cache_sizes(Seq::empty()) == (0usize, 0usize, 0usize),
        cache_sizes(seen.push(empty) + rest) == cache_sizes(seen),
{
    lemma_skip_after_empty(seen, empty, rest, (0, 0, 0));
}

/// The fold over a run of cache leaves, an empty leaf and anything after it
/// is the fold over the run alone.
proof fn lemma_skip_after_empty(
    seen: Seq<CacheLeaf>,
    empty: CacheLeaf,
    rest: Seq<CacheLeaf>,
    sizes: (usize, usize, usize),
)
    requires
        forall|k: int| 0 <= k < seen.len() ==> cache_type(#[trigger] seen[k]) != 0,
        empty.0 & 0x1f == 0,
    ensures
        sizes_from(seen.push(empty) + rest, sizes) == sizes_from(seen, sizes),
    decreases seen.len(),
{
    let all = seen.push(empty) + rest;
    if seen.len() == 0 {
        assert(all[0] == empty);
    } else {
        assert(all[0] == seen[0]);
        assert(all.drop_first() =~= seen.drop_first().push(empty) + rest);
        assert forall|k: int| 0 <= k < seen.drop_first().len() implies cache_type(
            #[trigger] seen.drop_first()[k],
        ) != 0 by {
            assert(seen.drop_first()[k] == seen[k + 1]);
        }
        lemma_skip_after_empty(seen.drop_first(), empty, rest, record_leaf(sizes, seen[0]));
    }
}

} // verus!

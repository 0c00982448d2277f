//! Address-ordered free-list allocator: variable-size free regions kept
//! sorted by start address, allocated first-fit with splitting of oversized
//! regions, and coalesced with both neighbours on every insertion.
//!
//! A bare-metal build keeps the list as headers written into the free
//! memory itself; here each header is a `Region` descriptor, and the
//! in-place constraints survive as the well-formedness of the descriptor
//! list: every region can host a header (size and alignment), the list is
//! address-sorted, and no two regions touch end-to-start.
use vstd::prelude::*;

use crate::allocator::align_up;
use crate::allocator::is_pow2;
use crate::allocator::lemma_aligned_to_divisor;
use crate::allocator::lemma_align_up_bounds;
use crate::allocator::lemma_pow2_positive;
use crate::allocator::spec_align_up;

verus! {

/// Bytes a free region must have so that an in-place header
/// `{size, next}` of two 8-byte words fits into it.
pub const NODE_SIZE: usize = 16;

/// Alignment an in-place header needs.
pub const NODE_ALIGN: usize = 8;

/// Why a request cannot be served from a region or from the list.
#[derive(Clone, Copy, Debug, PartialEq, Eq, Structural)]
pub enum AllocError {
    /// No region in the whole list fits the request.
    OOM,
    /// The region at hand is too small, or would leave a tail too small to
    /// host a header; the search continues past it.
    TooSmall,
    /// Computing the allocation's end address would overflow; treated as a
    /// non-match.
    Overflow,
}

/// A free region of the heap: `size` bytes starting at address `start`.
#[derive(Clone, Copy, Debug, PartialEq, Eq, Structural)]
pub struct Region {
    pub start: usize,
    pub size: usize,
}

/// One-past-the-end address of a region.
pub open spec fn region_end(r: Region) -> int {
    r.start + r.size
}

/// A region that could host an in-place header: large enough, aligned,
/// and lying below the address-space ceiling.
pub open spec fn region_valid(r: Region) -> bool {
    &&& r.size >= NODE_SIZE
    &&& r.start as int % NODE_ALIGN as int == 0
    &&& region_end(r) <= usize::MAX
}

impl Region {
    /// Descriptor for the `size` bytes starting at `start`.
    pub fn new(start: usize, size: usize) -> (r: Region)
        ensures
            r.start == start,
            r.size == size,
    {
        Region { start, size }
    }

    /// Start address of the region.
    pub fn start_addr(&self) -> (r: usize)
        ensures
            r == self.start,
    {
        self.start
    }

    /// One-past-the-end address of the region.
    pub fn end_addr(&self) -> (r: usize)
        requires
            region_end(*self) <= usize::MAX,
        ensures
            r == region_end(*self),
    {
        self.start + self.size
    }
}

/// Address `x` lies in one of the regions.
pub open spec fn covers(rs: Seq<Region>, x: int) -> bool {
    exists|i: int| 0 <= i < rs.len() && (#[trigger] rs[i]).start <= x < region_end(rs[i])
}

/// No byte of `[addr, addr + size)` lies in any region.
pub open spec fn range_uncovered(rs: Seq<Region>, addr: int, size: int) -> bool {
    forall|x: int| addr <= x < addr + size ==> !covers(rs, x)
}

/// The free-list invariant: every region can host a header, and the list
/// is sorted by address with no two regions touching end-to-start.
pub open spec fn wf_regions(rs: Seq<Region>) -> bool {
    &&& forall|i: int| 0 <= i < rs.len() ==> region_valid(#[trigger] rs[i])
    &&& forall|i: int| 0 < i < rs.len() ==> region_end(rs[i - 1]) < (#[trigger] rs[i]).start
}

/// Where a region starting at `addr` belongs in the sorted list: the count
/// of regions that start at or before it.
pub open spec fn insertion_index(rs: Seq<Region>, addr: int) -> int
    decreases rs.len(),
{
    if rs.len() == 0 {
        0
    } else if rs[0].start > addr {
        0
    } else {
        1 + insertion_index(rs.subrange(1, rs.len() as int), addr)
    }
}

/// What one insertion with coalescing does to the sorted list: merge into
/// the predecessor whose end touches `addr`, absorb the successor whose
/// start touches the merged end, extend the successor that begins at
/// `addr + size` downward, or stand alone between the neighbours.
pub open spec fn spec_insert(rs: Seq<Region>, addr: usize, size: usize) -> Seq<Region> {
    let i = insertion_index(rs, addr as int);
    if i > 0 && region_end(rs[i - 1]) == addr {
        let merged = Region { start: rs[i - 1].start, size: (rs[i - 1].size + size) as usize };
        if i < rs.len() && rs[i].start == region_end(merged) {
            rs.update(
                i - 1,
                Region { start: merged.start, size: (merged.size + rs[i].size) as usize },
            ).remove(i)
        } else {
            rs.update(i - 1, merged)
        }
    } else if i < rs.len() && rs[i].start == addr + size {
        rs.update(i, Region { start: addr, size: (size + rs[i].size) as usize })
    } else {
        rs.insert(i, Region { start: addr, size })
    }
}

/// The insertion index is pinned by what it sees to its left and right.
proof fn lemma_insertion_index_unique(rs: Seq<Region>, addr: int, i: int)
    requires
        0 <= i <= rs.len(),
        forall|j: int| 0 <= j < i ==> (#[trigger] rs[j]).start <= addr,
        i < rs.len() ==> rs[i].start > addr,
    ensures
        insertion_index(rs, addr) == i,
    decreases rs.len(),
{
    if rs.len() == 0 {
    } else if rs[0].start > addr {
        assert(i == 0);
    } else {
        assert(rs[0].start <= addr);
        assert(i >= 1);
        let tail = rs.subrange(1, rs.len() as int);
        assert(forall|j: int| 0 <= j < i - 1 ==> (#[trigger] tail[j]).start <= addr);
        assert(i - 1 < tail.len() ==> tail[i - 1].start > addr);
        lemma_insertion_index_unique(tail, addr, i - 1);
    }
}

/// Bounds of the insertion index itself.
proof fn lemma_insertion_index_bounds(rs: Seq<Region>, addr: int)
    ensures
        0 <= insertion_index(rs, addr) <= rs.len(),
        forall|j: int| 0 <= j < insertion_index(rs, addr) ==> (#[trigger] rs[j]).start <= addr,
        insertion_index(rs, addr) < rs.len() ==> rs[insertion_index(rs, addr)].start > addr,
    decreases rs.len(),
{
    if rs.len() == 0 {
    } else if rs[0].start > addr {
    } else {
        let tail = rs.subrange(1, rs.len() as int);
        lemma_insertion_index_bounds(tail, addr);
        assert(forall|j: int| 0 < j < insertion_index(rs, addr) ==> (#[trigger] rs[j]).start
            == tail[j - 1].start);
    }
}

/// In a sorted list, regions left of a sorted pair stay left: any earlier
/// region ends strictly before any later region starts.
proof fn lemma_wf_ordered(rs: Seq<Region>, j: int, k: int)
    requires
        wf_regions(rs),
        0 <= j < k < rs.len(),
    ensures
        region_end(rs[j]) < rs[k].start,
    decreases k - j,
{
    if k == j + 1 {
    } else {
        lemma_wf_ordered(rs, j, k - 1);
        assert(region_end(rs[k - 1]) < rs[k].start);
        assert(rs[k - 1].start <= region_end(rs[k - 1]));
    }
}

/// A well-formed list covers an address through at most one region; in
/// particular an address inside region `i` is not covered once `i` is
/// removed.
proof fn lemma_wf_unique_cover(rs: Seq<Region>, i: int, x: int)
    requires
        wf_regions(rs),
        0 <= i < rs.len(),
        rs[i].start <= x < region_end(rs[i]),
    ensures
        !covers(rs.remove(i), x),
{
    let rem = rs.remove(i);
    assert forall|k: int| 0 <= k < rem.len() implies !((#[trigger] rem[k]).start <= x
        < region_end(rem[k])) by {
        if k < i {
            assert(rem[k] == rs[k]);
            lemma_wf_ordered(rs, k, i);
        } else {
            assert(rem[k] == rs[k + 1]);
            lemma_wf_ordered(rs, i, k + 1);
        }
    }
}

/// What the neighbours of the insertion point look like when the inserted
/// range is disjoint from every region: the left neighbours end at or
/// before `addr`, the right ones start at or after `addr + size`.
proof fn lemma_insertion_neighbours(rs: Seq<Region>, addr: int, size: int)
    requires
        wf_regions(rs),
        size > 0,
        range_uncovered(rs, addr, size),
    ensures
        forall|j: int| 0 <= j < insertion_index(rs, addr) ==> region_end(#[trigger] rs[j]) <= addr,
        insertion_index(rs, addr) < rs.len() ==> addr + size <= rs[insertion_index(rs, addr)].start,
    decreases rs.len(),
{
    let i = insertion_index(rs, addr);
    lemma_insertion_index_bounds(rs, addr);
    assert forall|j: int| 0 <= j < i implies region_end(#[trigger] rs[j]) <= addr by {
        if region_end(rs[j]) > addr {
            // `addr` itself would be covered by region `j`.
            assert(rs[j].start <= addr < region_end(rs[j]));
            assert(covers(rs, addr));
        }
    }
    if i < rs.len() {
        if rs[i].start < addr + size {
            // The start of region `i` would be covered by the new range.
            assert(rs[i].start <= rs[i].start < region_end(rs[i]));
            assert(covers(rs, rs[i].start as int));
        }
    }
}

/// Inserting a valid disjoint range keeps the list well-formed.
#[verifier::rlimit(100)]
pub proof fn lemma_spec_insert_wf(rs: Seq<Region>, addr: usize, size: usize)
    requires
        wf_regions(rs),
        size >= NODE_SIZE,
        addr as int % NODE_ALIGN as int == 0,
        addr + size <= usize::MAX,
        range_uncovered(rs, addr as int, size as int),
    ensures
        wf_regions(spec_insert(rs, addr, size)),
{
    let i = insertion_index(rs, addr as int);
    lemma_insertion_index_bounds(rs, addr as int);
    lemma_insertion_neighbours(rs, addr as int, size as int);
    let out = spec_insert(rs, addr, size);
    if i > 0 && region_end(rs[i - 1]) == addr {
        let merged = Region { start: rs[i - 1].start, size: (rs[i - 1].size + size) as usize };
        assert(region_end(merged) == addr + size);
        if i < rs.len() && rs[i].start == region_end(merged) {
            let merged3 = Region {
                start: merged.start,
                size: (merged.size + rs[i].size) as usize,
            };
            assert(region_end(merged3) == region_end(rs[i]));
            let upd = rs.update(i - 1, merged3);
            assert(out == upd.remove(i));
            assert forall|k: int| 0 <= k < out.len() implies region_valid(#[trigger] out[k]) by {
                if k < i - 1 {
                    assert(out[k] == rs[k]);
                } else if k == i - 1 {
                    assert(out[k] == merged3);
                } else {
                    assert(out[k] == rs[k + 1]);
                }
            }
            assert forall|k: int| 0 < k < out.len() implies region_end(out[k - 1]) < (
            #[trigger] out[k]).start by {
                if k < i - 1 {
                    assert(out[k - 1] == rs[k - 1] && out[k] == rs[k]);
                } else if k == i - 1 {
                    assert(out[k - 1] == rs[k - 1] && out[k] == merged3);
                } else if k == i {
                    assert(out[k - 1] == merged3 && out[k] == rs[i + 1]);
                    assert(region_end(rs[i]) < rs[i + 1].start);
                } else {
                    assert(out[k - 1] == rs[k] && out[k] == rs[k + 1]);
                }
            }
        } else {
            assert(out == rs.update(i - 1, merged));
            assert forall|k: int| 0 <= k < out.len() implies region_valid(#[trigger] out[k]) by {
                if k != i - 1 {
                    assert(out[k] == rs[k]);
                }
            }
            assert forall|k: int| 0 < k < out.len() implies region_end(out[k - 1]) < (
            #[trigger] out[k]).start by {
                if k == i - 1 {
                    assert(out[k - 1] == rs[k - 1] && out[k] == merged);
                } else if k == i {
                    assert(out[k - 1] == merged && out[k] == rs[i]);
                    // Not the absorb case, so the successor starts strictly
                    // beyond the merged end.
                    assert(rs[i].start != addr + size);
                } else {
                    assert(out[k - 1] == rs[k - 1] && out[k] == rs[k]);
                }
            }
        }
    } else if i < rs.len() && rs[i].start == addr + size {
        let grown = Region { start: addr, size: (size + rs[i].size) as usize };
        assert(region_end(grown) == region_end(rs[i]));
        assert(out == rs.update(i, grown));
        assert forall|k: int| 0 <= k < out.len() implies region_valid(#[trigger] out[k]) by {
            if k != i {
                assert(out[k] == rs[k]);
            }
        }
        assert forall|k: int| 0 < k < out.len() implies region_end(out[k - 1]) < (
        #[trigger] out[k]).start by {
            if k == i {
                assert(out[k - 1] == rs[k - 1] && out[k] == grown);
                // Not the merge-left case, so the predecessor ends strictly
                // before `addr`.
                assert(i > 0 ==> region_end(rs[i - 1]) != addr);
            } else if k == i + 1 {
                assert(out[k - 1] == grown && out[k] == rs[k]);
            } else {
                assert(out[k - 1] == rs[k - 1] && out[k] == rs[k]);
            }
        }
    } else {
        let fresh = Region { start: addr, size };
        assert(out == rs.insert(i, fresh));
        assert forall|k: int| 0 <= k < out.len() implies region_valid(#[trigger] out[k]) by {
            if k < i {
                assert(out[k] == rs[k]);
            } else if k > i {
                assert(out[k] == rs[k - 1]);
            }
        }
        assert forall|k: int| 0 < k < out.len() implies region_end(out[k - 1]) < (
        #[trigger] out[k]).start by {
            if k < i {
                assert(out[k - 1] == rs[k - 1] && out[k] == rs[k]);
            } else if k == i {
                assert(out[k - 1] == rs[k - 1] && out[k] == fresh);
                assert(region_end(rs[i - 1]) != addr);
            } else if k == i + 1 {
                assert(out[k - 1] == fresh && out[k] == rs[i]);
                assert(rs[i].start != addr + size);
            } else {
                assert(out[k - 1] == rs[k - 2] && out[k] == rs[k - 1]);
            }
        }
    }
}

/// Insertion covers exactly the old regions plus the inserted range.
#[verifier::rlimit(100)]
pub proof fn lemma_spec_insert_covers(rs: Seq<Region>, addr: usize, size: usize, x: int)
    requires
        wf_regions(rs),
        size > 0,
        addr + size <= usize::MAX,
        range_uncovered(rs, addr as int, size as int),
    ensures
        covers(spec_insert(rs, addr, size), x) <==> (covers(rs, x) || addr <= x < addr + size),
{
    let i = insertion_index(rs, addr as int);
    lemma_insertion_index_bounds(rs, addr as int);
    lemma_insertion_neighbours(rs, addr as int, size as int);
    let out = spec_insert(rs, addr, size);
    if i > 0 && region_end(rs[i - 1]) == addr {
        let merged = Region { start: rs[i - 1].start, size: (rs[i - 1].size + size) as usize };
        if i < rs.len() && rs[i].start == region_end(merged) {
            let merged3 = Region {
                start: merged.start,
                size: (merged.size + rs[i].size) as usize,
            };
            let upd = rs.update(i - 1, merged3);
            assert(out == upd.remove(i));
            if covers(out, x) {
                let k = choose|k: int|
                    0 <= k < out.len() && (#[trigger] out[k]).start <= x < region_end(out[k]);
                if k < i - 1 {
                    assert(out[k] == rs[k]);
                    assert(covers(rs, x));
                } else if k == i - 1 {
                    assert(out[k] == merged3);
                    if x < addr {
                        assert(rs[i - 1].start <= x < region_end(rs[i - 1]));
                        assert(covers(rs, x));
                    } else if x < addr + size {
                    } else {
                        assert(rs[i].start <= x < region_end(rs[i]));
                        assert(covers(rs, x));
                    }
                } else {
                    assert(out[k] == rs[k + 1]);
                    assert(covers(rs, x));
                }
            }
            if covers(rs, x) {
                let k = choose|k: int|
                    0 <= k < rs.len() && (#[trigger] rs[k]).start <= x < region_end(rs[k]);
                if k < i - 1 {
                    assert(out[k] == rs[k]);
                    assert(covers(out, x));
                } else if k == i - 1 || k == i {
                    assert(out[i - 1] == merged3);
                    assert(out[i - 1].start <= x < region_end(out[i - 1]));
                    assert(covers(out, x));
                } else {
                    assert(out[k - 1] == rs[k]);
                    assert(covers(out, x));
                }
            }
            if addr <= x < addr + size {
                assert(out[i - 1] == merged3);
                assert(out[i - 1].start <= x < region_end(out[i - 1]));
                assert(covers(out, x));
            }
        } else {
            assert(out == rs.update(i - 1, merged));
            if covers(out, x) {
                let k = choose|k: int|
                    0 <= k < out.len() && (#[trigger] out[k]).start <= x < region_end(out[k]);
                if k == i - 1 {
                    if x < addr {
                        assert(rs[i - 1].start <= x < region_end(rs[i - 1]));
                        assert(covers(rs, x));
                    }
                } else {
                    assert(out[k] == rs[k]);
                    assert(covers(rs, x));
                }
            }
            if covers(rs, x) {
                let k = choose|k: int|
                    0 <= k < rs.len() && (#[trigger] rs[k]).start <= x < region_end(rs[k]);
                if k == i - 1 {
                    assert(out[i - 1] == merged);
                    assert(out[i - 1].start <= x < region_end(out[i - 1]));
                    assert(covers(out, x));
                } else {
                    assert(out[k] == rs[k]);
                    assert(covers(out, x));
                }
            }
            if addr <= x < addr + size {
                assert(out[i - 1] == merged);
                assert(out[i - 1].start <= x < region_end(out[i - 1]));
                assert(covers(out, x));
            }
        }
    } else if i < rs.len() && rs[i].start == addr + size {
        let grown = Region { start: addr, size: (size + rs[i].size) as usize };
        assert(out == rs.update(i, grown));
        if covers(out, x) {
            let k = choose|k: int|
                0 <= k < out.len() && (#[trigger] out[k]).start <= x < region_end(out[k]);
            if k == i {
                if x >= addr + size {
                    assert(rs[i].start <= x < region_end(rs[i]));
                    assert(covers(rs, x));
                }
            } else {
                assert(out[k] == rs[k]);
                assert(covers(rs, x));
            }
        }
        if covers(rs, x) {
            let k = choose|k: int|
                0 <= k < rs.len() && (#[trigger] rs[k]).start <= x < region_end(rs[k]);
            if k == i {
                assert(out[i] == grown);
                assert(out[i].start <= x < region_end(out[i]));
                assert(covers(out, x));
            } else {
                assert(out[k] == rs[k]);
                assert(covers(out, x));
            }
        }
        if addr <= x < addr + size {
            assert(out[i] == grown);
            assert(out[i].start <= x < region_end(out[i]));
            assert(covers(out, x));
        }
    } else {
        let fresh = Region { start: addr, size };
        assert(out == rs.insert(i, fresh));
        if covers(out, x) {
            let k = choose|k: int|
                0 <= k < out.len() && (#[trigger] out[k]).start <= x < region_end(out[k]);
            if k < i {
                assert(out[k] == rs[k]);
                assert(covers(rs, x));
            } else if k == i {
                assert(out[k] == fresh);
            } else {
                assert(out[k] == rs[k - 1]);
                assert(covers(rs, x));
            }
        }
        if covers(rs, x) {
            let k = choose|k: int|
                0 <= k < rs.len() && (#[trigger] rs[k]).start <= x < region_end(rs[k]);
            if k < i {
                assert(out[k] == rs[k]);
                assert(covers(out, x));
            } else {
                assert(out[k + 1] == rs[k]);
                assert(out[k + 1].start <= x < region_end(out[k + 1]));
                assert(covers(out, x));
            }
        }
        if addr <= x < addr + size {
            assert(out[i] == fresh);
            assert(out[i].start <= x < region_end(out[i]));
            assert(covers(out, x));
        }
    }
}

/// The quantified form of the coverage account of one insertion.
pub proof fn lemma_spec_insert_covers_all(rs: Seq<Region>, addr: usize, size: usize)
    requires
        wf_regions(rs),
        size > 0,
        addr + size <= usize::MAX,
        range_uncovered(rs, addr as int, size as int),
    ensures
        forall|x: int|
            #![trigger covers(spec_insert(rs, addr, size), x)]
            covers(spec_insert(rs, addr, size), x) <==> (covers(rs, x) || addr <= x < addr + size),
{
    assert forall|x: int|
        #![trigger covers(spec_insert(rs, addr, size), x)]
        covers(spec_insert(rs, addr, size), x) <==> (covers(rs, x) || addr <= x < addr + size) by {
        lemma_spec_insert_covers(rs, addr, size, x);
    }
}

/// The alignment a request is adjusted to, so that the allocated region is
/// aligned enough to host a header when it is freed.
pub open spec fn spec_adjusted_align(align: usize) -> usize {
    if align < NODE_ALIGN {
        NODE_ALIGN
    } else {
        align
    }
}

/// The size a request is adjusted to: rounded up to the adjusted alignment
/// and at least a header's worth of bytes. Applied identically on the
/// allocate and the free path, so the two agree on the region's extent.
pub open spec fn spec_adjusted_size(size: usize, align: usize) -> int {
    let a2 = spec_adjusted_align(align);
    let rounded = spec_align_up(size as int, a2 as int);
    if rounded < NODE_SIZE {
        NODE_SIZE as int
    } else {
        rounded
    }
}

/// The request's parameters stay computable: rounding the size up to the
/// adjusted alignment does not leave the address space.
pub open spec fn request_valid(size: usize, align: usize) -> bool {
    is_pow2(align) && size + spec_adjusted_align(align) - 1 <= usize::MAX
}

/// The smaller of two powers of two divides the larger.
pub proof fn lemma_pow2_divides(small: usize, big: usize)
    requires
        is_pow2(small),
        is_pow2(big),
        small <= big,
    ensures
        big as int % small as int == 0,
{
    let ns = choose|n: nat| n < usize::BITS && small == vstd::arithmetic::power2::pow2(n);
    let nb = choose|n: nat| n < usize::BITS && big == vstd::arithmetic::power2::pow2(n);
    vstd::arithmetic::power2::lemma_pow2_pos(ns);
    vstd::arithmetic::power2::lemma_pow2_pos(nb);
    if ns > nb {
        vstd::arithmetic::power2::lemma_pow2_strictly_increases(nb, ns);
    }
    vstd::arithmetic::power2::lemma_pow2_adds((nb - ns) as nat, ns);
    vstd::arithmetic::power2::lemma_pow2_pos((nb - ns) as nat);
    vstd::arithmetic::div_mod::lemma_mod_multiples_basic(
        vstd::arithmetic::power2::pow2((nb - ns) as nat) as int,
        small as int,
    );
}

/// What the adjustment guarantees: the adjusted alignment is a power of two
/// at least as strict as both the request's and a header's, and the
/// adjusted size is header-aligned, large enough for request and header,
/// and still a `usize`.
pub proof fn lemma_adjusted_props(size: usize, align: usize)
    requires
        request_valid(size, align),
    ensures
        is_pow2(spec_adjusted_align(align)),
        spec_adjusted_align(align) >= NODE_ALIGN,
        spec_adjusted_align(align) >= align,
        spec_adjusted_align(align) as int % NODE_ALIGN as int == 0,
        spec_adjusted_align(align) as int % align as int == 0,
        spec_adjusted_size(size, align) >= NODE_SIZE,
        spec_adjusted_size(size, align) >= size,
        spec_adjusted_size(size, align) % NODE_ALIGN as int == 0,
        spec_adjusted_size(size, align) <= usize::MAX,
{
    let a2 = spec_adjusted_align(align);
    vstd::arithmetic::power2::lemma2_to64();
    assert(vstd::arithmetic::power2::pow2(3) == 8);
    if align < NODE_ALIGN {
        assert(is_pow2(NODE_ALIGN));
        lemma_pow2_divides(align, NODE_ALIGN);
    } else {
        lemma_pow2_divides(NODE_ALIGN, align);
    }
    lemma_pow2_positive(a2);
    lemma_align_up_bounds(size as int, a2 as int);
    let rounded = spec_align_up(size as int, a2 as int);
    if rounded < NODE_SIZE {
    } else {
        lemma_aligned_to_divisor(rounded, a2 as int, NODE_ALIGN as int);
    }
}

/// The region can serve an (adjusted) request: the aligned start plus the
/// size fits, and any leftover tail is empty or can host a header.
pub open spec fn region_fits(r: Region, size: int, align: int) -> bool {
    let s = spec_align_up(r.start as int, align);
    &&& r.start + align - 1 <= usize::MAX
    &&& s + size <= region_end(r)
    &&& (region_end(r) - (s + size) == 0 || region_end(r) - (s + size) >= NODE_SIZE)
}

/// Computing the allocation's end address in the region overflows.
pub open spec fn region_overflows(r: Region, size: int, align: int) -> bool {
    r.start + align - 1 > usize::MAX || spec_align_up(r.start as int, align) + size > usize::MAX
}

/// The first region of the list that fits the request, if any.
pub open spec fn spec_first_fit(rs: Seq<Region>, size: int, align: int) -> Option<int>
    decreases rs.len(),
{
    if rs.len() == 0 {
        Option::None
    } else if region_fits(rs[0], size, align) {
        Option::Some(0)
    } else {
        match spec_first_fit(rs.subrange(1, rs.len() as int), size, align) {
            Option::Some(i) => Option::Some(i + 1),
            Option::None => Option::None,
        }
    }
}

/// The first fit is pinned by the failures to its left.
proof fn lemma_first_fit_found(rs: Seq<Region>, size: int, align: int, i: int)
    requires
        0 <= i < rs.len(),
        forall|j: int| 0 <= j < i ==> !region_fits(#[trigger] rs[j], size, align),
        region_fits(rs[i], size, align),
    ensures
        spec_first_fit(rs, size, align) == Option::Some(i),
    decreases rs.len(),
{
    if i == 0 {
    } else {
        let tail = rs.subrange(1, rs.len() as int);
        assert(forall|j: int| 0 <= j < i - 1 ==> !region_fits(#[trigger] tail[j], size, align));
        assert(tail[i - 1] == rs[i]);
        lemma_first_fit_found(tail, size, align, i - 1);
    }
}

/// No region fits: the search ends in exhaustion.
proof fn lemma_first_fit_none(rs: Seq<Region>, size: int, align: int)
    requires
        forall|j: int| 0 <= j < rs.len() ==> !region_fits(#[trigger] rs[j], size, align),
    ensures
        spec_first_fit(rs, size, align) is None,
    decreases rs.len(),
{
    if rs.len() > 0 {
        let tail = rs.subrange(1, rs.len() as int);
        assert(forall|j: int| 0 <= j < tail.len() ==> !region_fits(#[trigger] tail[j], size, align));
        lemma_first_fit_none(tail, size, align);
    }
}

/// What a found first fit means: that region fits, no earlier one does.
pub proof fn lemma_first_fit_props(rs: Seq<Region>, size: int, align: int)
    ensures
        spec_first_fit(rs, size, align) matches Some(i) ==> 0 <= i < rs.len() && region_fits(
            rs[i],
            size,
            align,
        ) && forall|j: int| 0 <= j < i ==> !region_fits(#[trigger] rs[j], size, align),
        spec_first_fit(rs, size, align) is None ==> forall|j: int|
            0 <= j < rs.len() ==> !region_fits(#[trigger] rs[j], size, align),
    decreases rs.len(),
{
    if rs.len() > 0 {
        let tail = rs.subrange(1, rs.len() as int);
        lemma_first_fit_props(tail, size, align);
        if !region_fits(rs[0], size, align) {
            assert(forall|j: int| 0 < j < rs.len() ==> #[trigger] rs[j] == tail[j - 1]);
        }
    }
}

/// Removing one region keeps the list well-formed.
proof fn lemma_wf_remove(rs: Seq<Region>, i: int)
    requires
        wf_regions(rs),
        0 <= i < rs.len(),
    ensures
        wf_regions(rs.remove(i)),
{
    let out = rs.remove(i);
    assert forall|k: int| 0 <= k < out.len() implies region_valid(#[trigger] out[k]) by {
        if k < i {
            assert(out[k] == rs[k]);
        } else {
            assert(out[k] == rs[k + 1]);
        }
    }
    assert forall|k: int| 0 < k < out.len() implies region_end(out[k - 1]) < (
    #[trigger] out[k]).start by {
        if k < i {
            assert(out[k - 1] == rs[k - 1] && out[k] == rs[k]);
        } else if k == i {
            assert(out[k - 1] == rs[k - 1] && out[k] == rs[k + 1]);
            lemma_wf_ordered(rs, k - 1, k + 1);
        } else {
            assert(out[k - 1] == rs[k] && out[k] == rs[k + 1]);
        }
    }
}

/// What one first-fit allocation with an already-adjusted request does:
/// remove the first fitting region, hand out its aligned start, and give
/// any tail beyond the allocation back to the list.
pub open spec fn spec_alloc_adjusted(rs: Seq<Region>, size2: int, align2: int) -> (Seq<Region>, Option<
    int,
>) {
    match spec_first_fit(rs, size2, align2) {
        Option::None => (rs, Option::None),
        Option::Some(i) => {
            let r = rs[i];
            let a = spec_align_up(r.start as int, align2);
            let excess = region_end(r) - (a + size2);
            let removed = rs.remove(i);
            if excess > 0 {
                (spec_insert(removed, (a + size2) as usize, excess as usize), Option::Some(a))
            } else {
                (removed, Option::Some(a))
            }
        },
    }
}

/// No dangling adjacency: in a well-formed list no region's end address
/// equals another region's start address — any two regions that touched
/// have been coalesced into one.
pub proof fn lemma_no_dangling_adjacency(rs: Seq<Region>)
    requires
        wf_regions(rs),
    ensures
        forall|i: int, j: int|
            0 <= i < rs.len() && 0 <= j < rs.len() && i != j ==> region_end(#[trigger] rs[i]) != (
            #[trigger] rs[j]).start,
{
    assert forall|i: int, j: int|
        0 <= i < rs.len() && 0 <= j < rs.len() && i != j implies region_end(#[trigger] rs[i]) != (
    #[trigger] rs[j]).start by {
        if i < j {
            lemma_wf_ordered(rs, i, j);
        } else {
            lemma_wf_ordered(rs, j, i);
            assert(rs[j].start < region_end(rs[j]));
        }
    }
}

/// The coverage account of one allocation: the new list covers a subset of
/// the old one, and the granted block was free before and is free no more.
pub proof fn lemma_alloc_covers(rs: Seq<Region>, size: usize, align: usize)
    requires
        wf_regions(rs),
        request_valid(size, align),
    ensures
        ({
            let size2 = spec_adjusted_size(size, align);
            let align2 = spec_adjusted_align(align) as int;
            let step = spec_alloc_adjusted(rs, size2, align2);
            &&& (step.1 matches Some(a) ==> wf_regions(step.0) && a % align2 == 0 && a + size2
                <= usize::MAX && (forall|x: int| covers(step.0, x) ==> covers(rs, x)) && (forall|
                x: int,
            |
                a <= x < a + size2 ==> covers(rs, x) && !covers(step.0, x)))
            &&& (step.1 is None ==> step.0 == rs)
        }),
{
    let size2 = spec_adjusted_size(size, align);
    let align2 = spec_adjusted_align(align) as int;
    lemma_adjusted_props(size, align);
    lemma_pow2_positive(spec_adjusted_align(align));
    lemma_first_fit_props(rs, size2, align2);
    let step = spec_alloc_adjusted(rs, size2, align2);
    if step.1 is Some {
        let a = step.1->Some_0;
        let i = spec_first_fit(rs, size2, align2)->Some_0;
        let r = rs[i];
        lemma_align_up_bounds(r.start as int, align2);
        assert(a == spec_align_up(r.start as int, align2));
        let excess = region_end(r) - (a + size2);
        let removed = rs.remove(i);
        lemma_wf_remove(rs, i);
        // Everything the shrunk list covers, the old list covered.
        assert forall|x: int| covers(removed, x) implies covers(rs, x) by {
            let k = choose|k: int|
                0 <= k < removed.len() && (#[trigger] removed[k]).start <= x < region_end(
                    removed[k],
                );
            if k < i {
                assert(rs[k] == removed[k]);
            } else {
                assert(rs[k + 1] == removed[k]);
            }
        }
        assert forall|x: int| r.start <= x < region_end(r) implies covers(rs, x) by {
            assert(rs[i].start <= x < region_end(rs[i]));
        }
        if excess > 0 {
            let tail_addr = (a + size2) as usize;
            let tail_size = excess as usize;
            assert forall|x: int| tail_addr <= x < tail_addr + tail_size implies !covers(
                removed,
                x,
            ) by {
                lemma_wf_unique_cover(rs, i, x);
            }
            vstd::arithmetic::div_mod::lemma_add_mod_noop(a, size2, NODE_ALIGN as int);
            lemma_aligned_to_divisor(a, align2, NODE_ALIGN as int);
            lemma_spec_insert_wf(removed, tail_addr, tail_size);
            lemma_spec_insert_covers_all(removed, tail_addr, tail_size);
            assert forall|x: int| covers(step.0, x) implies covers(rs, x) by {
                assert(covers(spec_insert(removed, tail_addr, tail_size), x));
            }
            assert forall|x: int| a <= x < a + size2 implies covers(rs, x) && !covers(
                step.0,
                x,
            ) by {
                lemma_wf_unique_cover(rs, i, x);
                assert(!covers(removed, x));
                assert(covers(spec_insert(removed, tail_addr, tail_size), x) <==> (covers(
                    removed,
                    x,
                ) || tail_addr <= x < tail_addr + tail_size));
            }
        } else {
            assert forall|x: int| a <= x < a + size2 implies covers(rs, x) && !covers(
                step.0,
                x,
            ) by {
                lemma_wf_unique_cover(rs, i, x);
            }
        }
    }
}

/// Round-trip reuse: a block allocated first-fit, freed with the same
/// layout, and requested again is carved out of the same region and gets
/// the same address.
pub proof fn lemma_round_trip_reuse(rs: Seq<Region>, size: usize, align: usize)
    requires
        wf_regions(rs),
        request_valid(size, align),
    ensures
        ({
            let size2 = spec_adjusted_size(size, align);
            let align2 = spec_adjusted_align(align) as int;
            let step = spec_alloc_adjusted(rs, size2, align2);
            step.1 matches Some(a) ==> spec_alloc_adjusted(
                spec_insert(step.0, a as usize, size2 as usize),
                size2,
                align2,
            ).1 == Option::Some(a)
        }),
{
    let size2 = spec_adjusted_size(size, align);
    let align2 = spec_adjusted_align(align) as int;
    lemma_adjusted_props(size, align);
    lemma_pow2_positive(spec_adjusted_align(align));
    lemma_first_fit_props(rs, size2, align2);
    let step = spec_alloc_adjusted(rs, size2, align2);
    if step.1 is Some {
        let a = step.1->Some_0;
        let i = spec_first_fit(rs, size2, align2)->Some_0;
        let r = rs[i];
        lemma_align_up_bounds(r.start as int, align2);
        assert(a == spec_align_up(r.start as int, align2));
        let excess = region_end(r) - (a + size2);
        let removed = rs.remove(i);
        lemma_wf_remove(rs, i);
        assert forall|j: int| 0 <= j < i implies region_end(#[trigger] rs[j]) < r.start by {
            lemma_wf_ordered(rs, j, i);
        }
        let rs1 = step.0;
        let back = spec_insert(rs1, a as usize, size2 as usize);
        if excess > 0 {
            let tail = Region { start: (a + size2) as usize, size: excess as usize };
            // The split tail goes back exactly where the region was.
            lemma_insertion_index_unique(removed, a + size2, i);
            assert(i > 0 ==> region_end(removed[i - 1]) < r.start);
            assert(i < removed.len() ==> removed[i] == rs[i + 1]);
            assert(rs1 == removed.insert(i, tail));
            // Freeing the block extends the tail back downward to `a`.
            assert(rs1[i] == tail);
            assert(forall|j: int| 0 <= j < i ==> #[trigger] rs1[j] == removed[j]);
            lemma_insertion_index_unique(rs1, a as int, i);
            assert(i > 0 ==> region_end(rs1[i - 1]) < r.start);
            assert(rs1[i].start == a + size2);
            let grown = Region { start: a as usize, size: (size2 + excess) as usize };
            assert(back == rs1.update(i, grown));
            // The grown region fits the retried request at the same spot.
            lemma_round_up_identity(a, align2);
            crate::allocator::lemma_aligned_headroom(a as usize, spec_adjusted_align(align));
            assert(region_fits(back[i], size2, align2));
            assert forall|j: int| 0 <= j < i implies !region_fits(#[trigger] back[j], size2, align2) by {
                assert(back[j] == rs[j]);
            }
            lemma_first_fit_found(back, size2, align2, i);
        } else {
            // No tail: freeing the block re-creates the region as it was.
            assert(rs1 == removed);
            lemma_insertion_index_unique(rs1, a as int, i);
            assert(i > 0 ==> region_end(rs1[i - 1]) < r.start);
            assert(i < rs1.len() ==> rs1[i] == rs[i + 1]);
            let fresh = Region { start: a as usize, size: size2 as usize };
            assert(back == rs1.insert(i, fresh));
            lemma_round_up_identity(a, align2);
            crate::allocator::lemma_aligned_headroom(a as usize, spec_adjusted_align(align));
            assert(region_fits(back[i], size2, align2));
            assert forall|j: int| 0 <= j < i implies !region_fits(#[trigger] back[j], size2, align2) by {
                assert(back[j] == rs[j]);
            }
            lemma_first_fit_found(back, size2, align2, i);
        }
    }
}

/// Rounding an already-aligned address up changes nothing.
proof fn lemma_round_up_identity(a: int, align: int)
    requires
        align > 0,
        a % align == 0,
    ensures
        spec_align_up(a, align) == a,
{
    crate::allocator::lemma_round_up_unique(a, align, a);
}

/// The free-list allocator: its state is the sorted list of free regions.
pub struct Allocator {
    pub regions: Vec<Region>,
}

impl View for Allocator {
    type V = Seq<Region>;

    open spec fn view(&self) -> Seq<Region> {
        self.regions@
    }
}

impl Allocator {
    /// The free-list invariant over the allocator's own list.
    pub open spec fn wf(&self) -> bool {
        wf_regions(self@)
    }

    /// Create a new empty free-list allocator.
    pub fn empty() -> (r: Self)
        ensures
            r.wf(),
            r@ =~= Seq::<Region>::empty(),
    {
        Allocator { regions: Vec::new() }
    }

    /// Establish the heap bounds by handing the whole range
    /// `[heap_start, heap_start + heap_size)` to the free list; called
    /// exactly once, on an empty allocator, after provisioning.
    pub fn init(&mut self, heap_start: usize, heap_size: usize)
        requires
            old(self)@.len() == 0,
            heap_size >= NODE_SIZE,
            heap_start as int % NODE_ALIGN as int == 0,
            heap_start + heap_size <= usize::MAX,
        ensures
            final(self).wf(),
            final(self)@ =~= seq![Region { start: heap_start, size: heap_size }],
    {
        self.add_free_region(heap_start, heap_size);
        proof {
            assert(insertion_index(old(self)@, heap_start as int) == 0);
        }
    }

    /// Insert the free range `[addr, addr + size)` into the sorted list,
    /// merging with the predecessor whose end touches it and with the
    /// successor whose start touches it (both in the same call when the
    /// range exactly bridges two regions).
    ///
    /// The range must be able to host a header and must not overlap any
    /// region already free — freeing memory that is already free is a
    /// caller error this model rules out.
    #[verifier::rlimit(100)]
    pub fn add_free_region(&mut self, addr: usize, size: usize)
        requires
            old(self).wf(),
            size >= NODE_SIZE,
            addr as int % NODE_ALIGN as int == 0,
            addr + size <= usize::MAX,
            range_uncovered(old(self)@, addr as int, size as int),
        ensures
            final(self).wf(),
            final(self)@ == spec_insert(old(self)@, addr, size),
    {
        proof {
            lemma_insertion_index_bounds(self@, addr as int);
            lemma_insertion_neighbours(self@, addr as int, size as int);
            lemma_spec_insert_wf(self@, addr, size);
        }
        let ghost rs = self@;
        let ghost ii = insertion_index(rs, addr as int);
        let mut i: usize = 0;
        while i < self.regions.len() && self.regions[i].start <= addr
            invariant
                self.regions@ == rs,
                0 <= i <= self.regions.len(),
                forall|j: int| 0 <= j < i ==> (#[trigger] rs[j]).start <= addr,
            decreases self.regions.len() - i,
        {
            i = i + 1;
        }
        proof {
            lemma_insertion_index_unique(rs, addr as int, i as int);
            assert(i == ii);
        }
        if i > 0 && self.regions[i - 1].start + self.regions[i - 1].size == addr {
            // Merge into the predecessor region.
            let prev_start = self.regions[i - 1].start;
            let merged_size = self.regions[i - 1].size + size;
            self.regions[i - 1] = Region { start: prev_start, size: merged_size };
            if i < self.regions.len() && self.regions[i].start == addr + size {
                // The range bridges two regions: absorb the successor too.
                let absorbed = merged_size + self.regions[i].size;
                self.regions[i - 1] = Region { start: prev_start, size: absorbed };
                self.regions.remove(i);
            }
        } else if i < self.regions.len() && self.regions[i].start == addr + size {
            // Extend the successor region downward over the range.
            let grown = size + self.regions[i].size;
            self.regions[i] = Region { start: addr, size: grown };
        } else {
            // No neighbour touches the range: a region of its own.
            self.regions.insert(i, Region { start: addr, size });
        }
    }

    /// Adjust the request so that any allocated region can host a header
    /// when it is freed: alignment at least a header's, size rounded up to
    /// that alignment and at least a header's.
    pub fn size_align(size: usize, align: usize) -> (r: (usize, usize))
        requires
            request_valid(size, align),
        ensures
            r.0 == spec_adjusted_size(size, align),
            r.1 == spec_adjusted_align(align),
    {
        proof {
            lemma_adjusted_props(size, align);
        }
        let a2 = if align < NODE_ALIGN {
            NODE_ALIGN
        } else {
            align
        };
        let rounded = align_up(size, a2);
        let s2 = if rounded < NODE_SIZE {
            NODE_SIZE
        } else {
            rounded
        };
        (s2, a2)
    }

    /// Try to place an (already adjusted) request in one region: align its
    /// start up, and accept when the allocation fits and leaves either no
    /// tail or a tail that can host a header of its own.
    pub fn alloc_from_region(region: &Region, size: usize, align: usize) -> (r: Result<
        usize,
        AllocError,
    >)
        requires
            is_pow2(align),
            region_valid(*region),
        ensures
            r matches Ok(a) <==> region_fits(*region, size as int, align as int),
            r matches Ok(a) ==> a == spec_align_up(region.start as int, align as int),
            r == Err::<usize, AllocError>(AllocError::Overflow) <==> region_overflows(
                *region,
                size as int,
                align as int,
            ),
            r == Err::<usize, AllocError>(AllocError::TooSmall) <==> (!region_fits(
                *region,
                size as int,
                align as int,
            ) && !region_overflows(*region, size as int, align as int)),
    {
        proof {
            lemma_pow2_positive(align);
        }
        let alloc_start = match region.start.checked_add(align - 1) {
            Some(_) => align_up(region.start, align),
            None => {
                return Err(AllocError::Overflow);
            },
        };
        let alloc_end = match alloc_start.checked_add(size) {
            Some(e) => e,
            None => {
                return Err(AllocError::Overflow);
            },
        };
        let end = region.start + region.size;
        if alloc_end > end {
            // Region too small for the request.
            return Err(AllocError::TooSmall);
        }
        let excess_size = end - alloc_end;
        if excess_size > 0 && excess_size < NODE_SIZE {
            // Too small for the request plus a future header in the tail.
            return Err(AllocError::TooSmall);
        }
        Ok(alloc_start)
    }

    /// Walk the address-ordered list for the first region that fits the
    /// (already adjusted) request and remove it; report exhaustion when the
    /// whole list has been scanned in vain.
    pub fn find_region(&mut self, size: usize, align: usize) -> (res: Result<
        (Region, usize),
        AllocError,
    >)
        requires
            old(self).wf(),
            is_pow2(align),
        ensures
            final(self).wf(),
            spec_first_fit(old(self)@, size as int, align as int) matches Some(i) ==> (res matches Ok(p)
                && p.0 == old(self)@[i] && p.1 == spec_align_up(
                old(self)@[i].start as int,
                align as int,
            ) && final(self)@ == old(self)@.remove(i)),
            spec_first_fit(old(self)@, size as int, align as int) is None ==> (res matches Err(e)
                && e == AllocError::OOM && final(self)@ == old(self)@),
    {
        let ghost rs = self@;
        let mut i: usize = 0;
        while i < self.regions.len()
            invariant
                rs == old(self)@,
                self.regions@ == rs,
                wf_regions(rs),
                is_pow2(align),
                0 <= i <= self.regions.len(),
                forall|j: int|
                    0 <= j < i ==> !region_fits(#[trigger] rs[j], size as int, align as int),
            decreases self.regions.len() - i,
        {
            let region = self.regions[i];
            if let Ok(alloc_start) = Self::alloc_from_region(&region, size, align) {
                proof {
                    lemma_first_fit_found(rs, size as int, align as int, i as int);
                    lemma_wf_remove(rs, i as int);
                }
                let removed = self.regions.remove(i);
                return Ok((removed, alloc_start));
            }
            i = i + 1;
        }
        proof {
            lemma_first_fit_none(rs, size as int, align as int);
        }
        Err(AllocError::OOM)
    }

    /// Allocate: adjust the request, take the first fitting region, and
    /// give any leftover tail back to the list as a region of its own.
    pub fn alloc_first_fit(&mut self, size: usize, align: usize) -> (res: Result<
        usize,
        AllocError,
    >)
        requires
            old(self).wf(),
            request_valid(size, align),
        ensures
            final(self).wf(),
            ({
                let size2 = spec_adjusted_size(size, align);
                let align2 = spec_adjusted_align(align) as int;
                let step = spec_alloc_adjusted(old(self)@, size2, align2);
                &&& (res matches Ok(a) ==> step.1 == Option::Some(a as int) && final(self)@
                    == step.0)
                &&& (res matches Err(e) ==> step.1 is None && e == AllocError::OOM && final(self)@
                    == old(self)@)
                &&& (res matches Ok(a) ==> a as int % align as int == 0 && a + size2 <= usize::MAX)
            }),
    {
        proof {
            lemma_adjusted_props(size, align);
        }
        let (size2, align2) = Self::size_align(size, align);
        let ghost rs = self@;
        let (region, alloc_start) = match self.find_region(size2, align2) {
            Ok(p) => p,
            Err(e) => {
                proof {
                    lemma_first_fit_props(rs, size2 as int, align2 as int);
                }
                return Err(AllocError::OOM);
            },
        };
        proof {
            lemma_first_fit_props(rs, size2 as int, align2 as int);
        }
        let ghost fi = spec_first_fit(rs, size2 as int, align2 as int)->Some_0;
        let alloc_end = alloc_start + size2;
        let region_end_addr = region.start + region.size;
        let excess_size = region_end_addr - alloc_end;
        proof {
            // The allocation start is aligned to the adjusted alignment and
            // so to the requested and to the header alignment.
            lemma_pow2_positive(align);
            lemma_pow2_positive(align2);
            lemma_align_up_bounds(region.start as int, align2 as int);
            lemma_aligned_to_divisor(alloc_start as int, align2 as int, align as int);
            lemma_aligned_to_divisor(alloc_start as int, align2 as int, NODE_ALIGN as int);
        }
        if excess_size > 0 {
            proof {
                // The tail begins on a header boundary: start and size of
                // the allocation are both multiples of the header alignment.
                vstd::arithmetic::div_mod::lemma_add_mod_noop(
                    alloc_start as int,
                    size2 as int,
                    NODE_ALIGN as int,
                );
                // The tail lay inside the removed region, which no other
                // region of the well-formed list overlaps.
                assert forall|x: int| alloc_end <= x < alloc_end + excess_size implies !covers(
                    self@,
                    x,
                ) by {
                    lemma_wf_unique_cover(rs, fi, x);
                }
            }
            self.add_free_region(alloc_end, excess_size);
        }
        Ok(alloc_start)
    }

    /// Free the block at `addr`: re-adjust the `(size, align)` pair exactly
    /// as the allocation did, and give the region back to the list,
    /// coalescing with its neighbours.
    ///
    /// The pair must be the one used at allocation time, and the block must
    /// not already be free.
    pub fn deallocate(&mut self, addr: usize, size: usize, align: usize)
        requires
            old(self).wf(),
            request_valid(size, align),
            addr as int % spec_adjusted_align(align) as int == 0,
            addr + spec_adjusted_size(size, align) <= usize::MAX,
            range_uncovered(old(self)@, addr as int, spec_adjusted_size(size, align)),
        ensures
            final(self).wf(),
            final(self)@ == spec_insert(
                old(self)@,
                addr,
                spec_adjusted_size(size, align) as usize,
            ),
            forall|x: int|
                covers(final(self)@, x) <==> (covers(old(self)@, x) || addr <= x < addr
                    + spec_adjusted_size(size, align)),
    {
        proof {
            lemma_adjusted_props(size, align);
            lemma_aligned_to_divisor(
                addr as int,
                spec_adjusted_align(align) as int,
                NODE_ALIGN as int,
            );
        }
        let (size2, _align2) = Self::size_align(size, align);
        self.add_free_region(addr, size2);
        proof {
            lemma_spec_insert_covers_all(old(self)@, addr, size2);
            assert(self@ == spec_insert(old(self)@, addr, size2));
            assert forall|x: int|
                covers(self@, x) <==> (covers(old(self)@, x) || addr <= x < addr
                    + spec_adjusted_size(size, align)) by {
                assert(covers(spec_insert(old(self)@, addr, size2), x) <==> (covers(old(self)@, x)
                    || addr <= x < addr + size2));
            }
        }
    }
}

} // verus!

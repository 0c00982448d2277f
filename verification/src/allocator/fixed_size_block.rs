//! Segregated fixed-size-block allocator: one LIFO free list ("bin") per
//! power-of-two size class from 8 to 2048 bytes, with O(1) push and pop on
//! the hot path. An empty bin is refilled by splitting a block of the next
//! larger class in two, or by a fresh block from the fallback free-list
//! allocator; requests beyond the largest class bypass the bins entirely.
//! When the fallback itself is exhausted, every bin is drained back into it
//! and the request is retried exactly once.
//!
//! A bare-metal build stores each bin as headers written into the free
//! blocks themselves; here a bin is a stack of block start addresses, and
//! the in-place constraints survive as the well-formedness of the state:
//! every block is aligned to its class, and the byte ranges owned by the
//! blocks and by the fallback's free regions are pairwise disjoint.
use vstd::prelude::*;

use crate::allocator::is_pow2;
use crate::allocator::lemma_aligned_to_divisor;
use crate::allocator::lemma_pow2_positive;
use crate::allocator::linked_list;
use crate::allocator::linked_list::covers;
use crate::allocator::linked_list::range_uncovered;
use crate::allocator::linked_list::request_valid;
use crate::allocator::linked_list::spec_adjusted_align;
use crate::allocator::linked_list::spec_alloc_adjusted;
use crate::allocator::linked_list::spec_adjusted_size;
use crate::allocator::linked_list::spec_insert;
use crate::allocator::linked_list::wf_regions;
use crate::allocator::linked_list::Region;
use crate::allocator::linked_list::NODE_ALIGN;
use crate::allocator::linked_list::NODE_SIZE;

verus! {

/// Number of size classes.
pub const BIN_COUNT: usize = 9;

/// Index of the largest size class.
pub const LAST_BIN: usize = BIN_COUNT - 1;

/// The block size of class `i`: the ascending powers of two 8..=2048,
/// each doubling the last. A class's blocks are also aligned to this size.
pub open spec fn spec_block_size(i: int) -> int {
    if i == 0 {
        8
    } else if i == 1 {
        16
    } else if i == 2 {
        32
    } else if i == 3 {
        64
    } else if i == 4 {
        128
    } else if i == 5 {
        256
    } else if i == 6 {
        512
    } else if i == 7 {
        1024
    } else {
        2048
    }
}

/// Bytes of backing store a block of class `i` owns: what the fallback
/// grants a `(block size, block size)` request after its own adjustment —
/// at least a header's worth, so the smallest class owns a full header.
pub open spec fn spec_block_backing(i: int) -> int {
    if spec_block_size(i) < NODE_SIZE {
        NODE_SIZE as int
    } else {
        spec_block_size(i)
    }
}

/// The class that serves a request: the smallest block size at least
/// `max(size, align)`, or none when the request exceeds the largest class
/// and must go to the fallback allocator.
pub open spec fn spec_list_index(size: usize, align: usize) -> Option<int> {
    let required: int = if size > align {
        size as int
    } else {
        align as int
    };
    if required <= 8 {
        Option::Some(0)
    } else if required <= 16 {
        Option::Some(1)
    } else if required <= 32 {
        Option::Some(2)
    } else if required <= 64 {
        Option::Some(3)
    } else if required <= 128 {
        Option::Some(4)
    } else if required <= 256 {
        Option::Some(5)
    } else if required <= 512 {
        Option::Some(6)
    } else if required <= 1024 {
        Option::Some(7)
    } else if required <= 2048 {
        Option::Some(8)
    } else {
        Option::None
    }
}

/// How many bytes a successful allocation takes out of the free store:
/// the class's backing for an in-class request, the adjusted size for an
/// oversized one.
pub open spec fn spec_granted(size: usize, align: usize) -> int {
    match spec_list_index(size, align) {
        Option::Some(i) => spec_block_backing(i),
        Option::None => spec_adjusted_size(size, align),
    }
}

/// The whole allocator state as mathematics: one stack of block addresses
/// per class, and the fallback's free regions.
#[verifier::ext_equal]
pub struct FsbState {
    pub bins: Seq<Seq<usize>>,
    pub fallback: Seq<Region>,
}

/// The block address is aligned to its class and its backing store stays
/// within the address space.
pub open spec fn block_valid(i: int, b: usize) -> bool {
    &&& b as int % spec_block_size(i) == 0
    &&& b + spec_block_backing(i) <= usize::MAX
}

/// Address `x` lies in the backing store of some binned block.
pub open spec fn bins_cover(bins: Seq<Seq<usize>>, x: int) -> bool {
    exists|i: int, k: int|
        0 <= i < bins.len() && 0 <= k < bins[i].len() && (#[trigger] bins[i][k]) <= x
            < bins[i][k] + spec_block_backing(i)
}

/// Address `x` is free: in a bin's block or in a fallback region.
pub open spec fn state_free(s: FsbState, x: int) -> bool {
    bins_cover(s.bins, x) || covers(s.fallback, x)
}

/// The allocator invariant: nine bins of class-aligned blocks, a
/// well-formed fallback list, and all owned byte ranges pairwise disjoint.
pub open spec fn state_wf(s: FsbState) -> bool {
    &&& s.bins.len() == BIN_COUNT
    &&& wf_regions(s.fallback)
    &&& forall|i: int, k: int|
        0 <= i < s.bins.len() && 0 <= k < s.bins[i].len() ==> block_valid(
            i,
            #[trigger] s.bins[i][k],
        )
    &&& forall|i: int, k: int|
        0 <= i < s.bins.len() && 0 <= k < s.bins[i].len() ==> range_uncovered(
            s.fallback,
            (#[trigger] s.bins[i][k]) as int,
            spec_block_backing(i),
        )
    &&& forall|i: int, k: int, i2: int, k2: int|
        0 <= i < s.bins.len() && 0 <= k < s.bins[i].len() && 0 <= i2 < s.bins.len() && 0 <= k2
            < s.bins[i2].len() && (i != i2 || k != k2) ==> ((#[trigger] s.bins[i][k]) as int
            + spec_block_backing(i) <= (#[trigger] s.bins[i2][k2]) as int || s.bins[i2][k2] as int
            + spec_block_backing(i2) <= s.bins[i][k] as int)
}

/// What freeing one block does to the state: push it onto its class's bin,
/// or give it back to the fallback when it is out of class.
pub open spec fn spec_free_step(s: FsbState, addr: usize, size: usize, align: usize) -> FsbState {
    match spec_list_index(size, align) {
        Option::Some(i) => FsbState {
            bins: s.bins.update(i, s.bins[i].push(addr)),
            fallback: s.fallback,
        },
        Option::None => FsbState {
            bins: s.bins,
            fallback: spec_insert(s.fallback, addr, spec_adjusted_size(size, align) as usize),
        },
    }
}

/// What serving a request from a non-empty bin does: pop the most recently
/// freed block, the state keeps everything else.
pub open spec fn spec_bin_hit_step(s: FsbState, i: int) -> (FsbState, usize) {
    (
        FsbState { bins: s.bins.update(i, s.bins[i].drop_last()), fallback: s.fallback },
        s.bins[i].last(),
    )
}

/// What one allocation does short of the out-of-memory recovery pass:
/// pop the class's bin; or split the next larger class's head block in
/// two, keeping the upper half; or take one class-sized block first-fit
/// from the fallback; an oversized request goes first-fit to the fallback
/// directly. Absent means the fallback was exhausted and the recovery
/// pass runs.
pub open spec fn spec_try_allocate(s: FsbState, size: usize, align: usize) -> Option<
    (FsbState, usize),
> {
    match spec_list_index(size, align) {
        Option::Some(i) => {
            if s.bins[i].len() > 0 {
                Option::Some(spec_bin_hit_step(s, i))
            } else if 1 <= i && i + 1 < BIN_COUNT && s.bins[i + 1].len() > 0 {
                let block = s.bins[i + 1].last();
                let upper = (block + spec_block_size(i)) as usize;
                let bins = s.bins.update(i + 1, s.bins[i + 1].drop_last()).update(
                    i,
                    s.bins[i].push(upper),
                );
                Option::Some((FsbState { bins, fallback: s.fallback }, block))
            } else {
                let step = spec_alloc_adjusted(
                    s.fallback,
                    spec_block_backing(i),
                    spec_block_size(i),
                );
                match step.1 {
                    Option::Some(a) => Option::Some(
                        (FsbState { bins: s.bins, fallback: step.0 }, a as usize),
                    ),
                    Option::None => Option::None,
                }
            }
        },
        Option::None => {
            let step = spec_alloc_adjusted(
                s.fallback,
                spec_adjusted_size(size, align),
                spec_adjusted_align(align) as int,
            );
            match step.1 {
                Option::Some(a) => Option::Some(
                    (FsbState { bins: s.bins, fallback: step.0 }, a as usize),
                ),
                Option::None => Option::None,
            }
        },
    }
}

/// The first-fit question the allocator puts to its fallback for a given
/// request: the class's backing for an in-class request, the adjusted
/// layout for an oversized one.
pub open spec fn spec_fallback_exhausted(fb: Seq<Region>, size: usize, align: usize) -> bool {
    match spec_list_index(size, align) {
        Option::Some(i) => linked_list::spec_first_fit(
            fb,
            spec_block_backing(i),
            spec_block_size(i),
        ) is None,
        Option::None => linked_list::spec_first_fit(
            fb,
            spec_adjusted_size(size, align),
            spec_adjusted_align(align) as int,
        ) is None,
    }
}

/// What `deallocate(addr, size, align)` may be called with: the pair of an
/// earlier allocation, of which the strategy itself can check this much —
/// the block is aligned to what that allocation granted, lies in the
/// address space, and none of its bytes are free already.
pub open spec fn spec_free_ok(s: FsbState, addr: usize, size: usize, align: usize) -> bool {
    &&& (match spec_list_index(size, align) {
        Option::Some(i) => block_valid(i, addr),
        Option::None => addr as int % spec_adjusted_align(align) as int == 0 && addr
            + spec_adjusted_size(size, align) <= usize::MAX,
    })
    &&& forall|x: int| addr <= x < addr + spec_granted(size, align) ==> !state_free(s, x)
}

/// Two nonempty ranges that are not ordered apart share a point.
proof fn lemma_ranges_meet(a1: int, s1: int, a2: int, s2: int) -> (x: int)
    requires
        s1 > 0,
        s2 > 0,
        !(a1 + s1 <= a2 || a2 + s2 <= a1),
    ensures
        a1 <= x < a1 + s1,
        a2 <= x < a2 + s2,
{
    if a1 > a2 {
        a1
    } else {
        a2
    }
}

/// What the class bound means: a request of class `i` is at most the
/// class's block size in both measures, and the block size is a power of
/// two between a header's alignment and the largest class.
proof fn lemma_class_bounds(size: usize, align: usize, i: int)
    requires
        spec_list_index(size, align) == Option::Some(i),
    ensures
        0 <= i < BIN_COUNT,
        size <= spec_block_size(i),
        align <= spec_block_size(i),
        is_pow2(spec_block_size(i) as usize),
        NODE_ALIGN <= spec_block_size(i) <= 2048,
        NODE_SIZE <= spec_block_backing(i),
        spec_block_size(i) <= spec_block_backing(i),
        spec_block_backing(i) as int % NODE_ALIGN as int == 0,
        spec_block_size(i) as int % NODE_ALIGN as int == 0,
{
    vstd::arithmetic::power2::lemma2_to64();
}

/// A class-sized request to the fallback allocator is granted exactly the
/// class's backing store, aligned to the class's block size.
proof fn lemma_class_request(i: int)
    requires
        0 <= i < BIN_COUNT,
    ensures
        ({
            let bs = spec_block_size(i) as usize;
            &&& request_valid(bs, bs)
            &&& spec_adjusted_align(bs) == bs
            &&& spec_adjusted_size(bs, bs) == spec_block_backing(i)
        }),
{
    let bs = spec_block_size(i) as usize;
    vstd::arithmetic::power2::lemma2_to64();
    assert(is_pow2(bs));
    crate::allocator::lemma_round_up_unique(bs as int, bs as int, bs as int);
    vstd::arithmetic::div_mod::lemma_mod_multiples_basic(1, bs as int);
    assert(1 * (bs as int) == bs as int);
}

/// Pushing a block whose bytes are nowhere free keeps the state
/// well-formed, and makes exactly those bytes free.
proof fn lemma_bin_push_wf(s: FsbState, addr: usize, i: int)
    requires
        state_wf(s),
        0 <= i < BIN_COUNT,
        block_valid(i, addr),
        forall|x: int| addr <= x < addr + spec_block_backing(i) ==> !state_free(s, x),
    ensures
        ({
            let s2 = FsbState { bins: s.bins.update(i, s.bins[i].push(addr)), fallback: s.fallback };
            &&& state_wf(s2)
            &&& forall|x: int|
                state_free(s2, x) <==> (state_free(s, x) || addr <= x < addr + spec_block_backing(
                    i,
                ))
        }),
{
    let s2 = FsbState { bins: s.bins.update(i, s.bins[i].push(addr)), fallback: s.fallback };
    let n = s.bins[i].len() as int;
    assert(s2.bins[i] == s.bins[i].push(addr));
    assert(forall|k: int| 0 <= k < n ==> #[trigger] s2.bins[i][k] == s.bins[i][k]);
    assert(s2.bins[i][n] == addr);
    // Every old block keeps its place.
    assert forall|i2: int, k2: int|
        0 <= i2 < s2.bins.len() && 0 <= k2 < s2.bins[i2].len() && !(i2 == i && k2 == n) implies (
    #[trigger] s2.bins[i2][k2]) == s.bins[i2][k2] by {}
    // Validity of each block.
    assert forall|i2: int, k2: int|
        0 <= i2 < s2.bins.len() && 0 <= k2 < s2.bins[i2].len() implies block_valid(
        i2,
        #[trigger] s2.bins[i2][k2],
    ) by {
        if !(i2 == i && k2 == n) {
            assert(s2.bins[i2][k2] == s.bins[i2][k2]);
        }
    }
    // No block overlaps the fallback regions.
    assert forall|i2: int, k2: int|
        0 <= i2 < s2.bins.len() && 0 <= k2 < s2.bins[i2].len() implies range_uncovered(
        s2.fallback,
        (#[trigger] s2.bins[i2][k2]) as int,
        spec_block_backing(i2),
    ) by {
        if i2 == i && k2 == n {
            assert forall|x: int|
                addr <= x < addr + spec_block_backing(i) implies !covers(s.fallback, x) by {
                assert(!state_free(s, x));
            }
        } else {
            assert(s2.bins[i2][k2] == s.bins[i2][k2]);
        }
    }
    // Blocks stay pairwise disjoint: the new block's bytes were free
    // nowhere, so it cannot meet a block whose bytes are all free.
    assert forall|i2: int, k2: int, i3: int, k3: int|
        0 <= i2 < s2.bins.len() && 0 <= k2 < s2.bins[i2].len() && 0 <= i3 < s2.bins.len() && 0 <= k3
            < s2.bins[i3].len() && (i2 != i3 || k2 != k3) implies ((#[trigger] s2.bins[i2][k2]) as int
        + spec_block_backing(i2) <= (#[trigger] s2.bins[i3][k3]) as int || s2.bins[i3][k3] as int
        + spec_block_backing(i3) <= s2.bins[i2][k2] as int) by {
        let new2 = i2 == i && k2 == n;
        let new3 = i3 == i && k3 == n;
        if new2 && !new3 {
            assert(s2.bins[i3][k3] == s.bins[i3][k3]);
            let b3 = s.bins[i3][k3];
            if !(addr + spec_block_backing(i) <= b3 || b3 + spec_block_backing(i3) <= addr) {
                let x = lemma_ranges_meet(
                    addr as int,
                    spec_block_backing(i),
                    b3 as int,
                    spec_block_backing(i3),
                );
                assert(bins_cover(s.bins, x));
                assert(state_free(s, x));
            }
        } else if !new2 && new3 {
            assert(s2.bins[i2][k2] == s.bins[i2][k2]);
            let b2 = s.bins[i2][k2];
            if !(b2 + spec_block_backing(i2) <= addr || addr + spec_block_backing(i) <= b2) {
                let x = lemma_ranges_meet(
                    b2 as int,
                    spec_block_backing(i2),
                    addr as int,
                    spec_block_backing(i),
                );
                assert(bins_cover(s.bins, x));
                assert(state_free(s, x));
            }
        } else if !new2 && !new3 {
            assert(s2.bins[i2][k2] == s.bins[i2][k2]);
            assert(s2.bins[i3][k3] == s.bins[i3][k3]);
        }
    }
    // The free set grows by exactly the block's bytes.
    assert forall|x: int|
        state_free(s2, x) <==> (state_free(s, x) || addr <= x < addr + spec_block_backing(
            i,
        )) by {
        if bins_cover(s2.bins, x) {
            let (i2, k2) = choose|i2: int, k2: int|
                0 <= i2 < s2.bins.len() && 0 <= k2 < s2.bins[i2].len() && (#[trigger] s2.bins[i2][k2])
                    <= x < s2.bins[i2][k2] + spec_block_backing(i2);
            if i2 == i && k2 == n {
            } else {
                assert(s.bins[i2][k2] <= x < s.bins[i2][k2] + spec_block_backing(i2));
                assert(bins_cover(s.bins, x));
            }
        }
        if bins_cover(s.bins, x) {
            let (i2, k2) = choose|i2: int, k2: int|
                0 <= i2 < s.bins.len() && 0 <= k2 < s.bins[i2].len() && (#[trigger] s.bins[i2][k2])
                    <= x < s.bins[i2][k2] + spec_block_backing(i2);
            assert(s2.bins[i2][k2] == s.bins[i2][k2]);
            assert(bins_cover(s2.bins, x));
        }
        if addr <= x < addr + spec_block_backing(i) {
            assert(s2.bins[i][n] == addr);
            assert(bins_cover(s2.bins, x));
        }
    }
}

/// Popping a block keeps the state well-formed; the popped block's bytes
/// were free and are free no more, and nothing else changes.
proof fn lemma_bin_pop_wf(s: FsbState, i: int)
    requires
        state_wf(s),
        0 <= i < BIN_COUNT,
        s.bins[i].len() > 0,
    ensures
        ({
            let s2 = FsbState { bins: s.bins.update(i, s.bins[i].drop_last()), fallback: s.fallback };
            let b = s.bins[i].last();
            &&& state_wf(s2)
            &&& block_valid(i, b)
            &&& forall|x: int| state_free(s2, x) ==> state_free(s, x)
            &&& forall|x: int|
                b <= x < b + spec_block_backing(i) ==> state_free(s, x) && !state_free(s2, x)
            &&& forall|x: int|
                state_free(s, x) && !(b <= x < b + spec_block_backing(i)) ==> state_free(s2, x)
        }),
{
    let s2 = FsbState { bins: s.bins.update(i, s.bins[i].drop_last()), fallback: s.fallback };
    let n = s.bins[i].len() - 1;
    let b = s.bins[i].last();
    assert(forall|k: int| 0 <= k < n ==> #[trigger] s2.bins[i][k] == s.bins[i][k]);
    assert forall|i2: int, k2: int|
        0 <= i2 < s2.bins.len() && 0 <= k2 < s2.bins[i2].len() implies (#[trigger] s2.bins[i2][k2])
        == s.bins[i2][k2] by {}
    assert forall|x: int| bins_cover(s2.bins, x) implies bins_cover(s.bins, x) by {
        let (i2, k2) = choose|i2: int, k2: int|
            0 <= i2 < s2.bins.len() && 0 <= k2 < s2.bins[i2].len() && (#[trigger] s2.bins[i2][k2])
                <= x < s2.bins[i2][k2] + spec_block_backing(i2);
        assert(s.bins[i2][k2] <= x < s.bins[i2][k2] + spec_block_backing(i2));
    }
    assert forall|x: int| b <= x < b + spec_block_backing(i) implies state_free(s, x)
        && !state_free(s2, x) by {
        assert(s.bins[i][n] == b);
        assert(bins_cover(s.bins, x));
        if bins_cover(s2.bins, x) {
            let (i2, k2) = choose|i2: int, k2: int|
                0 <= i2 < s2.bins.len() && 0 <= k2 < s2.bins[i2].len() && (#[trigger] s2.bins[i2][k2])
                    <= x < s2.bins[i2][k2] + spec_block_backing(i2);
            // That block also sits in the old state, distinct from the
            // popped one, yet overlaps it: impossible.
            assert(s.bins[i2][k2] <= x < s.bins[i2][k2] + spec_block_backing(i2));
            assert(i2 != i || k2 != n);
            assert(s.bins[i2][k2] as int + spec_block_backing(i2) <= b as int || b as int
                + spec_block_backing(i) <= s.bins[i2][k2] as int);
        }
        assert(!covers(s.fallback, x));
    }
    assert forall|x: int|
        state_free(s, x) && !(b <= x < b + spec_block_backing(i)) implies state_free(s2, x) by {
        if bins_cover(s.bins, x) {
            let (i2, k2) = choose|i2: int, k2: int|
                0 <= i2 < s.bins.len() && 0 <= k2 < s.bins[i2].len() && (#[trigger] s.bins[i2][k2])
                    <= x < s.bins[i2][k2] + spec_block_backing(i2);
            assert(!(i2 == i && k2 == n));
            assert(s2.bins[i2][k2] == s.bins[i2][k2]);
            assert(bins_cover(s2.bins, x));
        }
    }
}

/// Handing a byte range that is nowhere free to the fallback list keeps
/// the state well-formed, and makes exactly those bytes free.
proof fn lemma_fallback_insert_wf(s: FsbState, addr: usize, gsize: usize)
    requires
        state_wf(s),
        gsize >= NODE_SIZE,
        addr as int % NODE_ALIGN as int == 0,
        addr + gsize <= usize::MAX,
        forall|x: int| addr <= x < addr + gsize ==> !state_free(s, x),
    ensures
        ({
            let s2 = FsbState { bins: s.bins, fallback: spec_insert(s.fallback, addr, gsize) };
            &&& state_wf(s2)
            &&& forall|x: int| state_free(s2, x) <==> (state_free(s, x) || addr <= x < addr + gsize)
        }),
{
    let s2 = FsbState { bins: s.bins, fallback: spec_insert(s.fallback, addr, gsize) };
    assert forall|x: int| addr <= x < addr + gsize implies !covers(s.fallback, x) by {
        assert(!state_free(s, x));
    }
    linked_list::lemma_spec_insert_wf(s.fallback, addr, gsize);
    linked_list::lemma_spec_insert_covers_all(s.fallback, addr, gsize);
    assert forall|i2: int, k2: int|
        0 <= i2 < s2.bins.len() && 0 <= k2 < s2.bins[i2].len() implies range_uncovered(
        s2.fallback,
        (#[trigger] s2.bins[i2][k2]) as int,
        spec_block_backing(i2),
    ) by {
        let b = s.bins[i2][k2];
        assert forall|x: int| b <= x < b + spec_block_backing(i2) implies !covers(
            s2.fallback,
            x,
        ) by {
            assert(bins_cover(s.bins, x));
            assert(state_free(s, x));
            assert(!(addr <= x < addr + gsize));
            assert(covers(s2.fallback, x) <==> (covers(s.fallback, x) || addr <= x < addr + gsize));
        }
    }
}

/// The fixed-size-block allocator: nine bins of block addresses and the
/// fallback free-list allocator that backs them.
pub struct Allocator {
    pub bins: Vec<Vec<usize>>,
    pub fallback: linked_list::Allocator,
}

impl View for Allocator {
    type V = FsbState;

    open spec fn view(&self) -> FsbState {
        FsbState { bins: self.bins@.map_values(|b: Vec<usize>| b@), fallback: self.fallback@ }
    }
}

impl Allocator {
    /// The allocator invariant over this allocator's own state.
    pub open spec fn wf(&self) -> bool {
        state_wf(self@)
    }

    /// Create a new, empty allocator with an empty fallback.
    pub fn empty() -> (r: Self)
        ensures
            r.wf(),
            r@.fallback =~= Seq::<Region>::empty(),
            forall|i: int| 0 <= i < BIN_COUNT ==> (#[trigger] r@.bins[i]).len() == 0,
    {
        let mut bins: Vec<Vec<usize>> = Vec::new();
        while bins.len() < BIN_COUNT
            invariant
                forall|i: int| 0 <= i < bins@.len() ==> (#[trigger] bins@[i])@.len() == 0,
                bins@.len() <= BIN_COUNT,
            decreases BIN_COUNT - bins.len(),
        {
            bins.push(Vec::new());
        }
        let r = Allocator { bins, fallback: linked_list::Allocator::empty() };
        proof {
            assert(forall|i: int|
                0 <= i < BIN_COUNT ==> (#[trigger] r@.bins[i]) == bins@[i]@);
        }
        r
    }

    /// Establish the heap bounds by handing the whole range to the
    /// fallback allocator; called exactly once, on an empty allocator,
    /// after provisioning. The bins start empty and fill as blocks flow
    /// through them.
    pub fn init(&mut self, heap_start: usize, heap_size: usize)
        requires
            old(self).wf(),
            old(self)@.fallback.len() == 0,
            forall|i: int| 0 <= i < BIN_COUNT ==> (#[trigger] old(self)@.bins[i]).len() == 0,
            heap_size >= NODE_SIZE,
            heap_start as int % NODE_ALIGN as int == 0,
            heap_start + heap_size <= usize::MAX,
        ensures
            final(self).wf(),
            final(self)@.bins == old(self)@.bins,
            final(self)@.fallback =~= seq![Region { start: heap_start, size: heap_size }],
    {
        self.fallback.init(heap_start, heap_size);
    }

    /// The block size of class `i`, a power of two that also serves as the
    /// class's alignment.
    pub fn block_size(i: usize) -> (r: usize)
        requires
            i < BIN_COUNT,
        ensures
            r == spec_block_size(i as int),
            is_pow2(r),
            NODE_ALIGN <= r <= 2048,
    {
        proof {
            vstd::arithmetic::power2::lemma2_to64();
        }
        if i == 0 {
            8
        } else if i == 1 {
            16
        } else if i == 2 {
            32
        } else if i == 3 {
            64
        } else if i == 4 {
            128
        } else if i == 5 {
            256
        } else if i == 6 {
            512
        } else if i == 7 {
            1024
        } else {
            2048
        }
    }

    /// The class that serves a `(size, align)` request, if any: the
    /// smallest class at least `max(size, align)`.
    pub fn list_index(size: usize, align: usize) -> (r: Option<usize>)
        ensures
            r matches Some(i) ==> spec_list_index(size, align) == Option::Some(i as int) && i
                < BIN_COUNT,
            r is None ==> spec_list_index(size, align) is None,
    {
        let required: usize = if size > align {
            size
        } else {
            align
        };
        if required <= 8 {
            Some(0)
        } else if required <= 16 {
            Some(1)
        } else if required <= 32 {
            Some(2)
        } else if required <= 64 {
            Some(3)
        } else if required <= 128 {
            Some(4)
        } else if required <= 256 {
            Some(5)
        } else if required <= 512 {
            Some(6)
        } else if required <= 1024 {
            Some(7)
        } else if required <= 2048 {
            Some(8)
        } else {
            None
        }
    }

    /// Pop the most recently freed block of class `i`, if the bin has one.
    fn bin_pop(&mut self, i: usize) -> (r: Option<usize>)
        requires
            old(self)@.bins.len() == BIN_COUNT,
            i < BIN_COUNT,
        ensures
            final(self)@.bins.len() == BIN_COUNT,
            final(self)@.fallback == old(self)@.fallback,
            old(self)@.bins[i as int].len() > 0 ==> r == Some(old(self)@.bins[i as int].last())
                && final(self)@.bins == old(self)@.bins.update(
                i as int,
                old(self)@.bins[i as int].drop_last(),
            ),
            old(self)@.bins[i as int].len() == 0 ==> r is None && final(self)@.bins == old(
                self,
            )@.bins,
    {
        let ghost pre = self@.bins;
        let mut bin = self.bins.remove(i);
        let r = bin.pop();
        self.bins.insert(i, bin);
        proof {
            assert(self.bins@ =~= old(self).bins@.update(i as int, bin));
            assert(self@.bins =~= pre.update(i as int, bin@));
            if pre[i as int].len() == 0 {
                assert(self@.bins =~= pre);
            }
        }
        r
    }

    /// Push a freed block onto its class's bin; it becomes the next block
    /// that class hands out.
    fn bin_push(&mut self, i: usize, addr: usize)
        requires
            old(self)@.bins.len() == BIN_COUNT,
            i < BIN_COUNT,
        ensures
            final(self)@.bins.len() == BIN_COUNT,
            final(self)@.fallback == old(self)@.fallback,
            final(self)@.bins == old(self)@.bins.update(
                i as int,
                old(self)@.bins[i as int].push(addr),
            ),
    {
        let ghost pre = self@.bins;
        let mut bin = self.bins.remove(i);
        bin.push(addr);
        self.bins.insert(i, bin);
        proof {
            assert(self.bins@ =~= old(self).bins@.update(i as int, bin));
            assert(self@.bins =~= pre.update(i as int, bin@));
        }
    }

    /// Allocate `size` bytes aligned to `align`, or report exhaustion.
    ///
    /// An in-class request pops its bin's head block in O(1); an empty bin
    /// is refilled by splitting a block of the next larger class in two
    /// halves, or by one fresh class-sized block from the fallback
    /// allocator. An oversized request bypasses the bins. When the
    /// fallback is exhausted, every bin is drained back into it and the
    /// request is retried exactly once; only if the retry also fails does
    /// the allocation fail.
    ///
    /// The smallest class is never refilled by splitting: its blocks own a
    /// full header's worth of backing store, which half a block of the
    /// next class cannot supply.
    pub fn allocate(&mut self, size: usize, align: usize) -> (r: Option<usize>)
        requires
            old(self).wf(),
            request_valid(size, align),
        ensures
            final(self).wf(),
            r matches Some(a) ==> ({
                let g = spec_granted(size, align);
                &&& a as int % align as int == 0
                &&& size <= g
                &&& a + g <= usize::MAX
                &&& (forall|x: int|
                    a <= x < a + g ==> state_free(old(self)@, x) && !state_free(final(self)@, x))
                &&& (forall|x: int| state_free(final(self)@, x) ==> state_free(old(self)@, x))
            }),
            r is None ==> (forall|x: int|
                state_free(final(self)@, x) <==> state_free(old(self)@, x)),
            spec_try_allocate(old(self)@, size, align) matches Some(p) ==> (r == Some(p.1)
                && final(self)@ == p.0),
            r is None ==> spec_try_allocate(old(self)@, size, align) is None && (forall|j: int|
                0 <= j < BIN_COUNT ==> (#[trigger] final(self)@.bins[j]).len() == 0)
                && spec_fallback_exhausted(final(self)@.fallback, size, align),
    {
        let ghost s0 = self@;
        match Self::list_index(size, align) {
            Some(i) => {
                proof {
                    lemma_class_bounds(size, align, i as int);
                    if s0.bins[i as int].len() > 0 {
                        lemma_bin_pop_wf(s0, i as int);
                    }
                }
                if let Some(addr) = self.bin_pop(i) {
                    proof {
                        lemma_class_alignment(addr, size, align, i as int);
                        assert(final(self)@ =~= spec_bin_hit_step(s0, i as int).0);
                    }
                    return Some(addr);
                }
                if 1 <= i && i < LAST_BIN {
                    let ghost s1 = self@;
                    proof {
                        assert(s1 =~= s0);
                        if s1.bins[i as int + 1].len() > 0 {
                            lemma_bin_pop_wf(s1, i as int + 1);
                        }
                    }
                    if let Some(block) = self.bin_pop(i + 1) {
                        let bs = Self::block_size(i);
                        proof {
                            lemma_class_bounds_backing(i as int);
                            lemma_class_bounds_backing(i as int + 1);
                            lemma_split_correctness(i as int, block);
                            lemma_class_alignment(block, size, align, i as int);
                            lemma_bin_push_wf(self@, (block + bs) as usize, i as int);
                        }
                        self.bin_push(i, block + bs);
                        return Some(block);
                    }
                }
                let bs = Self::block_size(i);
                proof {
                    lemma_class_request(i as int);
                    lemma_class_bounds_backing(i as int);
                }
                let ghost s2 = self@;
                proof {
                    assert(s2 =~= s0);
                }
                if let Some(addr) = self.fallback_alloc(bs, bs) {
                    proof {
                        lemma_class_alignment(addr, size, align, i as int);
                    }
                    return Some(addr);
                }
                // Out-of-memory recovery: give every binned block back to
                // the fallback and retry the class-sized request once.
                self.drain_bins();
                let r = self.fallback_alloc(bs, bs);
                proof {
                    if r is Some {
                        lemma_class_alignment(r->Some_0, size, align, i as int);
                    }
                }
                r
            },
            None => {
                proof {
                    linked_list::lemma_adjusted_props(size, align);
                    lemma_pow2_positive(align);
                }
                if let Some(addr) = self.fallback_alloc(size, align) {
                    proof {
                        lemma_aligned_to_divisor(
                            addr as int,
                            spec_adjusted_align(align) as int,
                            align as int,
                        );
                    }
                    return Some(addr);
                }
                // Out-of-memory recovery, as above, for the oversized
                // request itself.
                self.drain_bins();
                let r = self.fallback_alloc(size, align);
                proof {
                    if r is Some {
                        lemma_aligned_to_divisor(
                            r->Some_0 as int,
                            spec_adjusted_align(align) as int,
                            align as int,
                        );
                    }
                }
                r
            },
        }
    }

    /// Free the block at `addr`: write it at the head of its class's bin
    /// (O(1), no coalescing across bins by design — fragmentation is
    /// bounded by the class granularity), or hand an out-of-class block to
    /// the fallback allocator's free path.
    ///
    /// The `(size, align)` pair must be the one given to the matching
    /// `allocate` call, and the block must not already be free.
    pub fn deallocate(&mut self, addr: usize, size: usize, align: usize)
        requires
            old(self).wf(),
            request_valid(size, align),
            spec_free_ok(old(self)@, addr, size, align),
        ensures
            final(self).wf(),
            final(self)@ == spec_free_step(old(self)@, addr, size, align),
            forall|x: int|
                state_free(final(self)@, x) <==> (state_free(old(self)@, x) || addr <= x < addr
                    + spec_granted(size, align)),
    {
        let ghost s0 = self@;
        match Self::list_index(size, align) {
            Some(i) => {
                proof {
                    lemma_bin_push_wf(s0, addr, i as int);
                }
                self.bin_push(i, addr);
            },
            None => {
                proof {
                    linked_list::lemma_adjusted_props(size, align);
                    lemma_aligned_to_divisor(
                        addr as int,
                        spec_adjusted_align(align) as int,
                        NODE_ALIGN as int,
                    );
                    assert forall|x: int|
                        addr <= x < addr + spec_adjusted_size(size, align) implies !covers(
                        s0.fallback,
                        x,
                    ) by {
                        assert(!state_free(s0, x));
                    }
                    lemma_fallback_insert_wf(
                        s0,
                        addr,
                        spec_adjusted_size(size, align) as usize,
                    );
                }
                self.fallback.deallocate(addr, size, align);
            },
        }
    }

    /// Allocate a region using the fallback allocator, reported as an
    /// optional address.
    fn fallback_alloc(&mut self, size: usize, align: usize) -> (r: Option<usize>)
        requires
            old(self).wf(),
            request_valid(size, align),
        ensures
            final(self).wf(),
            final(self)@.bins == old(self)@.bins,
            r matches Some(a) ==> ({
                let step = spec_alloc_adjusted(
                    old(self)@.fallback,
                    spec_adjusted_size(size, align),
                    spec_adjusted_align(align) as int,
                );
                step.1 == Option::Some(a as int) && final(self)@.fallback == step.0
            }),
            r matches Some(a) ==> a as int % spec_adjusted_align(align) as int == 0 && a
                + spec_adjusted_size(size, align) <= usize::MAX && (forall|x: int|
                a <= x < a + spec_adjusted_size(size, align) ==> state_free(old(self)@, x)
                    && !state_free(final(self)@, x)) && (forall|x: int|
                state_free(final(self)@, x) ==> state_free(old(self)@, x)),
            r is None ==> final(self)@ == old(self)@ && linked_list::spec_first_fit(
                old(self)@.fallback,
                spec_adjusted_size(size, align),
                spec_adjusted_align(align) as int,
            ) is None,
    {
        let ghost s0 = self@;
        proof {
            linked_list::lemma_alloc_covers(s0.fallback, size, align);
            linked_list::lemma_adjusted_props(size, align);
        }
        match self.fallback.alloc_first_fit(size, align) {
            Ok(p) => {
                proof {
                    // The granted bytes leave the free set; every block in
                    // a bin lay outside the fallback's regions and stays
                    // outside the shrunk list.
                    assert forall|i2: int, k2: int|
                        0 <= i2 < self@.bins.len() && 0 <= k2
                            < self@.bins[i2].len() implies range_uncovered(
                        self@.fallback,
                        (#[trigger] self@.bins[i2][k2]) as int,
                        spec_block_backing(i2),
                    ) by {
                        let b = s0.bins[i2][k2];
                        assert forall|x: int|
                            b <= x < b + spec_block_backing(i2) implies !covers(
                            self@.fallback,
                            x,
                        ) by {
                            assert(range_uncovered(
                                s0.fallback,
                                b as int,
                                spec_block_backing(i2),
                            ));
                            assert(!covers(s0.fallback, x));
                        }
                    }
                }
                Some(p)
            },
            Err(_) => None,
        }
    }

    /// Drain every non-empty bin back into the fallback allocator: the
    /// out-of-memory recovery pass. Frees nothing for the caller and loses
    /// nothing — the same bytes stay free, now all in the fallback's
    /// regions.
    fn drain_bins(&mut self)
        requires
            old(self).wf(),
        ensures
            final(self).wf(),
            forall|i: int| 0 <= i < BIN_COUNT ==> (#[trigger] final(self)@.bins[i]).len() == 0,
            forall|x: int| state_free(final(self)@, x) <==> state_free(old(self)@, x),
    {
        let ghost s0 = self@;
        let mut i: usize = 0;
        while i < BIN_COUNT
            invariant
                self.wf(),
                0 <= i <= BIN_COUNT,
                forall|j: int| 0 <= j < i ==> (#[trigger] self@.bins[j]).len() == 0,
                forall|x: int| state_free(self@, x) <==> state_free(s0, x),
            decreases BIN_COUNT - i,
        {
            let block_size = Self::block_size(i);
            while self.bins[i].len() > 0
                invariant
                    self.wf(),
                    i < BIN_COUNT,
                    block_size == spec_block_size(i as int),
                    forall|j: int| 0 <= j < i ==> (#[trigger] self@.bins[j]).len() == 0,
                    forall|x: int| state_free(self@, x) <==> state_free(s0, x),
                decreases self@.bins[i as int].len(),
            {
                let ghost s1 = self@;
                proof {
                    lemma_bin_pop_wf(s1, i as int);
                }
                let addr = match self.bin_pop(i) {
                    Some(a) => a,
                    None => 0,
                };
                proof {
                    lemma_class_bounds_backing(i as int);
                    lemma_class_request(i as int);
                    linked_list::lemma_adjusted_props(block_size, block_size);
                    lemma_aligned_to_divisor(
                        addr as int,
                        spec_block_size(i as int),
                        NODE_ALIGN as int,
                    );
                    assert forall|x: int|
                        addr <= x < addr + spec_block_backing(i as int) implies !state_free(
                        self@,
                        x,
                    ) by {}
                    assert forall|x: int|
                        addr <= x < addr + spec_adjusted_size(block_size, block_size) implies !covers(
                        self@.fallback,
                        x,
                    ) by {
                        assert(!state_free(self@, x));
                    }
                    lemma_fallback_insert_wf(self@, addr, spec_block_backing(i as int) as usize);
                }
                self.fallback.deallocate(addr, block_size, block_size);
            }
            i = i + 1;
        }
    }
}

/// A block aligned to class `i` is aligned to the request it serves.
proof fn lemma_class_alignment(addr: usize, size: usize, align: usize, i: int)
    requires
        spec_list_index(size, align) == Option::Some(i),
        is_pow2(align),
        addr as int % spec_block_size(i) == 0,
    ensures
        addr as int % align as int == 0,
{
    lemma_class_bounds(size, align, i);
    linked_list::lemma_pow2_divides(align, spec_block_size(i) as usize);
    lemma_pow2_positive(align);
    lemma_aligned_to_divisor(addr as int, spec_block_size(i), align as int);
}

/// Split correctness: a block of class `i + 1` is two blocks of class `i`
/// laid end to end — the class sizes double, and both halves carry the
/// smaller class's alignment.
pub proof fn lemma_split_correctness(i: int, b: usize)
    requires
        0 <= i < LAST_BIN,
        b as int % spec_block_size(i + 1) == 0,
    ensures
        spec_block_size(i) + spec_block_size(i) == spec_block_size(i + 1),
        b as int % spec_block_size(i) == 0,
        (b + spec_block_size(i)) % spec_block_size(i) == 0,
{
    let bs = spec_block_size(i);
    vstd::arithmetic::div_mod::lemma_mod_multiples_basic(2, bs);
    assert(2 * bs == bs + bs);
    lemma_aligned_to_divisor(b as int, spec_block_size(i + 1), bs);
    vstd::arithmetic::div_mod::lemma_mod_multiples_basic(1, bs);
    assert(1 * bs == bs);
    vstd::arithmetic::div_mod::lemma_add_mod_noop(b as int, bs, bs);
}

/// Round-trip reuse (in-class requests): whatever block an allocation of
/// a class request handed out, freeing it with the same layout pushes it
/// onto its class's LIFO bin, so allocating the same layout again returns
/// the very same block and restores the state the free began from. An
/// oversized request delegates verbatim to the fallback allocator, whose
/// own round-trip law covers it.
pub proof fn lemma_round_trip_reuse(s1: FsbState, a: usize, size: usize, align: usize, i: int)
    requires
        spec_list_index(size, align) == Option::Some(i),
        0 <= i < s1.bins.len(),
    ensures
        ({
            let s2 = spec_free_step(s1, a, size, align);
            &&& s2.bins[i].len() > 0
            &&& spec_bin_hit_step(s2, i).1 == a
            &&& spec_bin_hit_step(s2, i).0 == s1
            &&& spec_try_allocate(s2, size, align) == Option::Some((s1, a))
        }),
{
    let s2 = spec_free_step(s1, a, size, align);
    assert(s2.bins[i] == s1.bins[i].push(a));
    assert(s2.bins[i].last() == a);
    assert(s2.bins[i].drop_last() =~= s1.bins[i]);
    assert(s2.bins.update(i, s2.bins[i].drop_last()) =~~= s1.bins);
    assert(spec_bin_hit_step(s2, i).0 =~~= s1);
}

/// Drain-then-retry liveness, the half about live memory: across any
/// allocation step — including one that drains the bins and retries — a
/// live block, one none of whose bytes are free, stays out of the free
/// set, and a successfully granted range never overlaps it. The other
/// half, that the allocation succeeds or fails cleanly with the free
/// bytes unchanged, is the `allocate` contract itself.
pub proof fn lemma_live_block_preserved(
    s0: FsbState,
    s1: FsbState,
    a: int,
    g: int,
    laddr: int,
    lsize: int,
)
    requires
        forall|x: int| laddr <= x < laddr + lsize ==> !state_free(s0, x),
        forall|x: int| state_free(s1, x) ==> state_free(s0, x),
        forall|x: int| a <= x < a + g ==> state_free(s0, x),
    ensures
        forall|x: int| laddr <= x < laddr + lsize ==> !state_free(s1, x),
        lsize <= 0 || g <= 0 || laddr + lsize <= a || a + g <= laddr,
{
    if lsize > 0 && g > 0 && !(laddr + lsize <= a || a + g <= laddr) {
        let x = lemma_ranges_meet(laddr, lsize, a, g);
        assert(state_free(s0, x));
        assert(!state_free(s0, x));
    }
}

/// The block size facts needed without a request: class `i`'s block is a
/// header-aligned power of two and its backing is at least a header.
proof fn lemma_class_bounds_backing(i: int)
    requires
        0 <= i < BIN_COUNT,
    ensures
        is_pow2(spec_block_size(i) as usize),
        NODE_ALIGN <= spec_block_size(i) <= 2048,
        NODE_SIZE <= spec_block_backing(i),
        spec_block_size(i) <= spec_block_backing(i),
        spec_block_backing(i) as int % NODE_ALIGN as int == 0,
        spec_block_size(i) as int % NODE_ALIGN as int == 0,
{
    vstd::arithmetic::power2::lemma2_to64();
}

} // verus!

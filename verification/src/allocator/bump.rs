//! Monotonic bump allocator: a watermark that only moves downward through
//! the heap, trading reclamation completeness for O(1) operations and no
//! per-free bookkeeping. Freed memory is recovered immediately only when it
//! was the most recent allocation; otherwise it is leaked until every
//! outstanding allocation has been returned, at which point the whole heap
//! is reclaimed at once.
use vstd::prelude::*;

use crate::allocator::align_down;
use crate::allocator::is_pow2;
use crate::allocator::spec_align_down;

verus! {

/// Bump-allocator state: fixed heap bounds, the downward watermark `next`,
/// and the count of outstanding allocations.
pub struct Allocator {
    pub heap_start: usize,
    pub heap_end: usize,
    pub next: usize,
    pub allocations: usize,
}

/// What one `allocate(size, align)` call does to a bump state: subtract
/// `size` from the watermark, round down to `align`, and commit the new
/// watermark unless it would sink below `heap_start`.
pub open spec fn spec_allocate(s: Allocator, size: usize, align: usize) -> (Allocator, Option<
    usize,
>) {
    if s.next < size {
        (s, None)
    } else {
        let a = spec_align_down(s.next - size, align as int);
        if a < s.heap_start {
            (s, None)
        } else {
            (
                Allocator {
                    heap_start: s.heap_start,
                    heap_end: s.heap_end,
                    next: a as usize,
                    allocations: (s.allocations + 1) as usize,
                },
                Some(a as usize),
            )
        }
    }
}

/// What one `deallocate(addr, size)` call does to a bump state: the count
/// drops; the watermark advances over the block if it was the most recent
/// allocation, resets to `heap_end` once nothing is outstanding, and
/// otherwise stays (the block is leaked until the count reaches zero).
pub open spec fn spec_deallocate(s: Allocator, addr: usize, size: usize) -> Allocator {
    let remaining = (s.allocations - 1) as usize;
    if addr == s.next {
        Allocator {
            heap_start: s.heap_start,
            heap_end: s.heap_end,
            next: (s.next + size) as usize,
            allocations: remaining,
        }
    } else if remaining == 0 {
        Allocator {
            heap_start: s.heap_start,
            heap_end: s.heap_end,
            next: s.heap_end,
            allocations: remaining,
        }
    } else {
        Allocator {
            heap_start: s.heap_start,
            heap_end: s.heap_end,
            next: s.next,
            allocations: remaining,
        }
    }
}

/// `deallocate(addr, size)` may only be called on a state with something
/// outstanding, and only with the `(addr, size)` pair of an earlier
/// allocation; of that history this is what the bump strategy itself can
/// check: advancing the watermark over the most recent block stays in the
/// heap.
pub open spec fn spec_free_ok(s: Allocator, addr: usize, size: usize) -> bool {
    s.allocations >= 1 && (addr == s.next ==> addr + size <= s.heap_end)
}

impl Allocator {
    /// The watermark lies within the heap bounds.
    pub open spec fn wf(&self) -> bool {
        self.heap_start <= self.next <= self.heap_end
    }

    /// Create a new empty bump allocator.
    pub fn empty() -> (r: Self)
        ensures
            r.wf(),
            r.heap_start == 0,
            r.heap_end == 0,
            r.next == 0,
            r.allocations == 0,
    {
        Allocator { heap_start: 0, heap_end: 0, next: 0, allocations: 0 }
    }

    /// Establish the heap bounds; called exactly once, after the range
    /// `[heap_start, heap_start + heap_size)` has been provisioned. The
    /// watermark starts at the top.
    pub fn init(&mut self, heap_start: usize, heap_size: usize)
        requires
            heap_start + heap_size <= usize::MAX,
        ensures
            final(self).heap_start == heap_start,
            final(self).heap_end == heap_start + heap_size,
            final(self).next == heap_start + heap_size,
            final(self).allocations == old(self).allocations,
            final(self).wf(),
    {
        self.heap_start = heap_start;
        self.heap_end = heap_start + heap_size;
        self.next = self.heap_end;
    }

    /// Allocate `size` bytes aligned to `align`, or report exhaustion.
    pub fn allocate(&mut self, size: usize, align: usize) -> (r: Option<usize>)
        requires
            old(self).wf(),
            is_pow2(align),
            old(self).allocations < usize::MAX,
        ensures
            (*final(self), r) == spec_allocate(*old(self), size, align),
            final(self).wf(),
            r matches Some(a) ==> a as int % align as int == 0 && old(self).heap_start <= a && a
                + size <= old(self).next && final(self).next == a && final(self).allocations == old(
                self,
            ).allocations + 1,
            r is None ==> *final(self) == *old(self),
    {
        let new_ptr = match self.next.checked_sub(size) {
            Some(start) => start,
            None => {
                return None;
            },
        };
        let alloc_start = align_down(new_ptr, align);
        if alloc_start < self.heap_start {
            None
        } else {
            self.next = alloc_start;
            self.allocations = self.allocations + 1;
            Some(alloc_start)
        }
    }

    /// Return the block at `addr` of the given `size`; both must be exactly
    /// what the matching `allocate` call was given and returned.
    pub fn deallocate(&mut self, addr: usize, size: usize)
        requires
            old(self).wf(),
            spec_free_ok(*old(self), addr, size),
        ensures
            *final(self) == spec_deallocate(*old(self), addr, size),
            final(self).wf(),
            final(self).allocations == old(self).allocations - 1,
            final(self).heap_start == old(self).heap_start,
            final(self).heap_end == old(self).heap_end,
    {
        self.allocations = self.allocations - 1;
        if self.next == addr {
            // The most recent allocation: reuse it immediately.
            self.next = self.next + size;
        } else if self.allocations == 0 {
            // Nothing outstanding any more: the whole heap is reclaimable.
            self.next = self.heap_end;
        }
    }
}

/// Round-trip reuse: allocating a block, freeing it, and immediately
/// re-allocating the same layout returns the same address.
pub proof fn lemma_round_trip_reuse(s: Allocator, size: usize, align: usize)
    requires
        s.wf(),
        is_pow2(align),
        s.allocations < usize::MAX,
    ensures
        ({
            let (s1, r) = spec_allocate(s, size, align);
            r matches Some(a) ==> {
                let s2 = spec_deallocate(s1, a, size);
                spec_free_ok(s1, a, size) && spec_allocate(s2, size, align).1 == Some(a)
            }
        }),
{
    let (s1, r) = spec_allocate(s, size, align);
    if r is Some {
        crate::allocator::lemma_pow2_positive(align);
        let a = spec_align_down(s.next - size, align as int) as usize;
        crate::allocator::lemma_align_down_bounds(s.next - size, align as int);
        let s2 = spec_deallocate(s1, a, size);
        assert(s2.next == a + size);
        // The watermark sits `size` above an `align`-aligned address, so the
        // retried subtraction and rounding land exactly on `a` again.
        crate::allocator::lemma_round_down_unique(a as int, align as int, a as int);
    }
}

/// The cumulative effect of a list of `deallocate` calls, first call first.
pub open spec fn apply_frees(s: Allocator, fs: Seq<(usize, usize)>) -> Allocator
    decreases fs.len(),
{
    if fs.len() == 0 {
        s
    } else {
        apply_frees(spec_deallocate(s, fs[0].0, fs[0].1), fs.subrange(1, fs.len() as int))
    }
}

/// Every call in the list meets `spec_free_ok` in the state it runs in.
pub open spec fn frees_ok(s: Allocator, fs: Seq<(usize, usize)>) -> bool
    decreases fs.len(),
{
    fs.len() == 0 || (spec_free_ok(s, fs[0].0, fs[0].1) && frees_ok(
        spec_deallocate(s, fs[0].0, fs[0].1),
        fs.subrange(1, fs.len() as int),
    ))
}

/// Folding one more free onto the end of the list is one more
/// `spec_deallocate` step.
proof fn lemma_apply_frees_snoc(s: Allocator, fs: Seq<(usize, usize)>, x: (usize, usize))
    ensures
        apply_frees(s, fs.push(x)) == spec_deallocate(apply_frees(s, fs), x.0, x.1),
    decreases fs.len(),
{
    let g = fs.push(x);
    if fs.len() == 0 {
        assert(g[0] == x);
        assert(g.subrange(1, g.len() as int) =~= Seq::<(usize, usize)>::empty());
        assert(apply_frees(s, g) == spec_deallocate(s, x.0, x.1)) by {
            reveal_with_fuel(apply_frees, 2);
        }
        assert(apply_frees(s, fs) == s);
    } else {
        assert(g[0] == fs[0]);
        assert(g.subrange(1, g.len() as int) =~= fs.subrange(1, fs.len() as int).push(x));
        lemma_apply_frees_snoc(
            spec_deallocate(s, fs[0].0, fs[0].1),
            fs.subrange(1, fs.len() as int),
            x,
        );
    }
}

/// A valid list of frees stays valid when its last call is dropped.
proof fn lemma_frees_ok_unsnoc(s: Allocator, fs: Seq<(usize, usize)>, x: (usize, usize))
    requires
        frees_ok(s, fs.push(x)),
    ensures
        frees_ok(s, fs),
        spec_free_ok(apply_frees(s, fs), x.0, x.1),
    decreases fs.len(),
{
    if fs.len() == 0 {
        assert(fs.push(x)[0] == x);
    } else {
        assert(fs.push(x)[0] == fs[0]);
        assert(fs.push(x).subrange(1, fs.push(x).len() as int) =~= fs.subrange(
            1,
            fs.len() as int,
        ).push(x));
        lemma_frees_ok_unsnoc(spec_deallocate(s, fs[0].0, fs[0].1), fs.subrange(1, fs.len() as int), x);
    }
}

/// A list of frees lowers the outstanding count by its length and never
/// moves the heap bounds.
proof fn lemma_apply_frees_count(s: Allocator, fs: Seq<(usize, usize)>)
    requires
        frees_ok(s, fs),
        s.allocations >= fs.len(),
    ensures
        apply_frees(s, fs).allocations == s.allocations - fs.len(),
        apply_frees(s, fs).heap_start == s.heap_start,
        apply_frees(s, fs).heap_end == s.heap_end,
    decreases fs.len(),
{
    if fs.len() > 0 {
        lemma_apply_frees_count(
            spec_deallocate(s, fs[0].0, fs[0].1),
            fs.subrange(1, fs.len() as int),
        );
    }
}

/// Bump conservation: after N allocations are all freed again, the
/// outstanding count is back to zero and the watermark is back at
/// `heap_end` — for every order of frees but one: a last free absorbed by
/// the watermark-reuse shortcut advances the watermark only over the
/// block itself, so alignment padding below it stays lost.
pub proof fn lemma_bump_conservation(s: Allocator, fs: Seq<(usize, usize)>)
    requires
        s.wf(),
        frees_ok(s, fs),
        fs.len() >= 1,
        s.allocations == fs.len(),
        apply_frees(s, fs.drop_last()).next != fs.last().0 || fs.last().0 + fs.last().1
            == s.heap_end,
    ensures
        apply_frees(s, fs).allocations == 0,
        apply_frees(s, fs).next == s.heap_end,
{
    let pre = fs.drop_last();
    let x = fs.last();
    assert(fs =~= pre.push(x));
    lemma_frees_ok_unsnoc(s, pre, x);
    lemma_apply_frees_count(s, pre);
    let t = apply_frees(s, pre);
    lemma_apply_frees_snoc(s, pre, x);
    assert(apply_frees(s, fs) == spec_deallocate(t, x.0, x.1));
}

} // verus!

//! Physical-frame bookkeeping for the heap's backing store: a free list
//! of usable frames built once from the boot information's memory map.
//!
//! A bare-metal build threads the list through the frames themselves at
//! their mapped virtual addresses; here the list is a stack of those
//! virtual addresses, `physical + offset` for each usable frame, and the
//! link-following survives as plain pushes and pops.
use vstd::prelude::*;

verus! {

/// Bytes per physical frame.
pub const FRAME_SIZE: u64 = 4096;

/// The boot-time frame allocator: the offset at which physical memory is
/// mapped, and the virtual addresses of the free frames, most recently
/// freed on top.
pub struct ListFrameAllocator {
    pub phys_mem_offset: u64,
    pub next_free: Vec<u64>,
}

impl ListFrameAllocator {
    /// Every listed address lies in the mapped physical window, so its
    /// physical address can be recovered by subtracting the offset.
    pub open spec fn wf(&self) -> bool {
        forall|k: int|
            0 <= k < self.next_free@.len() ==> (#[trigger] self.next_free@[k])
                >= self.phys_mem_offset
    }

    /// Build the free list from the usable physical frame addresses the
    /// memory map lists, each reachable at `physical + offset`. The first
    /// frame given is the first one handed out.
    pub fn init(phys_mem_offset: u64, frames: &Vec<u64>) -> (r: Self)
        requires
            forall|k: int|
                0 <= k < frames@.len() ==> (#[trigger] frames@[k]) + phys_mem_offset <= u64::MAX,
        ensures
            r.wf(),
            r.phys_mem_offset == phys_mem_offset,
            r.next_free@.len() == frames@.len(),
            forall|k: int|
                0 <= k < frames@.len() ==> r.next_free@[frames@.len() - 1 - k] == frames@[k]
                    + phys_mem_offset,
    {
        let mut next_free: Vec<u64> = Vec::new();
        let n = frames.len();
        let mut k: usize = n;
        while k > 0
            invariant
                k <= n,
                n == frames@.len(),
                forall|j: int|
                    0 <= j < frames@.len() ==> (#[trigger] frames@[j]) + phys_mem_offset
                        <= u64::MAX,
                next_free@.len() == n - k,
                forall|j: int|
                    k <= j < n ==> next_free@[n - 1 - j] == (#[trigger] frames@[j])
                        + phys_mem_offset,
                forall|j: int|
                    0 <= j < next_free@.len() ==> (#[trigger] next_free@[j]) >= phys_mem_offset,
            decreases k,
        {
            k = k - 1;
            next_free.push(frames[k] + phys_mem_offset);
        }
        ListFrameAllocator { phys_mem_offset, next_free }
    }

    /// Hand out the frame at the head of the list, as its physical start
    /// address, or report exhaustion.
    pub fn allocate_frame(&mut self) -> (r: Option<u64>)
        requires
            old(self).wf(),
        ensures
            final(self).wf(),
            final(self).phys_mem_offset == old(self).phys_mem_offset,
            old(self).next_free@.len() > 0 ==> r == Some(
                (old(self).next_free@.last() - old(self).phys_mem_offset) as u64,
            ) && final(self).next_free@ == old(self).next_free@.drop_last(),
            old(self).next_free@.len() == 0 ==> r is None && final(self).next_free@ == old(
                self,
            ).next_free@,
    {
        match self.next_free.pop() {
            None => None,
            Some(virt_addr) => Some(virt_addr - self.phys_mem_offset),
        }
    }

    /// Put the frame with the given physical start address back at the
    /// head of the list.
    pub fn deallocate_frame(&mut self, frame: u64)
        requires
            old(self).wf(),
            frame + old(self).phys_mem_offset <= u64::MAX,
        ensures
            final(self).wf(),
            final(self).phys_mem_offset == old(self).phys_mem_offset,
            final(self).next_free@ == old(self).next_free@.push(
                (frame + old(self).phys_mem_offset) as u64,
            ),
    {
        let virt_addr = frame + self.phys_mem_offset;
        self.next_free.push(virt_addr);
    }
}

} // verus!

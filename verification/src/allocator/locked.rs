//! Mutual-exclusion wrapper: the sole gate in front of one allocation
//! strategy instance, so that it can serve as the global allocation
//! source.
//!
//! On a bare-metal target with no scheduler to park on, the guard is a
//! busy-wait spin lock acquired for the full duration of each call and
//! released on every exit path. This model serializes the same way
//! through the exclusive `&mut` borrow, which gives each call the same
//! strict sequential pre- and postconditions; no strategy method can be
//! reached except through the wrapper.
use vstd::prelude::*;

use crate::allocator::bump;
use crate::allocator::fixed_size_block;
use crate::allocator::fixed_size_block::spec_free_ok;
use crate::allocator::fixed_size_block::spec_free_step;
use crate::allocator::fixed_size_block::spec_granted;
use crate::allocator::fixed_size_block::state_free;
use crate::allocator::is_pow2;
use crate::allocator::linked_list;
use crate::allocator::linked_list::covers;
use crate::allocator::linked_list::range_uncovered;
use crate::allocator::linked_list::request_valid;
use crate::allocator::linked_list::spec_adjusted_align;
use crate::allocator::linked_list::spec_adjusted_size;
use crate::allocator::linked_list::spec_alloc_adjusted;
use crate::allocator::linked_list::spec_insert;

verus! {

/// One strategy instance behind an exclusive guard.
pub struct Locked<A> {
    pub inner: A,
}

impl<A> Locked<A> {
    /// Wrap a strategy instance.
    pub fn new(inner: A) -> (r: Self)
        ensures
            r.inner == inner,
    {
        Locked { inner }
    }

    /// Exclusive access to the wrapped instance for the duration of one
    /// call.
    pub fn lock(&mut self) -> (r: &mut A)
        ensures
            *r == old(self).inner,
            *final(self) == (Locked { inner: *final(r) }),
    {
        &mut self.inner
    }
}

impl Locked<bump::Allocator> {
    /// Serialized allocation against the bump strategy.
    pub fn allocate(&mut self, size: usize, align: usize) -> (r: Option<usize>)
        requires
            old(self).inner.wf(),
            is_pow2(align),
            old(self).inner.allocations < usize::MAX,
        ensures
            final(self).inner.wf(),
            (final(self).inner, r) == bump::spec_allocate(old(self).inner, size, align),
            r is None ==> final(self).inner == old(self).inner,
    {
        let inner = self.lock();
        inner.allocate(size, align)
    }

    /// Serialized free against the bump strategy; the alignment of the
    /// original layout is not needed to give a block back.
    pub fn deallocate(&mut self, addr: usize, size: usize, _align: usize)
        requires
            old(self).inner.wf(),
            bump::spec_free_ok(old(self).inner, addr, size),
        ensures
            final(self).inner.wf(),
            final(self).inner == bump::spec_deallocate(old(self).inner, addr, size),
    {
        let inner = self.lock();
        inner.deallocate(addr, size);
    }
}

impl Locked<linked_list::Allocator> {
    /// Serialized allocation against the free-list strategy; exhaustion
    /// is reported as an absent address.
    pub fn allocate(&mut self, size: usize, align: usize) -> (r: Option<usize>)
        requires
            old(self).inner.wf(),
            request_valid(size, align),
        ensures
            final(self).inner.wf(),
            ({
                let size2 = spec_adjusted_size(size, align);
                let align2 = spec_adjusted_align(align) as int;
                let step = spec_alloc_adjusted(old(self).inner@, size2, align2);
                &&& (r matches Some(a) ==> step.1 == Option::Some(a as int) && final(self).inner@
                    == step.0 && a as int % align as int == 0)
                &&& (r is None ==> step.1 is None && final(self).inner@ == old(self).inner@)
            }),
    {
        let inner = self.lock();
        match inner.alloc_first_fit(size, align) {
            Ok(p) => Some(p),
            Err(_) => None,
        }
    }

    /// Serialized free against the free-list strategy.
    pub fn deallocate(&mut self, addr: usize, size: usize, align: usize)
        requires
            old(self).inner.wf(),
            request_valid(size, align),
            addr as int % spec_adjusted_align(align) as int == 0,
            addr + spec_adjusted_size(size, align) <= usize::MAX,
            range_uncovered(old(self).inner@, addr as int, spec_adjusted_size(size, align)),
        ensures
            final(self).inner.wf(),
            final(self).inner@ == spec_insert(
                old(self).inner@,
                addr,
                spec_adjusted_size(size, align) as usize,
            ),
            forall|x: int|
                covers(final(self).inner@, x) <==> (covers(old(self).inner@, x) || addr <= x < addr
                    + spec_adjusted_size(size, align)),
    {
        let inner = self.lock();
        inner.deallocate(addr, size, align);
    }
}

impl Locked<fixed_size_block::Allocator> {
    /// Serialized allocation against the fixed-size-block strategy;
    /// exhaustion after the drain-and-retry pass is reported as an absent
    /// address.
    pub fn allocate(&mut self, size: usize, align: usize) -> (r: Option<usize>)
        requires
            old(self).inner.wf(),
            request_valid(size, align),
        ensures
            final(self).inner.wf(),
            r matches Some(a) ==> ({
                let g = spec_granted(size, align);
                &&& a as int % align as int == 0
                &&& size <= g
                &&& a + g <= usize::MAX
                &&& (forall|x: int|
                    a <= x < a + g ==> state_free(old(self).inner@, x) && !state_free(
                        final(self).inner@,
                        x,
                    ))
                &&& (forall|x: int|
                    state_free(final(self).inner@, x) ==> state_free(old(self).inner@, x))
            }),
            r is None ==> (forall|x: int|
                state_free(final(self).inner@, x) <==> state_free(old(self).inner@, x)),
            fixed_size_block::spec_try_allocate(old(self).inner@, size, align) matches Some(p)
                ==> (r == Some(p.1) && final(self).inner@ == p.0),
            r is None ==> fixed_size_block::spec_try_allocate(old(self).inner@, size, align)
                is None && fixed_size_block::spec_fallback_exhausted(
                final(self).inner@.fallback,
                size,
                align,
            ),
    {
        let inner = self.lock();
        inner.allocate(size, align)
    }

    /// Serialized free against the fixed-size-block strategy.
    pub fn deallocate(&mut self, addr: usize, size: usize, align: usize)
        requires
            old(self).inner.wf(),
            request_valid(size, align),
            spec_free_ok(old(self).inner@, addr, size, align),
        ensures
            final(self).inner.wf(),
            final(self).inner@ == spec_free_step(old(self).inner@, addr, size, align),
            forall|x: int|
                state_free(final(self).inner@, x) <==> (state_free(old(self).inner@, x) || addr <= x
                    < addr + spec_granted(size, align)),
    {
        let inner = self.lock();
        inner.deallocate(addr, size, align);
    }
}

} // verus!

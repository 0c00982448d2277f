//! Shared ground of the three allocation strategies: the build-time heap
//! bounds, power-of-two alignment, and the bitwise rounding helpers that
//! every strategy uses to place allocations.
use vstd::prelude::*;

pub mod bump;
pub mod fixed_size_block;
pub mod linked_list;
pub mod locked;

verus! {

use vstd::arithmetic::div_mod::lemma_fundamental_div_mod;
use vstd::arithmetic::div_mod::lemma_fundamental_div_mod_converse;
use vstd::arithmetic::div_mod::lemma_mod_bound;
use vstd::arithmetic::div_mod::lemma_mod_multiples_basic;
use vstd::arithmetic::mul::lemma_mul_is_associative;
use vstd::arithmetic::mul::lemma_mul_is_commutative;
use vstd::arithmetic::power2::lemma_pow2_pos;
use vstd::arithmetic::power2::pow2;
use vstd::bits::lemma_usize_low_bits_mask_is_mod;
use vstd::bits::low_bits_mask;

/// Base virtual address of the kernel heap, fixed at build time and shared
/// with the provisioning code that maps the range before `init` runs. Held
/// as a `u64` so that the 64-bit virtual address stays portable.
pub const HEAP_START: u64 = 0x4444_4444_0000;

/// Byte size of the kernel heap, fixed at build time.
pub const HEAP_SIZE: usize = 100 * 1024;

/// `align` is a usable alignment: a power of two that a `usize` can hold.
pub open spec fn is_pow2(align: usize) -> bool {
    exists|n: nat| n < usize::BITS && align == pow2(n)
}

/// The least multiple of `align` that is at least `addr`.
pub open spec fn spec_align_up(addr: int, align: int) -> int {
    ((addr + align - 1) / align) * align
}

/// The greatest multiple of `align` that is at most `addr`.
pub open spec fn spec_align_down(addr: int, align: int) -> int {
    (addr / align) * align
}

/// A power of two is at least one.
pub proof fn lemma_pow2_positive(align: usize)
    requires
        is_pow2(align),
    ensures
        align >= 1,
{
    let n = choose|n: nat| n < usize::BITS && align == pow2(n);
    lemma_pow2_pos(n);
}

/// A number with remainder 0 that sits in a half-open window of width
/// `align` around its bound is the unique rounding in that direction.
pub proof fn lemma_round_up_unique(addr: int, align: int, r: int)
    requires
        align > 0,
        r % align == 0,
        addr <= r < addr + align,
    ensures
        r == spec_align_up(addr, align),
{
    let k = r / align;
    lemma_fundamental_div_mod(r, align);
    lemma_mul_is_commutative(align, k);
    assert(r == k * align);
    let x = addr + align - 1;
    lemma_fundamental_div_mod_converse(x, align, k, x - r);
}

pub proof fn lemma_round_down_unique(addr: int, align: int, r: int)
    requires
        align > 0,
        r % align == 0,
        addr - align < r <= addr,
    ensures
        r == spec_align_down(addr, align),
{
    let k = r / align;
    lemma_fundamental_div_mod(r, align);
    lemma_mul_is_commutative(align, k);
    assert(r == k * align);
    lemma_fundamental_div_mod_converse(addr, align, k, addr - r);
}

/// Rounding up lands within `align - 1` bytes above `addr` and on a
/// multiple of `align`.
pub proof fn lemma_align_up_bounds(addr: int, align: int)
    requires
        align > 0,
        addr >= 0,
    ensures
        addr <= spec_align_up(addr, align) < addr + align,
        spec_align_up(addr, align) % align == 0,
{
    let x = addr + align - 1;
    let q = x / align;
    lemma_fundamental_div_mod(x, align);
    lemma_mod_bound(x, align);
    lemma_mul_is_commutative(align, q);
    assert(q * align == x - x % align);
    lemma_mod_multiples_basic(q, align);
}

/// Rounding down lands within `align - 1` bytes below `addr` and on a
/// multiple of `align`.
pub proof fn lemma_align_down_bounds(addr: int, align: int)
    requires
        align > 0,
    ensures
        addr - align < spec_align_down(addr, align) <= addr,
        spec_align_down(addr, align) % align == 0,
{
    let q = addr / align;
    lemma_fundamental_div_mod(addr, align);
    lemma_mod_bound(addr, align);
    lemma_mul_is_commutative(align, q);
    assert(q * align == addr - addr % align);
    lemma_mod_multiples_basic(q, align);
}

/// Clearing the low bits of `x` with the mask of a power-of-two `align`
/// is exactly the arithmetic rounding down to `align`.
pub proof fn lemma_mask_is_align_down(x: usize, align: usize)
    requires
        is_pow2(align),
    ensures
        (x & !((align - 1) as usize)) == spec_align_down(x as int, align as int),
{
    let n = choose|n: nat| n < usize::BITS && align == pow2(n);
    lemma_pow2_pos(n);
    assert((align - 1) as usize == low_bits_mask(n) as usize);
    lemma_usize_low_bits_mask_is_mod(x, n);
    let m = (align - 1) as usize;
    assert(x == (x & !m) + (x & m)) by (bit_vector);
    let q = x as int / align as int;
    lemma_fundamental_div_mod(x as int, align as int);
    lemma_mul_is_commutative(align as int, q);
    assert(q * align == x - x % align);
}

/// An address aligned to a power of two leaves headroom: the largest
/// aligned `usize` is `align - 1` below the ceiling, so `a + align - 1`
/// never overflows.
pub proof fn lemma_aligned_headroom(a: usize, align: usize)
    requires
        is_pow2(align),
        a as int % align as int == 0,
    ensures
        a + align - 1 <= usize::MAX,
{
    let n = choose|n: nat| n < usize::BITS && align == pow2(n);
    lemma_pow2_pos(n);
    assert((align - 1) as usize == low_bits_mask(n) as usize);
    lemma_usize_low_bits_mask_is_mod(a, n);
    lemma_usize_low_bits_mask_is_mod(align, n);
    lemma_mod_multiples_basic(1, align as int);
    assert(1 * (align as int) == align as int);
    // With the low bits of `a` clear, adding the mask is a bitwise or, and
    // the result is itself a machine word.
    assert((a | ((align - 1) as usize)) == a + align - 1) by (bit_vector)
        requires
            align != 0,
            a & ((align - 1) as usize) == 0,
    ;
}

/// Align the given address upwards to `align`, a power of two.
///
/// This is the placement step of every strategy: the first admissible
/// address at or above `addr`.
#[inline(always)]
pub fn align_up(addr: usize, align: usize) -> (r: usize)
    requires
        is_pow2(align),
        addr + align - 1 <= usize::MAX,
    ensures
        r == spec_align_up(addr as int, align as int),
        addr <= r < addr + align,
        r as int % align as int == 0,
{
    proof {
        lemma_pow2_positive(align);
        lemma_mask_is_align_down(((addr + align - 1) as usize), align);
        lemma_align_up_bounds(addr as int, align as int);
        assert(spec_align_up(addr as int, align as int) == spec_align_down(
            (addr + align - 1) as int,
            align as int,
        ));
    }
    (addr + (align - 1)) & !(align - 1)
}

/// Align the given address downwards to `align`, a power of two.
#[inline(always)]
pub fn align_down(addr: usize, align: usize) -> (r: usize)
    requires
        is_pow2(align),
    ensures
        r == spec_align_down(addr as int, align as int),
        addr - align < r <= addr,
        r as int % align as int == 0,
{
    proof {
        lemma_pow2_positive(align);
        lemma_mask_is_align_down(addr, align);
        lemma_align_down_bounds(addr as int, align as int);
    }
    addr & !(align - 1)
}

/// `align` divides `r` exactly when the divisor is itself divisible:
/// a value aligned to a larger power of two is aligned to a smaller one.
pub proof fn lemma_aligned_to_divisor(r: int, big: int, small: int)
    requires
        big > 0,
        small > 0,
        r % big == 0,
        big % small == 0,
    ensures
        r % small == 0,
{
    let k = r / big;
    lemma_fundamental_div_mod(r, big);
    assert(r == big * k);
    let m = big / small;
    lemma_fundamental_div_mod(big, small);
    assert(big == small * m);
    lemma_mul_is_commutative(small * m, k);
    lemma_mul_is_associative(k, small, m);
    lemma_mul_is_commutative(k, small);
    lemma_mul_is_associative(small, k, m);
    assert(r == small * (k * m));
    lemma_mul_is_commutative(small, k * m);
    lemma_mod_multiples_basic(k * m, small);
}

} // verus!

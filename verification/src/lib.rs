//! Heap-allocation engine for a freestanding kernel, modelled over plain
//! addresses: three interchangeable strategies (a monotonic bump allocator,
//! a coalescing address-ordered free-list allocator, and a segregated
//! fixed-size-block allocator with a free-list fallback) behind a single
//! serializing wrapper, together with the small hardware-facing value types
//! of the surrounding kernel (interrupt table entries, the text screen).
//!
//! Memory itself is out of reach of a hosted library, so every allocator
//! works on region descriptors: a heap is the address range
//! `[heap_start, heap_end)` handed to `init`, a free region is a
//! `(start, size)` pair, and allocation returns an address. The invariants
//! that the in-place headers of a bare-metal build must preserve (sortedness,
//! coalescing, class alignment) are stated and proved over these descriptors.
pub mod allocator;
pub mod idt;
pub mod interrupts;
pub mod memory;
pub mod vga;

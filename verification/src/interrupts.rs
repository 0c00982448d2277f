//! The hardware interrupt lines this kernel listens to, as vector
//! numbers: the two chained programmable interrupt controllers are
//! remapped to vectors 32-47, clear of the CPU exceptions below 32.
use vstd::prelude::*;

verus! {

/// First vector of the primary interrupt controller after remapping.
pub const PIC_1_OFFSET: u8 = 32;

/// First vector of the secondary interrupt controller after remapping.
pub const PIC_2_OFFSET: u8 = PIC_1_OFFSET + 8;

/// The interrupt lines with handlers: the timer tick and the keyboard.
#[derive(Clone, Copy, Debug, PartialEq, Eq, Structural)]
pub enum InterruptIndex {
    Timer,
    Keyboard,
}

impl InterruptIndex {
    /// The line's vector number: the timer sits on the controller's first
    /// line, the keyboard on the next.
    pub open spec fn spec_vector(self) -> u8 {
        match self {
            InterruptIndex::Timer => PIC_1_OFFSET,
            InterruptIndex::Keyboard => (PIC_1_OFFSET + 1) as u8,
        }
    }

    /// The vector number, as written to the controller.
    pub fn as_u8(self) -> (r: u8)
        ensures
            r == self.spec_vector(),
    {
        match self {
            InterruptIndex::Timer => PIC_1_OFFSET,
            InterruptIndex::Keyboard => PIC_1_OFFSET + 1,
        }
    }

    /// The vector number, as an index into the descriptor table.
    pub fn as_usize(self) -> (r: usize)
        ensures
            r == self.spec_vector(),
    {
        self.as_u8() as usize
    }
}

} // verus!

//! Interrupt-descriptor-table entries as plain values: the 64-bit
//! descriptor's fields and its 16-bit options word with the documented
//! bit layout, set bit by bit.
//!
//! Bits   Name                             Description
//! 0-2    Interrupt Stack Table Index      0: don't switch stacks, 1-7:
//!                                         switch to the n-th stack in the
//!                                         Interrupt Stack Table when this
//!                                         handler is called.
//! 3-7    Reserved
//! 8      0: Interrupt Gate,               If this bit is 0, interrupts
//!        1: Trap Gate                     are disabled when this handler
//!                                         is called.
//! 9-11   Must be one
//! 12     Must be zero
//! 13-14  Descriptor Privilege Level       The minimal privilege level
//!                                         required for calling this
//!                                         handler.
//! 15     Present
use vstd::prelude::*;

verus! {

/// The x86 privilege ring a descriptor may be reached from.
#[derive(Clone, Copy, Debug, PartialEq, Eq, Structural)]
pub enum PrivilegeLevel {
    Ring0,
    Ring1,
    Ring2,
    Ring3,
}

impl PrivilegeLevel {
    /// The ring's two-bit number.
    pub open spec fn spec_code(self) -> u16 {
        match self {
            PrivilegeLevel::Ring0 => 0,
            PrivilegeLevel::Ring1 => 1,
            PrivilegeLevel::Ring2 => 2,
            PrivilegeLevel::Ring3 => 3,
        }
    }

    /// The ring's two-bit number.
    pub fn code(self) -> (r: u16)
        ensures
            r == self.spec_code(),
            r < 4,
    {
        match self {
            PrivilegeLevel::Ring0 => 0,
            PrivilegeLevel::Ring1 => 1,
            PrivilegeLevel::Ring2 => 2,
            PrivilegeLevel::Ring3 => 3,
        }
    }
}

/// One interrupt-descriptor-table entry: the handler address in three
/// parts around the selector and options words.
#[derive(Clone, Copy, Debug, PartialEq, Eq, Structural)]
pub struct Entry {
    pub ptr_low: u16,
    pub gdt_selector: u16,
    pub options: EntryOptions,
    pub ptr_middle: u16,
    pub ptr_high: u32,
    pub reserved: u32,
}

/// The 16-bit options word of an entry.
#[derive(Clone, Copy, Debug, PartialEq, Eq, Structural)]
pub struct EntryOptions(pub u16);

impl EntryOptions {
    /// Options with only the must-be-one bits 9-11 set and everything
    /// else clear.
    pub fn minimal() -> (r: Self)
        ensures
            r.0 == 0xE00,
    {
        EntryOptions(0b1110_0000_0000)
    }

    /// Set or clear bit 8: cleared, the handler runs as an interrupt gate
    /// with interrupts masked; set, as a trap gate that keeps them.
    pub fn disable_interrupts(&mut self, disable: bool)
        ensures
            final(self).0 & 0x100 == (if disable {
                0u16
            } else {
                0x100u16
            }),
            final(self).0 & !0x100u16 == old(self).0 & !0x100u16,
    {
        let v = self.0;
        if disable {
            proof {
                assert((v & !0x100u16) & 0x100u16 == 0 && (v & !0x100u16) & !0x100u16 == v
                    & !0x100u16) by (bit_vector);
            }
            self.0 = v & !0x100u16;
        } else {
            proof {
                assert((v | 0x100u16) & 0x100u16 == 0x100u16 && (v | 0x100u16) & !0x100u16 == v
                    & !0x100u16) by (bit_vector);
            }
            self.0 = v | 0x100u16;
        }
    }

    /// Set bits 13-14 to the minimal privilege level required for calling
    /// the handler.
    pub fn set_privilege_level(&mut self, dpl: PrivilegeLevel)
        ensures
            final(self).0 & 0x6000 == dpl.spec_code() * 0x2000,
            final(self).0 & !0x6000u16 == old(self).0 & !0x6000u16,
    {
        let v = self.0;
        let c = dpl.code();
        proof {
            assert(((v & !0x6000u16) | (c << 13)) & 0x6000u16 == c * 0x2000 && ((v & !0x6000u16) | (
            c << 13)) & !0x6000u16 == v & !0x6000u16) by (bit_vector)
                requires
                    c < 4,
            ;
        }
        self.0 = (v & !0x6000u16) | (c << 13);
    }

    /// Set bits 0-2 to `index + 1`, choosing the `index`-th stack of the
    /// Interrupt Stack Table; the caller must know the index is valid.
    pub fn set_stack_index(&mut self, index: u16)
        requires
            index < 7,
        ensures
            final(self).0 & 7 == index + 1,
            final(self).0 & !7u16 == old(self).0 & !7u16,
    {
        let v = self.0;
        proof {
            assert(((v & !7u16) | ((index + 1) as u16)) & 7 == index + 1 && ((v & !7u16) | ((index
                + 1) as u16)) & !7u16 == v & !7u16) by (bit_vector)
                requires
                    index < 7,
            ;
        }
        self.0 = (v & !7u16) | (index + 1);
    }
}

} // verus!

use firstos::idt::EntryOptions;
use firstos::idt::PrivilegeLevel;
use firstos::interrupts::InterruptIndex;
use firstos::interrupts::PIC_1_OFFSET;
use firstos::interrupts::PIC_2_OFFSET;

#[test]
fn minimal_options_set_only_the_must_be_one_bits() {
    assert_eq!(EntryOptions::minimal().0, 0x0E00);
}

#[test]
fn interrupt_gate_bit_follows_the_flag() {
    let mut o = EntryOptions::minimal();
    o.disable_interrupts(false);
    assert_eq!(o.0, 0x0F00, "a trap gate keeps interrupts enabled");
    o.disable_interrupts(true);
    assert_eq!(o.0, 0x0E00, "an interrupt gate masks them again");
}

#[test]
fn privilege_level_lands_in_bits_13_14() {
    let mut o = EntryOptions::minimal();
    o.set_privilege_level(PrivilegeLevel::Ring3);
    assert_eq!(o.0, 0x6E00);
    o.set_privilege_level(PrivilegeLevel::Ring1);
    assert_eq!(o.0, 0x2E00);
    o.set_privilege_level(PrivilegeLevel::Ring0);
    assert_eq!(o.0, 0x0E00);
}

#[test]
fn stack_index_is_stored_plus_one() {
    let mut o = EntryOptions::minimal();
    o.set_stack_index(0);
    assert_eq!(o.0, 0x0E01, "the table index 0 selects the first stack");
    o.set_stack_index(4);
    assert_eq!(o.0, 0x0E05);
}

#[test]
fn option_setters_leave_other_bits_alone() {
    let mut o = EntryOptions::minimal();
    o.set_stack_index(2);
    o.set_privilege_level(PrivilegeLevel::Ring2);
    o.disable_interrupts(false);
    assert_eq!(o.0, 0x4F03);
}

#[test]
fn interrupt_vectors_follow_the_remapped_controller() {
    assert_eq!(PIC_1_OFFSET, 32);
    assert_eq!(PIC_2_OFFSET, 40);
    assert_eq!(InterruptIndex::Timer.as_u8(), 32);
    assert_eq!(InterruptIndex::Keyboard.as_u8(), 33);
    assert_eq!(InterruptIndex::Timer.as_usize(), 32);
    assert_eq!(InterruptIndex::Keyboard.as_usize(), 33);
}

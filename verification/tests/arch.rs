use rust_os::arch::x86_64::debugcon::{DebugCon, DEBUGCON_PORT};
use rust_os::arch::x86_64::gdt::{SegmentSelectors, TaskStateSegmentLayout};
use rust_os::arch::x86_64::idt::{InterruptDescriptorTableLayout, InterruptVector};
use rust_os::arch::x86_64::interrupts::{IdtEntry, INTERRUPT_GATE_PRESENT, KERNEL_CODE_SELECTOR};
use rust_os::arch::x86_64::paging::higher_half_alias_addr;
use rust_os::arch::x86_64::timer::{TimerControl, PIT_DEFAULT_DIVISOR};
use rust_os::console::hex_u64_trimmed;
use rust_os::kernel::runtime::{image_addr_to_runtime_virt, RuntimeImageCopy};
use rust_os::memory::PageSpan;

#[test]
fn kernel_selectors_follow_the_flat_gdt() {
    let selectors = SegmentSelectors::kernel_flat();
    assert_eq!((selectors.code, selectors.data, selectors.tss), (0x08, 0x10, 0x18));
    let tss = TaskStateSegmentLayout::empty();
    assert_eq!((tss.rsp0, tss.ist1), (0, 0));
}

#[test]
fn interrupt_vectors_and_timer_defaults() {
    assert_eq!(InterruptVector::Breakpoint.number(), 3);
    assert_eq!(InterruptVector::TimerIrq.number(), 32);
    let layout = InterruptDescriptorTableLayout::minimal();
    assert_eq!((layout.breakpoint_vector, layout.timer_vector), (3, 32));
    let timer = TimerControl::legacy_default();
    assert_eq!(timer.irq_vector, 32);
    assert_eq!(timer.divisor, PIT_DEFAULT_DIVISOR);
    assert_eq!(DebugCon::new().port(), DEBUGCON_PORT);
}

#[test]
fn interrupt_gate_splits_the_handler_address() {
    let entry = IdtEntry::new(0xffff_8000_1234_5678, KERNEL_CODE_SELECTOR);
    assert_eq!(entry.offset_low, 0x5678);
    assert_eq!(entry.offset_middle, 0x1234);
    assert_eq!(entry.offset_high, 0xffff_8000);
    assert_eq!(entry.selector, 8);
    assert_eq!(entry.type_attributes, INTERRUPT_GATE_PRESENT);
    let missing = IdtEntry::missing();
    assert_eq!(missing.type_attributes, 0);
}

#[test]
fn alias_addresses_below_the_alias_have_no_higher_half_address() {
    assert_eq!(higher_half_alias_addr(0x1000, 0x20_0000), None);
    assert_eq!(higher_half_alias_addr(0x20_0000, 0x20_0000), Some(0xffff_8000_0000_0000));
    assert_eq!(higher_half_alias_addr(u64::MAX, 0), None);
}

#[test]
fn fault_values_print_without_leading_zeros() {
    assert_eq!(hex_u64_trimmed(0), b"0".to_vec());
    assert_eq!(hex_u64_trimmed(0xbeef), b"beef".to_vec());
    assert_eq!(hex_u64_trimmed(0x1_0000_0000), b"100000000".to_vec());
}

#[test]
fn image_addresses_move_into_the_runtime_copy() {
    let copy = RuntimeImageCopy {
        backing_span: PageSpan::new(16, 4).unwrap(),
        image_size: 0x4000,
        runtime_virt_base: 0xffff_8000_0100_0000,
    };
    assert_eq!(image_addr_to_runtime_virt(0x1_0123, &copy, 0x1_0000, 0x4000), Some(0xffff_8000_0100_0123));
    assert_eq!(image_addr_to_runtime_virt(0xffff_8000_0100_0040, &copy, 0x1_0000, 0x4000), Some(0xffff_8000_0100_0040));
    assert_eq!(image_addr_to_runtime_virt(0x1_4000, &copy, 0x1_0000, 0x4000), None);
    assert_eq!(image_addr_to_runtime_virt(0x1_0000, &copy, u64::MAX, 1), None);
}

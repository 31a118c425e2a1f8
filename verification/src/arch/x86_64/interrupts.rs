//! Interrupt-gate descriptors.

use vstd::prelude::*;

verus! {

/// Present, ring-0, 64-bit interrupt gate.
pub const INTERRUPT_GATE_PRESENT: u8 = 0x8e;
pub const PAGE_FAULT_VECTOR: usize = 14;
pub const DOUBLE_FAULT_VECTOR: usize = 8;
pub const INVALID_OPCODE_VECTOR: usize = 6;
pub const KERNEL_CODE_SELECTOR: u16 = 8;
pub const KERNEL_DATA_SELECTOR: u16 = 16;

/// One gate of the interrupt descriptor table.
#[derive(Clone, Copy, Debug, PartialEq, Eq, Structural)]
pub struct IdtEntry {
    pub offset_low: u16,
    pub selector: u16,
    pub ist: u8,
    pub type_attributes: u8,
    pub offset_middle: u16,
    pub offset_high: u32,
    pub reserved: u32,
}

impl IdtEntry {
    /// A gate that is not present.
    pub fn missing() -> (entry: Self)
        ensures
            entry == (IdtEntry {
                offset_low: 0,
                selector: 0,
                ist: 0,
                type_attributes: 0,
                offset_middle: 0,
                offset_high: 0,
                reserved: 0,
            }),
    {
        IdtEntry { offset_low: 0, selector: 0, ist: 0, type_attributes: 0, offset_middle: 0, offset_high: 0, reserved: 0 }
    }

    /// A present interrupt gate to `handler` through `selector`, the handler's address
    /// split into its low 16, middle 16 and high 32 bits.
    pub fn new(handler: u64, selector: u16) -> (entry: Self)
        ensures
            entry.offset_low == handler % 0x1_0000,
            entry.offset_middle == (handler / 0x1_0000) % 0x1_0000,
            entry.offset_high == handler / 0x1_0000_0000,
            entry.selector == selector,
            entry.ist == 0,
            entry.type_attributes == INTERRUPT_GATE_PRESENT,
            entry.reserved == 0,
            entry.offset_low + 0x1_0000 * entry.offset_middle + 0x1_0000_0000 * entry.offset_high == handler,
    {
        let low = (handler & 0xffff) as u16;
        let middle = ((handler >> 16) & 0xffff) as u16;
        let high = (handler >> 32) as u32;
        assert(handler & 0xffff == handler % 0x1_0000) by (bit_vector);
        assert((handler >> 16) & 0xffff == (handler / 0x1_0000) % 0x1_0000) by (bit_vector);
        assert(handler >> 32 == handler / 0x1_0000_0000) by (bit_vector);
        assert(handler >> 32 < 0x1_0000_0000) by (bit_vector);
        IdtEntry {
            offset_low: low,
            selector,
            ist: 0,
            type_attributes: INTERRUPT_GATE_PRESENT,
            offset_middle: middle,
            offset_high: high,
            reserved: 0,
        }
    }
}

} // verus!

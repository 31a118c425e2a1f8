//! Segment selectors and descriptor-table layouts.

use vstd::prelude::*;

verus! {

/// The selectors of the kernel's flat code, data and task-state segments.
#[derive(Clone, Copy, Debug, PartialEq, Eq, Structural)]
pub struct SegmentSelectors {
    pub code: u16,
    pub data: u16,
    pub tss: u16,
}

impl SegmentSelectors {
    /// Code in the first descriptor after the null one, data in the second, the task
    /// state in the third.
    pub fn kernel_flat() -> (selectors: Self)
        ensures
            selectors.code == 0x08,
            selectors.data == 0x10,
            selectors.tss == 0x18,
    {
        SegmentSelectors { code: 0x08, data: 0x10, tss: 0x18 }
    }
}

/// The operand of `lgdt` and `lidt`.
#[derive(Clone, Copy, Debug, PartialEq, Eq, Structural)]
pub struct DescriptorTablePointer {
    pub base: u64,
    pub limit: u16,
}

/// The stacks a task-state segment names.
#[derive(Clone, Copy, Debug, PartialEq, Eq, Structural)]
pub struct TaskStateSegmentLayout {
    pub rsp0: u64,
    pub ist1: u64,
}

impl TaskStateSegmentLayout {
    pub fn empty() -> (layout: Self)
        ensures
            layout.rsp0 == 0,
            layout.ist1 == 0,
    {
        TaskStateSegmentLayout { rsp0: 0, ist1: 0 }
    }
}

} // verus!

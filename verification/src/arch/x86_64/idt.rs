//! Interrupt vectors the kernel handles.

use vstd::prelude::*;

verus! {

#[derive(Clone, Copy, Debug, PartialEq, Eq, Structural)]
pub enum InterruptVector {
    Breakpoint,
    TimerIrq,
}

impl InterruptVector {
    pub open spec fn spec_number(self) -> u8 {
        match self {
            InterruptVector::Breakpoint => 3,
            InterruptVector::TimerIrq => 32,
        }
    }

    /// The vector number: 3 for breakpoints, 32 for the timer interrupt.
    pub fn number(self) -> (number: u8)
        ensures
            number == self.spec_number(),
    {
        match self {
            InterruptVector::Breakpoint => 3,
            InterruptVector::TimerIrq => 32,
        }
    }
}

/// A handler installed for a vector.
#[derive(Clone, Copy, Debug, PartialEq, Eq, Structural)]
pub struct InterruptHandlerRegistration {
    pub vector: InterruptVector,
    pub handler_addr: u64,
}

/// The vectors of the minimal interrupt table.
#[derive(Clone, Copy, Debug, PartialEq, Eq, Structural)]
pub struct InterruptDescriptorTableLayout {
    pub breakpoint_vector: u8,
    pub timer_vector: u8,
}

impl InterruptDescriptorTableLayout {
    pub fn minimal() -> (layout: Self)
        ensures
            layout.breakpoint_vector == InterruptVector::Breakpoint.spec_number(),
            layout.timer_vector == InterruptVector::TimerIrq.spec_number(),
    {
        InterruptDescriptorTableLayout {
            breakpoint_vector: InterruptVector::Breakpoint.number(),
            timer_vector: InterruptVector::TimerIrq.number(),
        }
    }
}

} // verus!

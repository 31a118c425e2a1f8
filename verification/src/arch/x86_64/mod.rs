//! x86_64: descriptor tables, interrupts, the timer, paging activation and the
//! debug console.

pub mod debugcon;
pub mod gdt;
pub mod idt;
pub mod interrupts;
pub mod paging;
pub mod timer;

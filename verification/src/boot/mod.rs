//! What the firmware hands the loader, and what the loader hands the kernel.

pub mod handoff;
pub mod uefi;

//! The UEFI loader's logic: the kernel's ELF image, the early memory layout, the
//! page tables it builds for the kernel and the hand-off.

pub mod elf;
pub mod handoff;
pub mod kernel_image;
pub mod memory;
pub mod paging;

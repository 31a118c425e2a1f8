//! Verified core of a small x86_64 UEFI boot loader and higher-half kernel:
//! physical memory maps, a bitmap page-frame allocator, four-level page tables,
//! ELF program-header parsing and the loader's early memory layout.

use vstd::prelude::*;

pub mod arch;
pub mod boot;
pub mod bytes;
pub mod console;
pub mod kernel;
pub mod loader;
pub mod memory;

pub use memory::paging::table::KERNEL_BOOT_PHYS_BASE;

verus! {

/// Where the build places the bootable disk image.
pub const BOOT_IMAGE_PATH: &'static str = "bin/hello-boot.img";
/// The UEFI firmware image the runner uses when none is named.
pub const DEFAULT_OVMF_CODE: &'static str = "/usr/local/share/qemu/edk2-x86_64-code.fd";
/// The greeting the kernel prints.
pub const HELLO_WORLD: &'static str = "hello world";
/// Where the loader sits on the EFI system partition.
pub const LOADER_EFI_PATH: &'static str = "EFI/BOOT/LOADER.EFI";
/// Where the kernel image sits on the EFI system partition.
pub const KERNEL_IMAGE_PATH: &'static str = "EFI/BOOT/KERNEL.BIN";
/// First line the loader writes to the serial port.
pub const LOADER_SERIAL_BANNER: &'static [u8; 18] = &[108, 111, 97, 100, 101, 114, 32, 98, 111, 111, 116, 32, 105, 110, 102, 111, 13, 10];
/// First line the kernel writes to the serial port.
pub const KERNEL_SERIAL_BANNER: &'static [u8; 13] = &[107, 101, 114, 110, 101, 108, 32, 115, 116, 117, 98, 13, 10];
/// What the runner reports when the boot image has not been built.
pub const RUN_MISSING_IMAGE_ERROR: &'static str = "missing boot image: run `make build` first";
/// What the runner reports when it finds no UEFI firmware.
pub const RUN_MISSING_FIRMWARE_ERROR: &'static str = "missing UEFI firmware: set OVMF_CODE=/path/to/firmware";

} // verus!

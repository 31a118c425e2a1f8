//! The kernel image's runtime copy in the higher half.

use vstd::prelude::*;

use crate::memory::map::PageSpan;

verus! {

/// Where the running kernel image was copied: the frames that back it, its size
/// and its higher-half base.
#[derive(Clone, Copy, Debug, PartialEq, Eq, Structural)]
pub struct RuntimeImageCopy {
    pub backing_span: PageSpan,
    pub image_size: u64,
    pub runtime_virt_base: u64,
}

/// Where an address of the loaded image lives in the runtime copy: addresses already
/// in the copy stay; addresses of the loaded image (at `loaded_base`, of
/// `size_of_image` bytes) move by the copy's offset; any other address has no place.
pub fn image_addr_to_runtime_virt(addr: u64, copy: &RuntimeImageCopy, loaded_base: u64, size_of_image: u64) -> (virt: Option<u64>)
    ensures
        loaded_base + size_of_image > u64::MAX || copy.runtime_virt_base + copy.image_size > u64::MAX ==> virt is None,
        loaded_base + size_of_image <= u64::MAX && copy.runtime_virt_base + copy.image_size <= u64::MAX ==> {
            &&& copy.runtime_virt_base <= addr < copy.runtime_virt_base + copy.image_size ==> virt == Some(addr)
            &&& !(copy.runtime_virt_base <= addr < copy.runtime_virt_base + copy.image_size) && !(loaded_base <= addr < loaded_base
                + size_of_image) ==> virt is None
            &&& !(copy.runtime_virt_base <= addr < copy.runtime_virt_base + copy.image_size) && loaded_base <= addr < loaded_base
                + size_of_image ==> virt == if copy.runtime_virt_base + (addr - loaded_base) <= u64::MAX {
                Some((copy.runtime_virt_base + (addr - loaded_base)) as u64)
            } else {
                None
            }
        },
{
    let image_end = match loaded_base.checked_add(size_of_image) {
        Some(v) => v,
        None => {
            return None;
        },
    };
    let runtime_image_end = match copy.runtime_virt_base.checked_add(copy.image_size) {
        Some(v) => v,
        None => {
            return None;
        },
    };
    if addr >= copy.runtime_virt_base && addr < runtime_image_end {
        return Some(addr);
    }
    if addr < loaded_base || addr >= image_end {
        return None;
    }
    copy.runtime_virt_base.checked_add(addr - loaded_base)
}

} // verus!

//! Switching to a new root table.

use vstd::prelude::*;

use crate::memory::paging::address_space::KernelMappingTemplate;
use crate::memory::paging::table::KERNEL_VIRT_BASE;

verus! {

/// What the switch to the kernel's tables needs: the root, where to continue and on
/// which stack, the runtime context, and the transition alias to remove afterwards.
#[derive(Clone, Copy, Debug, PartialEq, Eq, Structural)]
pub struct ActivationPlan {
    pub root_table_phys_addr: u64,
    pub higher_half_entry_addr: u64,
    pub higher_half_stack_top: u64,
    pub runtime_context_addr: u64,
    pub transition_alias_start: u64,
    pub transition_alias_page_count: usize,
}

impl ActivationPlan {
    /// The plan for the given root, entry, stack and context, taking the transition
    /// alias from the template.
    pub fn from_template(
        root_table_phys_addr: u64,
        higher_half_entry_addr: u64,
        higher_half_stack_top: u64,
        runtime_context_addr: u64,
        template: &KernelMappingTemplate,
    ) -> (plan: Self)
        ensures
            plan == (ActivationPlan {
                root_table_phys_addr,
                higher_half_entry_addr,
                higher_half_stack_top,
                runtime_context_addr,
                transition_alias_start: template.transition_alias_start,
                transition_alias_page_count: template.transition_alias_page_count,
            }),
    {
        ActivationPlan {
            root_table_phys_addr,
            higher_half_entry_addr,
            higher_half_stack_top,
            runtime_context_addr,
            transition_alias_start: template.transition_alias_start,
            transition_alias_page_count: template.transition_alias_page_count,
        }
    }
}

/// The higher-half address of `low_addr` in the transition alias: its offset from the
/// alias start, above the higher-half base; none below the alias start or past the
/// top of the address space.
pub fn higher_half_alias_addr(low_addr: u64, transition_alias_start: u64) -> (addr: Option<u64>)
    ensures
        low_addr < transition_alias_start ==> addr is None,
        low_addr >= transition_alias_start && KERNEL_VIRT_BASE + (low_addr - transition_alias_start) <= u64::MAX
            ==> addr == Some((KERNEL_VIRT_BASE + (low_addr - transition_alias_start)) as u64),
        low_addr >= transition_alias_start && KERNEL_VIRT_BASE + (low_addr - transition_alias_start) > u64::MAX
            ==> addr is None,
{
    match low_addr.checked_sub(transition_alias_start) {
        Some(offset) => KERNEL_VIRT_BASE.checked_add(offset),
        None => None,
    }
}

} // verus!

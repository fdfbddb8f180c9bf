use vstd::prelude::*;

pub mod acpi;
pub mod apfs_jumpstart;
pub mod arm64_stage1_tables;
pub mod boot_config;
pub mod boot_picker;
pub mod config;
pub mod bytes;
pub mod device_props;
pub mod error;
pub mod firmware_dt;
pub mod flat_dt;
pub mod guest_memory;
pub mod handoff;
pub mod kc_classic_rebase;
pub mod kc_fixup_audit;
pub mod kc_staging;
pub mod kernel_collection;
pub mod kext;
pub mod mach_o;
pub mod macho_image;
pub mod ranges;
pub mod runtime_dt;
pub mod string_map;
pub mod xnu_arm64_boot_args;
pub mod xnu_arm64_handoff;
pub mod xnu_boot_args;

verus! {

pub fn version() -> (r: &'static str)
    ensures r@ == "0.1.0"@,
{
    "0.1.0"
}

} // verus!

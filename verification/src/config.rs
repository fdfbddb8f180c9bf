//! The boot configuration's shape: the sections of a config.plist as plain values.
use vstd::prelude::*;
use crate::error::CoreError;
use crate::string_map::StringMap;

verus! {

#[derive(Debug, PartialEq)]
pub struct Config {
    pub acpi: AcpiConfig,
    pub boot_properties: BootProperties,
    pub device_properties: DevicePropertiesConfig,
    pub kernel: KernelConfig,
    pub misc: MiscConfig,
    pub nvram: NvramConfig,
    pub platform_info: PlatformInfo,
    pub uefi: UefiConfig,
}

#[derive(Debug, Clone, Default, PartialEq)]
pub struct AcpiConfig {
    pub add: Vec<String>,
    pub delete: Vec<String>,
    pub patch: Vec<AcpiPatch>,
}

#[derive(Debug, Clone, Default, PartialEq)]
pub struct AcpiPatch {
    pub count: u32,
    pub enabled: bool,
    pub find: String,
    pub replace: String,
    pub table_signature: String,
    pub base: String,
    pub base_skip: u32,
    pub mask: String,
    pub replace_mask: String,
}

#[derive(Debug, Clone, Default, PartialEq)]
pub struct BootProperties {
    pub arguments: String,
    pub console: String,
    pub cursor: bool,
    pub hibernate_mode: String,
    pub launcher_option: String,
    pub picker_attributes: u32,
    pub picker_mode: String,
    pub show_picker: bool,
    pub timeout: u32,
}

#[derive(Debug, Default, PartialEq)]
pub struct DevicePropertiesConfig {
    pub add: StringMap<StringMap<DevicePropValue>>,
    pub delete: StringMap<Vec<String>>,
}

#[derive(Debug, Clone, PartialEq)]
pub enum DevicePropValue {
    Data(Vec<u8>),
    Integer(i64),
    String(String),
    Bool(bool),
}

impl Default for DevicePropValue {
    fn default() -> (r: Self)
        ensures
            r matches DevicePropValue::String(s) && s@.len() == 0,
    {
        DevicePropValue::String(String::new())
    }
}

#[derive(Debug, Default, PartialEq)]
pub struct KernelConfig {
    pub add: Vec<KernelExtension>,
    pub block: Vec<KernelExtension>,
    pub emulate: Vec<String>,
    pub force: Vec<KernelExtension>,
    pub patch: Vec<KernelPatch>,
    pub quirk: StringMap<bool>,
}

#[derive(Debug, Clone, Default, PartialEq)]
pub struct KernelExtension {
    pub bundle_path: String,
    pub comment: String,
    pub enabled: bool,
    pub executable_path: String,
    pub max_kernel: String,
    pub min_kernel: String,
    pub plist_path: String,
}

#[derive(Debug, Clone, Default, PartialEq)]
pub struct KernelPatch {
    pub arch: String,
    pub base: String,
    pub count: u32,
    pub enabled: bool,
    pub find: String,
    pub identifier: String,
    pub limit: u32,
    pub mask: String,
    pub max_kernel: String,
    pub min_kernel: String,
    pub replace: String,
    pub replace_mask: String,
    pub skip: u32,
}

#[derive(Debug, Clone, Default, PartialEq)]
pub struct MiscConfig {
    pub debug: DebugConfig,
    pub entries: Vec<MiscEntry>,
    pub security: SecurityConfig,
}

#[derive(Debug, Clone, Default, PartialEq)]
pub struct DebugConfig {
    pub apple_debug: bool,
    pub apple_panic: bool,
    pub disable_watchdog: bool,
    pub target: u32,
    pub display_delay: u32,
    pub log_modules: String,
    pub save_logs_size: u32,
    pub syslog: bool,
}

#[derive(Debug, Clone, Default, PartialEq)]
pub struct MiscEntry {
    pub arguments: String,
    pub comment: String,
    pub enabled: bool,
    pub path: String,
    pub title: String,
    pub tool: bool,
}

#[derive(Debug, Clone, Default, PartialEq)]
pub struct SecurityConfig {
    pub allow_set_default: bool,
    pub apple_secure_boot: String,
    pub scanned_policy: u32,
    pub expose_sensitive: u32,
    pub vault: String,
}

#[derive(Debug, Default, PartialEq)]
pub struct NvramConfig {
    pub add: StringMap<StringMap<NvramValue>>,
    pub delete: StringMap<Vec<String>>,
}

#[derive(Debug, Clone, PartialEq)]
pub enum NvramValue {
    String(String),
    Data(Vec<u8>),
}

#[derive(Debug, Clone, Default, PartialEq)]
pub struct PlatformInfo {
    pub generic: GenericPlatformInfo,
    pub update_smbios: bool,
    pub update_smbios_mode: String,
}

#[derive(Debug, Clone, Default, PartialEq)]
pub struct GenericPlatformInfo {
    pub ambient_hardware_info: String,
    pub apex_memory: String,
    pub apex_processor: String,
    pub manufacturer: String,
    pub mlb: String,
    pub processor_type: String,
    pub rom: String,
    pub spoof_vendor: String,
    pub system_memory_status: String,
    pub system_name: String,
    pub system_product_name: String,
    pub system_serial_number: String,
    pub system_uuid: String,
}

#[derive(Debug, Default, PartialEq)]
pub struct UefiConfig {
    pub drivers: Vec<UefiDriver>,
    pub input: InputConfig,
    pub output: OutputConfig,
    pub quirks: StringMap<bool>,
    pub reserved_memory: Vec<ReservedMemory>,
}

#[derive(Debug, Clone, Default, PartialEq)]
pub struct UefiDriver {
    pub arguments: String,
    pub comment: String,
    pub enabled: bool,
    pub path: String,
}

#[derive(Debug, Clone, Default, PartialEq)]
pub struct InputConfig {
    pub key_filtering: bool,
    pub key_forget_threshold: u32,
    pub key_supported: bool,
    pub key_swap: bool,
    pub key_success: bool,
    pub pointer_support: bool,
    pub pointer_support_profile: String,
    pub timer_resolution: u32,
}

#[derive(Debug, Clone, Default, PartialEq)]
pub struct OutputConfig {
    pub clear_screen_on_mode_switch: bool,
    pub console_mode: String,
    pub direct_gop_rendering: bool,
    pub force_resolution: bool,
    pub gop_burst_length: u32,
    pub gop_pixel_limit: u32,
    pub ignore_text_in_graphics: bool,
    pub replace_tab_with_space: bool,
    pub resolution: String,
    pub screen_resolution: String,
    pub text_renderer: String,
    pub uga_resolution: String,
}

#[derive(Debug, Clone, Default, PartialEq)]
pub struct ReservedMemory {
    pub address: u64,
    pub comment: String,
    pub data: String,
    pub enabled: bool,
    pub size: u64,
}

impl Config {
    /// The identity fields a configuration must name, checked in this order.
    pub fn validate(&self) -> (r: Result<(), CoreError>)
        ensures
            self.platform_info.generic.system_name@.len() == 0 ==> (r matches Err(
                CoreError::ConfigValidation(m),
            ) && m@ == "system_name is required"@),
            self.platform_info.generic.system_name@.len() != 0
                && self.platform_info.generic.mlb@.len() == 0 ==> (r matches Err(
                CoreError::ConfigValidation(m),
            ) && m@ == "mlb is required"@),
            self.platform_info.generic.system_name@.len() != 0
                && self.platform_info.generic.mlb@.len() != 0
                && self.platform_info.generic.system_serial_number@.len() == 0 ==> (r matches Err(
                CoreError::ConfigValidation(m),
            ) && m@ == "system_serial_number is required"@),
            r is Ok <==> (self.platform_info.generic.system_name@.len() != 0
                && self.platform_info.generic.mlb@.len() != 0
                && self.platform_info.generic.system_serial_number@.len() != 0),
    {
        if self.platform_info.generic.system_name.as_str().is_empty() {
            return Err(CoreError::ConfigValidation(String::from_str("system_name is required")));
        }
        if self.platform_info.generic.mlb.as_str().is_empty() {
            return Err(CoreError::ConfigValidation(String::from_str("mlb is required")));
        }
        if self.platform_info.generic.system_serial_number.as_str().is_empty() {
            return Err(
                CoreError::ConfigValidation(String::from_str("system_serial_number is required")),
            );
        }
        Ok(())
    }
}

} // verus!

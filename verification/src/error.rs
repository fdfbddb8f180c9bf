//! The error type shared by the configuration, ACPI, device-property and
//! handoff modules.
use vstd::prelude::*;
use plist::Error as PlistError;

verus! {

/// The parse error of the property-list crate, carried through unchanged.
#[verifier::external_type_specification]
#[verifier::external_body]
pub struct ExPlistError(PlistError);

#[derive(Debug)]
pub enum CoreError {
    Plist(PlistError),
    ConfigValidation(String),
    AcpiNotFound(&'static str),
    AcpiInvalid(&'static str),
    KextScan(String),
    KextPlist(String),
    DeviceProps(String),
    Handoff(String),
    MachO(String),
    MachONotFound,
    BufferTooShort { need: usize, have: usize },
    InvalidMagic { expected: u32, got: u32 },
}

} // verus!

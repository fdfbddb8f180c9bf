//! Read-only architecture-specific fileset inspection, never an executable plan.
//!
//! No pointer chains, relocation targets, symbols or instructions are decoded.
use vstd::prelude::*;

use crate::bytes::{le_u16, le_u32, le_u64, read_u16, read_u32, read_u64};
use crate::ranges::sort_pairs;

verus! {

pub const MAX_INPUT_SIZE: usize = 134217728;

pub const MAX_COMMANDS: usize = 16384;

pub const MAX_COMMAND_BYTES: usize = 1048576;

pub const MAX_SEGMENTS: usize = 4096;

pub const MAX_SECTIONS: usize = 32768;

pub const MAX_MEMBERS: usize = 512;

pub const MAX_IDENTIFIER: usize = 1024;

pub const MAX_FIXUP_BYTES: u64 = 16777216;

pub const MAX_PAGE_START_VISITS: usize = 1000000;

#[derive(Clone, Copy, Debug, PartialEq, Eq, Structural)]
pub struct FileRange {
    pub offset: u64,
    pub size: u64,
}

#[derive(Clone, Copy, Debug, PartialEq, Eq, Structural)]
pub struct SectionMetadata {
    pub address: u64,
    pub size: u64,
    pub file_offset: u64,
    pub flags: u32,
    pub relocations: FileRange,
}

#[derive(Clone, Debug, PartialEq, Eq)]
pub struct SegmentMetadata {
    pub name: [u8; 16],
    pub address: u64,
    pub memory_size: u64,
    pub file: FileRange,
    pub maximum_protection: u32,
    pub initial_protection: u32,
    pub flags: u32,
    pub sections: Vec<SectionMetadata>,
}

#[derive(Clone, Copy, Debug, PartialEq, Eq, Structural)]
pub enum EntryMetadata {
    /// Command provenance, not evidence of the CPU mode or calling convention.
    UnixThread64 { instruction_pointer: u64 },
    /// Raw public ARM_THREAD_STATE64 fields. No PAC stripping or CPU-state
    /// installation is performed; these words retain their command provenance.
    ArmThread64 { instruction_pointer: u64, stack_pointer: u64, cpsr: u32, flags: u32 },
    Main { text_offset: u64, stack_size: u64 },
}

#[derive(Clone, Copy, Debug, PartialEq, Eq, Structural)]
pub struct RelocationMetadata {
    pub local: FileRange,
    pub external: FileRange,
    pub local_count: u32,
    pub external_count: u32,
}

#[derive(Clone, Copy, Debug, PartialEq, Eq, Structural)]
pub struct FixupSegmentMetadata {
    pub segment_index: usize,
    pub pointer_format: u16,
    pub page_size: u16,
    pub page_count: u16,
    pub pages_with_fixups: u32,
    pub multiple_start_pages: u32,
    /// Unsigned on-disk displacement; this is not a physical address.
    pub segment_offset: u64,
}

#[derive(Clone, Debug, PartialEq, Eq)]
pub struct ChainedFixupMetadata {
    pub file: FileRange,
    pub imports_count: u32,
    pub imports_format: u32,
    pub symbols_format: u32,
    pub segments: Vec<FixupSegmentMetadata>,
}

#[derive(Clone, Debug, PartialEq, Eq)]
pub struct ImageMetadata {
    pub cpu_type: u32,
    /// Raw on-disk subtype, including architecture-specific capability bits.
    pub cpu_subtype: u32,
    pub header_file_offset: u64,
    pub header_address: u64,
    pub file_type: u32,
    pub flags: u32,
    pub command_count: u32,
    pub command_bytes: u32,
    pub segments: Vec<SegmentMetadata>,
    /// Belongs to this header only. Member entries are never selected for boot.
    pub entry: Option<EntryMetadata>,
    pub relocations: Option<RelocationMetadata>,
    pub chained_fixups: Option<ChainedFixupMetadata>,
}

#[derive(Clone, Debug, PartialEq, Eq)]
pub struct FilesetMember {
    /// Opaque bounded bytes, excluding the terminating NUL.
    pub identifier: Vec<u8>,
    pub image: ImageMetadata,
}

#[derive(Clone, Copy, Debug, PartialEq, Eq, Structural)]
pub enum PreparationRequirement {
    CollectionPlacement,
    KernelEntryAbi,
    PlatformHandoffProviders,
    ClassicRelocations,
    ChainedRebasing,
    ChainedImports,
    CompressedFixupSymbols,
    UnsupportedPointerFormat(u16),
}

#[derive(Clone, Debug, PartialEq, Eq)]
pub struct KcMetadataInspection {
    pub collection: ImageMetadata,
    pub members: Vec<FilesetMember>,
    pub requirements: Vec<PreparationRequirement>,
}

impl KcMetadataInspection {
    /// Metadata alone never authorizes allocation, rebasing, or entry.
    pub fn preparation_ready(&self) -> (r: bool)
        ensures
            !r,
    {
        false
    }
}

#[derive(Clone, Copy, Debug, PartialEq, Eq, Structural)]
pub enum KcMetadataError {
    InputTooLarge,
    Truncated,
    Overflow,
    LimitExceeded,
    UnsupportedFormat,
    UnsupportedCpu,
    UnsupportedFileType,
    UnsupportedCommand,
    UnsupportedSegmentFlags,
    UnsupportedThreadState,
    UnsupportedCollectionEntry,
    UnsupportedFixupVersion,
    InvalidHeader,
    InvalidCommand,
    InvalidSegment,
    InvalidSection,
    InvalidIdentifier,
    DuplicateMember,
    OverlappingRange,
    InvalidMemberMapping,
    InvalidLinkedit,
    InvalidFixups,
    MissingEntry,
    DuplicateEntry,
    InvalidEntry,
}

impl KcMetadataError {
    /// The name of each variant.
    pub open spec fn name_text(&self) -> Seq<char> {
        match self {
            KcMetadataError::InputTooLarge => "InputTooLarge"@,
            KcMetadataError::Truncated => "Truncated"@,
            KcMetadataError::Overflow => "Overflow"@,
            KcMetadataError::LimitExceeded => "LimitExceeded"@,
            KcMetadataError::UnsupportedFormat => "UnsupportedFormat"@,
            KcMetadataError::UnsupportedCpu => "UnsupportedCpu"@,
            KcMetadataError::UnsupportedFileType => "UnsupportedFileType"@,
            KcMetadataError::UnsupportedCommand => "UnsupportedCommand"@,
            KcMetadataError::UnsupportedSegmentFlags => "UnsupportedSegmentFlags"@,
            KcMetadataError::UnsupportedThreadState => "UnsupportedThreadState"@,
            KcMetadataError::UnsupportedCollectionEntry => "UnsupportedCollectionEntry"@,
            KcMetadataError::UnsupportedFixupVersion => "UnsupportedFixupVersion"@,
            KcMetadataError::InvalidHeader => "InvalidHeader"@,
            KcMetadataError::InvalidCommand => "InvalidCommand"@,
            KcMetadataError::InvalidSegment => "InvalidSegment"@,
            KcMetadataError::InvalidSection => "InvalidSection"@,
            KcMetadataError::InvalidIdentifier => "InvalidIdentifier"@,
            KcMetadataError::DuplicateMember => "DuplicateMember"@,
            KcMetadataError::OverlappingRange => "OverlappingRange"@,
            KcMetadataError::InvalidMemberMapping => "InvalidMemberMapping"@,
            KcMetadataError::InvalidLinkedit => "InvalidLinkedit"@,
            KcMetadataError::InvalidFixups => "InvalidFixups"@,
            KcMetadataError::MissingEntry => "MissingEntry"@,
            KcMetadataError::DuplicateEntry => "DuplicateEntry"@,
            KcMetadataError::InvalidEntry => "InvalidEntry"@,
        }
    }

    /// The variant's name.
    pub fn name(&self) -> (r: &'static str)
        ensures
            r@ == self.name_text(),
    {
        match self {
            KcMetadataError::InputTooLarge => "InputTooLarge",
            KcMetadataError::Truncated => "Truncated",
            KcMetadataError::Overflow => "Overflow",
            KcMetadataError::LimitExceeded => "LimitExceeded",
            KcMetadataError::UnsupportedFormat => "UnsupportedFormat",
            KcMetadataError::UnsupportedCpu => "UnsupportedCpu",
            KcMetadataError::UnsupportedFileType => "UnsupportedFileType",
            KcMetadataError::UnsupportedCommand => "UnsupportedCommand",
            KcMetadataError::UnsupportedSegmentFlags => "UnsupportedSegmentFlags",
            KcMetadataError::UnsupportedThreadState => "UnsupportedThreadState",
            KcMetadataError::UnsupportedCollectionEntry => "UnsupportedCollectionEntry",
            KcMetadataError::UnsupportedFixupVersion => "UnsupportedFixupVersion",
            KcMetadataError::InvalidHeader => "InvalidHeader",
            KcMetadataError::InvalidCommand => "InvalidCommand",
            KcMetadataError::InvalidSegment => "InvalidSegment",
            KcMetadataError::InvalidSection => "InvalidSection",
            KcMetadataError::InvalidIdentifier => "InvalidIdentifier",
            KcMetadataError::DuplicateMember => "DuplicateMember",
            KcMetadataError::OverlappingRange => "OverlappingRange",
            KcMetadataError::InvalidMemberMapping => "InvalidMemberMapping",
            KcMetadataError::InvalidLinkedit => "InvalidLinkedit",
            KcMetadataError::InvalidFixups => "InvalidFixups",
            KcMetadataError::MissingEntry => "MissingEntry",
            KcMetadataError::DuplicateEntry => "DuplicateEntry",
            KcMetadataError::InvalidEntry => "InvalidEntry",
        }
    }

    /// The fixed token of each variant.
    pub open spec fn token_text(&self) -> Seq<char> {
        match self {
            KcMetadataError::InputTooLarge => "KC_METADATA_InputTooLarge"@,
            KcMetadataError::Truncated => "KC_METADATA_Truncated"@,
            KcMetadataError::Overflow => "KC_METADATA_Overflow"@,
            KcMetadataError::LimitExceeded => "KC_METADATA_LimitExceeded"@,
            KcMetadataError::UnsupportedFormat => "KC_METADATA_UnsupportedFormat"@,
            KcMetadataError::UnsupportedCpu => "KC_METADATA_UnsupportedCpu"@,
            KcMetadataError::UnsupportedFileType => "KC_METADATA_UnsupportedFileType"@,
            KcMetadataError::UnsupportedCommand => "KC_METADATA_UnsupportedCommand"@,
            KcMetadataError::UnsupportedSegmentFlags => "KC_METADATA_UnsupportedSegmentFlags"@,
            KcMetadataError::UnsupportedThreadState => "KC_METADATA_UnsupportedThreadState"@,
            KcMetadataError::UnsupportedCollectionEntry => "KC_METADATA_UnsupportedCollectionEntry"@,
            KcMetadataError::UnsupportedFixupVersion => "KC_METADATA_UnsupportedFixupVersion"@,
            KcMetadataError::InvalidHeader => "KC_METADATA_InvalidHeader"@,
            KcMetadataError::InvalidCommand => "KC_METADATA_InvalidCommand"@,
            KcMetadataError::InvalidSegment => "KC_METADATA_InvalidSegment"@,
            KcMetadataError::InvalidSection => "KC_METADATA_InvalidSection"@,
            KcMetadataError::InvalidIdentifier => "KC_METADATA_InvalidIdentifier"@,
            KcMetadataError::DuplicateMember => "KC_METADATA_DuplicateMember"@,
            KcMetadataError::OverlappingRange => "KC_METADATA_OverlappingRange"@,
            KcMetadataError::InvalidMemberMapping => "KC_METADATA_InvalidMemberMapping"@,
            KcMetadataError::InvalidLinkedit => "KC_METADATA_InvalidLinkedit"@,
            KcMetadataError::InvalidFixups => "KC_METADATA_InvalidFixups"@,
            KcMetadataError::MissingEntry => "KC_METADATA_MissingEntry"@,
            KcMetadataError::DuplicateEntry => "KC_METADATA_DuplicateEntry"@,
            KcMetadataError::InvalidEntry => "KC_METADATA_InvalidEntry"@,
        }
    }

    /// The fixed diagnostic token of this error.
    pub fn token(&self) -> (r: &'static str)
        ensures
            r@ == self.token_text(),
    {
        match self {
            KcMetadataError::InputTooLarge => "KC_METADATA_InputTooLarge",
            KcMetadataError::Truncated => "KC_METADATA_Truncated",
            KcMetadataError::Overflow => "KC_METADATA_Overflow",
            KcMetadataError::LimitExceeded => "KC_METADATA_LimitExceeded",
            KcMetadataError::UnsupportedFormat => "KC_METADATA_UnsupportedFormat",
            KcMetadataError::UnsupportedCpu => "KC_METADATA_UnsupportedCpu",
            KcMetadataError::UnsupportedFileType => "KC_METADATA_UnsupportedFileType",
            KcMetadataError::UnsupportedCommand => "KC_METADATA_UnsupportedCommand",
            KcMetadataError::UnsupportedSegmentFlags => "KC_METADATA_UnsupportedSegmentFlags",
            KcMetadataError::UnsupportedThreadState => "KC_METADATA_UnsupportedThreadState",
            KcMetadataError::UnsupportedCollectionEntry => "KC_METADATA_UnsupportedCollectionEntry",
            KcMetadataError::UnsupportedFixupVersion => "KC_METADATA_UnsupportedFixupVersion",
            KcMetadataError::InvalidHeader => "KC_METADATA_InvalidHeader",
            KcMetadataError::InvalidCommand => "KC_METADATA_InvalidCommand",
            KcMetadataError::InvalidSegment => "KC_METADATA_InvalidSegment",
            KcMetadataError::InvalidSection => "KC_METADATA_InvalidSection",
            KcMetadataError::InvalidIdentifier => "KC_METADATA_InvalidIdentifier",
            KcMetadataError::DuplicateMember => "KC_METADATA_DuplicateMember",
            KcMetadataError::OverlappingRange => "KC_METADATA_OverlappingRange",
            KcMetadataError::InvalidMemberMapping => "KC_METADATA_InvalidMemberMapping",
            KcMetadataError::InvalidLinkedit => "KC_METADATA_InvalidLinkedit",
            KcMetadataError::InvalidFixups => "KC_METADATA_InvalidFixups",
            KcMetadataError::MissingEntry => "KC_METADATA_MissingEntry",
            KcMetadataError::DuplicateEntry => "KC_METADATA_DuplicateEntry",
            KcMetadataError::InvalidEntry => "KC_METADATA_InvalidEntry",
        }
    }

    /// The diagnostic text of this error.
    pub fn to_string(&self) -> (r: String)
        ensures
            r@ == self.token_text(),
    {
        String::from_str(self.token())
    }
}

struct Budget {
    commands: usize,
    segments: usize,
    sections: usize,
}

struct MemberReference {
    identifier: Vec<u8>,
    offset: u64,
    address: u64,
}

struct ParsedImage {
    image: ImageMetadata,
    members: Vec<MemberReference>,
}

#[derive(Clone, Copy)]
enum Profile {
    X86_64,
    Arm64,
}

// ---------------------------------------------------------------------------
// The model of a range and of the checks the inspection promises.

/// `inner` lies inside `outer`, and neither end wraps.
pub open spec fn range_contains(outer: FileRange, inner: FileRange) -> bool {
    &&& inner.offset >= outer.offset
    &&& inner.offset + inner.size <= u64::MAX
    &&& outer.offset + outer.size <= u64::MAX
    &&& inner.offset + inner.size <= outer.offset + outer.size
}

/// Two nonempty ranges share a byte.
pub open spec fn ranges_overlap(a: FileRange, b: FileRange) -> bool {
    a.size != 0 && b.size != 0 && a.offset < b.offset + b.size && b.offset < a.offset + a.size
}

/// The range lies inside an input of `len` bytes.
pub open spec fn within_input(r: FileRange, len: int) -> bool {
    r.offset + r.size <= len
}

/// The collection entry lies in the file-backed part of an executable segment.
pub open spec fn entry_in_segment(e: EntryMetadata, s: SegmentMetadata) -> bool {
    &&& s.initial_protection & 4 != 0
    &&& match e {
        EntryMetadata::UnixThread64 { instruction_pointer } => instruction_pointer >= s.address
            && instruction_pointer - s.address < s.file.size,
        EntryMetadata::ArmThread64 { instruction_pointer, .. } => instruction_pointer % 4 == 0
            && instruction_pointer >= s.address && instruction_pointer - s.address + 4 <= s.file.size,
        EntryMetadata::Main { .. } => false,
    }
}

/// The first problem with the entry of a collection header.
pub open spec fn collection_entry_error(image: ImageMetadata) -> Option<KcMetadataError> {
    match image.entry {
        None => Some(KcMetadataError::MissingEntry),
        Some(e) => if e is Main {
            Some(KcMetadataError::UnsupportedCollectionEntry)
        } else if exists|i: int| 0 <= i < image.segments@.len() && entry_in_segment(e, #[trigger] image.segments@[i]) {
            None
        } else {
            Some(KcMetadataError::InvalidEntry)
        },
    }
}

/// Some section of the image carries classic relocation entries.
pub open spec fn has_section_relocations(image: ImageMetadata) -> bool {
    exists|i: int, j: int| 0 <= i < image.segments@.len() && 0 <= j < image.segments@[i].sections@.len()
        && (#[trigger] image.segments@[i].sections@[j]).relocations.size != 0
}

/// The image needs the preparation step `r` before it could run.
pub open spec fn image_requires(image: ImageMetadata, r: PreparationRequirement) -> bool {
    match r {
        PreparationRequirement::ClassicRelocations => (image.relocations matches Some(rel) && (
        rel.local_count != 0 || rel.external_count != 0)) || has_section_relocations(image),
        PreparationRequirement::ChainedRebasing => image.chained_fixups is Some,
        PreparationRequirement::ChainedImports => image.chained_fixups matches Some(f)
            && f.imports_count != 0,
        PreparationRequirement::CompressedFixupSymbols => image.chained_fixups matches Some(f)
            && f.symbols_format != 0,
        PreparationRequirement::UnsupportedPointerFormat(format) => format != 11 && (
        image.chained_fixups matches Some(f) && exists|k: int| 0 <= k < f.segments@.len() && (#[trigger] f.segments@[k]).pointer_format == format),
        _ => false,
    }
}

/// Every inspection requires these, whatever the images hold.
pub open spec fn base_requirement(r: PreparationRequirement) -> bool {
    r == PreparationRequirement::CollectionPlacement || r == PreparationRequirement::KernelEntryAbi
        || r == PreparationRequirement::PlatformHandoffProviders
}

pub open spec fn no_duplicates(s: Seq<PreparationRequirement>) -> bool {
    forall|a: int, c: int| 0 <= a < c < s.len() ==> s[a] != s[c]
}

/// A requirement is listed exactly when it is a base requirement or some
/// inspected image needs it; it is listed once; the base ones come first.
pub open spec fn requirements_exact(insp: KcMetadataInspection) -> bool {
    let req = insp.requirements@;
    &&& no_duplicates(req)
    &&& req.len() >= 3
    &&& req[0] == PreparationRequirement::CollectionPlacement
    &&& req[1] == PreparationRequirement::KernelEntryAbi
    &&& req[2] == PreparationRequirement::PlatformHandoffProviders
    &&& forall|r: PreparationRequirement| #[trigger] req.contains(r) <==> (base_requirement(r)
        || image_requires(insp.collection, r) || exists|m: int| 0 <= m < insp.members@.len()
        && image_requires(#[trigger] insp.members@[m].image, r))
}

/// What every inspection the parser returns satisfies.
pub open spec fn inspection_ok(b: Seq<u8>, insp: KcMetadataInspection) -> bool {
    &&& insp.collection.file_type == 12
    &&& insp.collection.header_file_offset == 0
    &&& collection_entry_error(insp.collection) is None
    &&& 0 < insp.members@.len() <= MAX_MEMBERS
    &&& forall|m: int| 0 <= m < insp.members@.len() ==> (#[trigger] insp.members@[m]).image.cpu_subtype
        == insp.collection.cpu_subtype && insp.members@[m].image.cpu_type == insp.collection.cpu_type
        && insp.members@[m].image.header_file_offset != 0 && (insp.members@[m].image.file_type == 2
        || insp.members@[m].image.file_type == 11)
    &&& requirements_exact(insp)
    &&& image_from(b, insp.collection)
    &&& forall|m: int| 0 <= m < insp.members@.len() ==> member_from(b, insp.collection, #[trigger] insp.members@[m])
}

/// An image as the bytes give it: its header fields, its segments and its entry.
pub open spec fn image_from(b: Seq<u8>, img: ImageMetadata) -> bool {
    &&& header_from(b, img)
    &&& segments_from(b, img)
    &&& entry_from(b, img)
}

/// A member as the bytes give it: its own image, named with its identifier by a
/// fileset-entry command of the collection at its header's file offset.
pub open spec fn member_from(b: Seq<u8>, collection: ImageMetadata, m: FilesetMember) -> bool {
    &&& image_from(b, m.image)
    &&& member_listed(commands_of(b, collection), m.identifier@, m.image.header_file_offset)
}

// ---------------------------------------------------------------------------
// Inspection.

/// Inspect metadata of a thin generic x86_64 MH_FILESET and one member level.
/// The supplied bytes are never changed. No member payload is extracted.
pub fn inspect_kernel_collection(bytes: &[u8]) -> (r: Result<KcMetadataInspection, KcMetadataError>)
    ensures
        bytes@.len() > MAX_INPUT_SIZE ==> r == Err::<KcMetadataInspection, KcMetadataError>(KcMetadataError::InputTooLarge),
        r matches Ok(insp) ==> inspection_ok(bytes@, insp) && insp.collection.cpu_type == 0x0100_0007
            && insp.collection.cpu_subtype == 3,
        bytes@.len() <= MAX_INPUT_SIZE ==> (header_error(bytes@, 0, true, false) matches Some(e) ==> r == Err::<
            KcMetadataInspection,
            KcMetadataError,
        >(e)),
{
    inspect_profile(bytes, Profile::X86_64)
}

/// Inspect a thin ARM64/ARM64E fileset without executing or authenticating it.
/// This is separate from the Intel entry/rebase profile. All headers must carry
/// the same raw CPU subtype; no capability bit is stripped or emulated.
pub fn inspect_arm64_kernel_collection(bytes: &[u8]) -> (r: Result<KcMetadataInspection, KcMetadataError>)
    ensures
        bytes@.len() > MAX_INPUT_SIZE ==> r == Err::<KcMetadataInspection, KcMetadataError>(KcMetadataError::InputTooLarge),
        r matches Ok(insp) ==> inspection_ok(bytes@, insp) && insp.collection.cpu_type == 0x0100_000c,
        bytes@.len() <= MAX_INPUT_SIZE ==> (header_error(bytes@, 0, true, true) matches Some(e) ==> r == Err::<
            KcMetadataInspection,
            KcMetadataError,
        >(e)),
{
    inspect_profile(bytes, Profile::Arm64)
}

/// The CPU type and subtype that a profile accepts: x86-64, or ARM64 with one of
/// the subtypes of the named ARM64/ARM64E metadata profiles.
pub open spec fn cpu_accepted(arm64: bool, cpu_type: int, cpu_subtype: int) -> bool {
    if arm64 {
        cpu_type == 0x0100_000c && (cpu_subtype == 0 || cpu_subtype == 1 || cpu_subtype == 2 || cpu_subtype
            == 0x8000_0002 || cpu_subtype == 0x8100_0002 || cpu_subtype == 0xc000_0002 || cpu_subtype
            == 0xc100_0002 || cpu_subtype == 0xc200_0002)
    } else {
        cpu_type == 0x0100_0007 && cpu_subtype == 3
    }
}

/// The first problem of the 64-bit Mach-O header at `base`, in the order the
/// header is checked: its presence, magic, CPU, file type (a fileset for the
/// collection, an executable or kext for a member), then the reserved word and
/// the size and count of its load commands.
pub open spec fn header_error(b: Seq<u8>, base: int, outer: bool, arm64: bool) -> Option<KcMetadataError> {
    let file_type = le_u32(b, base + 12);
    let count = le_u32(b, base + 16);
    let command_bytes = le_u32(b, base + 20);
    if base + 32 > b.len() {
        Some(KcMetadataError::Truncated)
    } else if le_u32(b, base) != 0xfeed_facf {
        Some(KcMetadataError::UnsupportedFormat)
    } else if !cpu_accepted(arm64, le_u32(b, base + 4), le_u32(b, base + 8)) {
        Some(KcMetadataError::UnsupportedCpu)
    } else if (outer && file_type != 12) || (!outer && file_type != 2 && file_type != 11) {
        Some(KcMetadataError::UnsupportedFileType)
    } else if le_u32(b, base + 28) != 0 || command_bytes % 8 != 0 || count > command_bytes / 8 {
        Some(KcMetadataError::InvalidHeader)
    } else {
        None
    }
}

/// The first problem of a chained-fixups header at `file`, in the order it is
/// checked: the table's size limit and presence, its fixed header, the version,
/// the offsets of its parts and the symbol and import formats.
pub open spec fn fixup_header_error(b: Seq<u8>, file: FileRange) -> Option<KcMetadataError> {
    let at = file.offset as int;
    let size = file.size as int;
    let starts = le_u32(b, at + 4);
    let imports = le_u32(b, at + 8);
    let symbols = le_u32(b, at + 12);
    let imports_format = le_u32(b, at + 20);
    let symbols_format = le_u32(b, at + 24);
    if size > MAX_FIXUP_BYTES {
        Some(KcMetadataError::LimitExceeded)
    } else if at + size > b.len() || size < 28 {
        Some(KcMetadataError::Truncated)
    } else if le_u32(b, at) != 0 {
        Some(KcMetadataError::UnsupportedFixupVersion)
    } else if starts < 28 || imports < 28 || symbols < 28 || symbols > size || symbols_format > 1 || !(
    imports_format == 1 || imports_format == 2 || imports_format == 3) {
        Some(KcMetadataError::InvalidFixups)
    } else {
        None
    }
}

spec fn profile_arm64(p: Profile) -> bool {
    p is Arm64
}

spec fn profile_cpu(p: Profile, cpu_type: u32, cpu_subtype: u32) -> bool {
    match p {
        Profile::X86_64 => cpu_type == 0x0100_0007 && cpu_subtype == 3,
        Profile::Arm64 => cpu_type == 0x0100_000c,
    }
}

#[verifier::loop_isolation(false)]
fn inspect_profile(bytes: &[u8], profile: Profile) -> (r: Result<KcMetadataInspection, KcMetadataError>)
    ensures
        bytes@.len() > MAX_INPUT_SIZE ==> r == Err::<KcMetadataInspection, KcMetadataError>(KcMetadataError::InputTooLarge),
        r matches Ok(insp) ==> inspection_ok(bytes@, insp) && profile_cpu(profile, insp.collection.cpu_type, insp.collection.cpu_subtype),
        bytes@.len() <= MAX_INPUT_SIZE ==> (header_error(bytes@, 0, true, profile_arm64(profile)) matches Some(e)
            ==> r == Err::<KcMetadataInspection, KcMetadataError>(e)),
{
    if bytes.len() > MAX_INPUT_SIZE {
        return Err(KcMetadataError::InputTooLarge);
    }
    let mut budget = Budget { commands: 0, segments: 0, sections: 0 };
    let outer = parse_image(bytes, 0, true, profile, &mut budget)?;
    validate_collection_entry(&outer.image)?;
    if outer.members.len() == 0 {
        return Err(KcMetadataError::InvalidHeader);
    }
    let mut members: Vec<FilesetMember> = Vec::new();
    let mut k: usize = 0;
    while k < outer.members.len()
        invariant
            budget.commands <= MAX_COMMANDS,
            budget.segments <= MAX_SEGMENTS,
            budget.sections <= MAX_SECTIONS,
            bytes@.len() <= MAX_INPUT_SIZE,
            members@.len() == k,
            k <= outer.members@.len() <= MAX_MEMBERS,
            forall|m: int| 0 <= m < members@.len() ==> (#[trigger] members@[m]).image.cpu_subtype
                == outer.image.cpu_subtype && members@[m].image.cpu_type == outer.image.cpu_type
                && members@[m].image.header_file_offset != 0 && (members@[m].image.file_type == 2
                || members@[m].image.file_type == 11),
            forall|m: int| 0 <= m < outer.members@.len() ==> (#[trigger] outer.members@[m]).offset != 0,
            profile_cpu(profile, outer.image.cpu_type, outer.image.cpu_subtype),
            forall|m: int| 0 <= m < members@.len() ==> member_from(bytes@, outer.image, #[trigger] members@[m]),
        decreases outer.members@.len() - k,
    {
        let reference = &outer.members[k];
        let child = parse_image(bytes, reference.offset, false, profile, &mut budget)?.image;
        if child.cpu_subtype != outer.image.cpu_subtype {
            return Err(KcMetadataError::UnsupportedCpu);
        }
        if child.header_address != reference.address {
            return Err(KcMetadataError::InvalidMemberMapping);
        }
        let header = FileRange { offset: reference.offset, size: 32 + child.command_bytes as u64 };
        if !is_collection_view(&outer.image.segments, &header, reference.address) {
            return Err(KcMetadataError::InvalidMemberMapping);
        }
        let mut s: usize = 0;
        while s < child.segments.len()
            decreases child.segments@.len() - s,
        {
            let segment = &child.segments[s];
            if segment.memory_size != 0 {
                let wanted = FileRange { offset: segment.address, size: segment.memory_size };
                let mut found = false;
                let mut o: usize = 0;
                while o < outer.image.segments.len()
                    decreases outer.image.segments@.len() - o,
                {
                    let os = &outer.image.segments[o];
                    if contains(&FileRange { offset: os.address, size: os.memory_size }, &wanted) {
                        found = true;
                        break;
                    }
                    o = o + 1;
                }
                if !found {
                    return Err(KcMetadataError::InvalidMemberMapping);
                }
            }
            if segment.file.size != 0 && !is_collection_view(&outer.image.segments, &segment.file, segment.address) {
                return Err(KcMetadataError::InvalidMemberMapping);
            }
            s = s + 1;
        }
        let identifier = reference.identifier.clone();
        assert(identifier@ == reference.identifier@);
        let member = FilesetMember { identifier, image: child };
        assert(member_from(bytes@, outer.image, member));
        let ghost before = members@;
        members.push(member);
        assert forall|m: int| 0 <= m < members@.len() implies member_from(bytes@, outer.image, #[trigger] members@[m]) by {
            if m < before.len() {
                assert(members@[m] == before[m]);
            }
        }
        k = k + 1;
    }
    let mut requirements: Vec<PreparationRequirement> = Vec::new();
    requirements.push(PreparationRequirement::CollectionPlacement);
    requirements.push(PreparationRequirement::KernelEntryAbi);
    requirements.push(PreparationRequirement::PlatformHandoffProviders);
    proof {
        assert forall|r: PreparationRequirement| #[trigger] requirements@.contains(r) <==> base_requirement(r) by {
            if base_requirement(r) {
                if r == PreparationRequirement::CollectionPlacement {
                    assert(requirements@[0] == r);
                } else if r == PreparationRequirement::KernelEntryAbi {
                    assert(requirements@[1] == r);
                } else {
                    assert(requirements@[2] == r);
                }
            }
        }
    }
    add_image_requirements(&mut requirements, &outer.image);
    let mut m: usize = 0;
    while m < members.len()
        invariant
            m <= members@.len(),
            no_duplicates(requirements@),
            requirements@.len() >= 3,
            requirements@[0] == PreparationRequirement::CollectionPlacement,
            requirements@[1] == PreparationRequirement::KernelEntryAbi,
            requirements@[2] == PreparationRequirement::PlatformHandoffProviders,
            forall|r: PreparationRequirement| #[trigger] requirements@.contains(r) <==> (base_requirement(r)
                || image_requires(outer.image, r) || exists|x: int| 0 <= x < m
                && image_requires(#[trigger] members@[x].image, r)),
        decreases members@.len() - m,
    {
        let ghost before = requirements@;
        add_image_requirements(&mut requirements, &members[m].image);
        proof {
            assert forall|r: PreparationRequirement| #[trigger] requirements@.contains(r) <==> (base_requirement(r)
                || image_requires(outer.image, r) || exists|x: int| 0 <= x < m + 1
                && image_requires(#[trigger] members@[x].image, r)) by {
                if exists|x: int| 0 <= x < m + 1 && image_requires(#[trigger] members@[x].image, r) {
                    let x = choose|x: int| 0 <= x < m + 1 && image_requires(#[trigger] members@[x].image, r);
                    if x < m {
                        assert(before.contains(r));
                    }
                }
            }
        }
        m = m + 1;
    }
    let inspection = KcMetadataInspection { collection: outer.image, members, requirements };
    proof {
        assert forall|r: PreparationRequirement| #[trigger] inspection.requirements@.contains(r) <==> (base_requirement(r)
            || image_requires(inspection.collection, r) || exists|x: int| 0 <= x < inspection.members@.len()
            && image_requires(#[trigger] inspection.members@[x].image, r)) by {
        }
    }
    Ok(inspection)
}

/// Adds `value` unless it is already listed.
#[verifier::loop_isolation(false)]
fn require(requirements: &mut Vec<PreparationRequirement>, value: PreparationRequirement)
    ensures
        no_duplicates(old(requirements)@) ==> no_duplicates(final(requirements)@),
        forall|r: PreparationRequirement| #[trigger] final(requirements)@.contains(r) <==> (old(requirements)@.contains(r) || r == value),
        final(requirements)@.len() >= old(requirements)@.len(),
        forall|i: int| 0 <= i < old(requirements)@.len() ==> #[trigger] final(requirements)@[i] == old(requirements)@[i],
{
    let mut i: usize = 0;
    while i < requirements.len()
        invariant
            i <= requirements@.len(),
            requirements@ == old(requirements)@,
            forall|k: int| 0 <= k < i ==> requirements@[k] != value,
        decreases requirements@.len() - i,
    {
        if requirements[i] == value {
            assert(requirements@.contains(value));
            assert(requirements@ =~= old(requirements)@);
            return;
        }
        i = i + 1;
    }
    requirements.push(value);
    proof {
        assert forall|r: PreparationRequirement| #[trigger] requirements@.contains(r) <==> (old(requirements)@.contains(r) || r == value) by {
            if old(requirements)@.contains(r) {
                let k = choose|k: int| 0 <= k < old(requirements)@.len() && old(requirements)@[k] == r;
                assert(requirements@[k] == r);
            }
            if r == value {
                assert(requirements@[old(requirements)@.len() as int] == r);
            }
            if requirements@.contains(r) {
                let k = choose|k: int| 0 <= k < requirements@.len() && requirements@[k] == r;
                if k < old(requirements)@.len() {
                    assert(old(requirements)@[k] == r);
                }
            }
        }
    }
}

#[verifier::loop_isolation(false)]
fn has_classic_relocations(image: &ImageMetadata) -> (r: bool)
    ensures
        r == image_requires(*image, PreparationRequirement::ClassicRelocations),
{
    if let Some(rel) = &image.relocations {
        if rel.local_count != 0 || rel.external_count != 0 {
            return true;
        }
    }
    let mut i: usize = 0;
    while i < image.segments.len()
        invariant
            i <= image.segments@.len(),
            !(image.relocations matches Some(rel) && (rel.local_count != 0 || rel.external_count != 0)),
            forall|a: int, j: int| 0 <= a < i && 0 <= j < image.segments@[a].sections@.len()
                ==> (#[trigger] image.segments@[a].sections@[j]).relocations.size == 0,
        decreases image.segments@.len() - i,
    {
        let sections = &image.segments[i].sections;
        let mut j: usize = 0;
        while j < sections.len()
            invariant
                i < image.segments@.len(),
                *sections == image.segments@[i as int].sections,
                j <= sections@.len(),
                forall|b: int| 0 <= b < j ==> (#[trigger] sections@[b]).relocations.size == 0,
            decreases sections@.len() - j,
        {
            if sections[j].relocations.size != 0 {
                assert(image.segments@[i as int].sections@[j as int].relocations.size != 0);
                return true;
            }
            j = j + 1;
        }
        i = i + 1;
    }
    false
}

/// Lists what `image` needs before it could run.
#[verifier::loop_isolation(false)]
fn add_image_requirements(requirements: &mut Vec<PreparationRequirement>, image: &ImageMetadata)
    requires
        no_duplicates(old(requirements)@),
        old(requirements)@.len() >= 3,
    ensures
        no_duplicates(final(requirements)@),
        forall|r: PreparationRequirement| #[trigger] final(requirements)@.contains(r) <==> (old(requirements)@.contains(r) || (!base_requirement(r) && image_requires(*image, r))),
        final(requirements)@.len() >= old(requirements)@.len(),
        forall|i: int| 0 <= i < old(requirements)@.len() ==> #[trigger] final(requirements)@[i] == old(requirements)@[i],
{
    let ghost start = requirements@;
    if has_classic_relocations(image) {
        require(requirements, PreparationRequirement::ClassicRelocations);
    }
    if let Some(fixups) = &image.chained_fixups {
        require(requirements, PreparationRequirement::ChainedRebasing);
        if fixups.imports_count != 0 {
            require(requirements, PreparationRequirement::ChainedImports);
        }
        if fixups.symbols_format != 0 {
            require(requirements, PreparationRequirement::CompressedFixupSymbols);
        }
        let ghost mid = requirements@;
        let mut k: usize = 0;
        while k < fixups.segments.len()
            invariant
                k <= fixups.segments@.len(),
                no_duplicates(requirements@),
                requirements@.len() >= mid.len(),
                forall|i: int| 0 <= i < start.len() ==> #[trigger] requirements@[i] == start[i],
                forall|r: PreparationRequirement| #[trigger] requirements@.contains(r) <==> (mid.contains(r) || (r matches PreparationRequirement::UnsupportedPointerFormat(f) && f != 11
                    && exists|x: int| 0 <= x < k && (#[trigger] fixups.segments@[x]).pointer_format == f)),
            decreases fixups.segments@.len() - k,
        {
            let format = fixups.segments[k].pointer_format;
            if format != 11 {
                require(requirements, PreparationRequirement::UnsupportedPointerFormat(format));
            }
            proof {
                assert forall|r: PreparationRequirement| #[trigger] requirements@.contains(r) <==> (mid.contains(r) || (r matches PreparationRequirement::UnsupportedPointerFormat(f) && f != 11
                    && exists|x: int| 0 <= x < k + 1 && (#[trigger] fixups.segments@[x]).pointer_format == f)) by {
                    if let PreparationRequirement::UnsupportedPointerFormat(f) = r {
                        if f == format && format != 11 {
                            assert(fixups.segments@[k as int].pointer_format == f);
                        }
                    }
                }
            }
            k = k + 1;
        }
    }
    proof {
        assert forall|r: PreparationRequirement| #[trigger] requirements@.contains(r) <==> (start.contains(r) || (!base_requirement(r) && image_requires(*image, r))) by {
            match r {
                PreparationRequirement::UnsupportedPointerFormat(f) => {
                    if image.chained_fixups is Some && f != 11 {
                        if exists|x: int| 0 <= x < image.chained_fixups.unwrap().segments@.len() && (#[trigger] image.chained_fixups.unwrap().segments@[x]).pointer_format == f {
                        }
                    }
                },
                _ => {},
            }
        }
    }
}

#[verifier::loop_isolation(false)]
fn validate_collection_entry(image: &ImageMetadata) -> (r: Result<(), KcMetadataError>)
    ensures
        match collection_entry_error(*image) {
            None => r is Ok,
            Some(e) => r == Err::<(), KcMetadataError>(e),
        },
{
    let entry = match &image.entry {
        Some(e) => *e,
        None => return Err(KcMetadataError::MissingEntry),
    };
    // LC_MAIN describes an offset relative to __TEXT. This initial fileset
    // profile does not generalize that into a collection-wide entry address.
    // Member LC_MAIN commands remain recorded with their own provenance only.
    if let EntryMetadata::Main { .. } = entry {
        return Err(KcMetadataError::UnsupportedCollectionEntry);
    }
    let mut i: usize = 0;
    while i < image.segments.len()
        invariant
            i <= image.segments@.len(),
            image.entry == Some(entry),
            !(entry is Main),
            forall|k: int| 0 <= k < i ==> !entry_in_segment(entry, #[trigger] image.segments@[k]),
        decreases image.segments@.len() - i,
    {
        let s = &image.segments[i];
        if s.initial_protection & 4 != 0 {
            let inside = match entry {
                EntryMetadata::UnixThread64 { instruction_pointer } => instruction_pointer >= s.address
                    && instruction_pointer - s.address < s.file.size,
                EntryMetadata::ArmThread64 { instruction_pointer, .. } => instruction_pointer % 4 == 0
                    && instruction_pointer >= s.address && match (instruction_pointer - s.address).checked_add(4) {
                    Some(end) => end <= s.file.size,
                    None => false,
                },
                EntryMetadata::Main { .. } => false,
            };
            if inside {
                assert(entry_in_segment(entry, image.segments@[i as int]));
                return Ok(());
            }
        }
        i = i + 1;
    }
    Err(KcMetadataError::InvalidEntry)
}

#[verifier::loop_isolation(false)]
fn is_collection_view(segments: &Vec<SegmentMetadata>, file: &FileRange, address: u64) -> (r: bool)
    ensures
        r == exists|i: int| 0 <= i < segments@.len() && range_contains((#[trigger] segments@[i]).file, *file)
            && address >= segments@[i].address && address - segments@[i].address == file.offset - segments@[i].file.offset,
{
    let mut i: usize = 0;
    while i < segments.len()
        invariant
            i <= segments@.len(),
            forall|k: int| 0 <= k < i ==> !(range_contains((#[trigger] segments@[k]).file, *file)
                && address >= segments@[k].address && address - segments@[k].address == file.offset - segments@[k].file.offset),
        decreases segments@.len() - i,
    {
        let s = &segments[i];
        if contains(&s.file, file) && address >= s.address && address - s.address == file.offset - s.file.offset {
            return true;
        }
        i = i + 1;
    }
    false
}

// ---------------------------------------------------------------------------
// One Mach-O header and its load commands.

#[verifier::loop_isolation(false)]
#[verifier::spinoff_prover]
#[verifier::rlimit(100)]
fn parse_image(bytes: &[u8], base: u64, outer: bool, profile: Profile, budget: &mut Budget) -> (r:
    Result<ParsedImage, KcMetadataError>)
    requires
        old(budget).commands <= MAX_COMMANDS,
        old(budget).segments <= MAX_SEGMENTS,
        old(budget).sections <= MAX_SECTIONS,
        bytes@.len() <= MAX_INPUT_SIZE,
    ensures
        final(budget).commands <= MAX_COMMANDS,
        final(budget).segments <= MAX_SEGMENTS,
        final(budget).sections <= MAX_SECTIONS,
        r matches Ok(p) ==> {
            &&& p.image.header_file_offset == base
            &&& profile_cpu(profile, p.image.cpu_type, p.image.cpu_subtype)
            &&& (outer ==> p.image.file_type == 12)
            &&& (!outer ==> p.image.file_type == 2 || p.image.file_type == 11)
            &&& (!outer ==> p.members@.len() == 0)
            &&& p.image.segments@.len() > 0
            &&& forall|m: int| 0 <= m < p.members@.len() ==> (#[trigger] p.members@[m]).offset != 0
            &&& p.members@.len() <= MAX_MEMBERS
            &&& header_from(bytes@, p.image)
            &&& segments_from(bytes@, p.image)
            &&& entry_from(bytes@, p.image)
            &&& forall|m: int| 0 <= m < p.members@.len() ==> member_listed(
                commands_of(bytes@, p.image),
                (#[trigger] p.members@[m]).identifier@,
                p.members@[m].offset,
            )
        },
        base + 32 <= u64::MAX ==> (header_error(bytes@, base as int, outer, profile_arm64(profile)) matches Some(e)
            ==> r == Err::<ParsedImage, KcMetadataError>(e)),
{
    let h = range(bytes, base, 32)?;
    proof {
        lemma_sub_words(bytes@, base as int, 32);
    }
    if u32_at(h, 0)? != 0xfeed_facf {
        return Err(KcMetadataError::UnsupportedFormat);
    }
    let cpu_type = u32_at(h, 4)?;
    let cpu_subtype = u32_at(h, 8)?;
    let valid_cpu = match profile {
        Profile::X86_64 => cpu_type == 0x0100_0007 && cpu_subtype == 3,
        // Public dyld Architecture.cpp named metadata profiles. An
        // ABI-version label is not evidence that its code can execute.
        Profile::Arm64 => cpu_type == 0x0100_000c && (cpu_subtype == 0 || cpu_subtype == 1
            || cpu_subtype == 2 || cpu_subtype == 0x8000_0002 || cpu_subtype == 0x8100_0002
            || cpu_subtype == 0xc000_0002 || cpu_subtype == 0xc100_0002 || cpu_subtype == 0xc200_0002),
    };
    if !valid_cpu {
        return Err(KcMetadataError::UnsupportedCpu);
    }
    let file_type = u32_at(h, 12)?;
    if (outer && file_type != 12) || (!outer && file_type != 2 && file_type != 11) {
        return Err(KcMetadataError::UnsupportedFileType);
    }
    let count = u32_at(h, 16)?;
    let command_bytes = u32_at(h, 20)?;
    if u32_at(h, 28)? != 0 || command_bytes % 8 != 0 || count > command_bytes / 8 {
        return Err(KcMetadataError::InvalidHeader);
    }
    add_budget(&mut budget.commands, count as usize, MAX_COMMANDS)?;
    if command_bytes as usize > MAX_COMMAND_BYTES {
        return Err(KcMetadataError::LimitExceeded);
    }
    let commands = range(bytes, end(base, 32)?, command_bytes as u64)?;
    let mut segments: Vec<SegmentMetadata> = Vec::new();
    let mut members: Vec<MemberReference> = Vec::new();
    let mut entry: Option<EntryMetadata> = None;
    let mut symtab: Option<u32> = None;
    let mut dysymtab: Option<&[u8]> = None;
    let mut fixup_range: Option<FileRange> = None;
    let mut linkedit_ranges: Vec<FileRange> = Vec::new();
    let mut offset: usize = 0;
    let mut index: u32 = 0;
    let ghost mut seg_at: Seq<int> = Seq::empty();
    let ghost mut member_at: Seq<int> = Seq::empty();
    let ghost mut entry_at: int = 0;
    while index < count
        invariant
            budget.commands <= MAX_COMMANDS,
            budget.segments <= MAX_SEGMENTS,
            budget.sections <= MAX_SECTIONS,
            bytes@.len() <= MAX_INPUT_SIZE,
            commands@.len() <= MAX_COMMAND_BYTES,
            offset <= commands@.len(),
            !outer ==> members@.len() == 0,
            members@.len() <= MAX_MEMBERS,
            forall|m: int| 0 <= m < members@.len() ==> (#[trigger] members@[m]).offset != 0,
            dysymtab matches Some(c) ==> c@.len() == 80,
            forall|i: int| 0 <= i < segments@.len() ==> within_input((#[trigger] segments@[i]).file, bytes@.len() as int),
            forall|i: int| 0 <= i < linkedit_ranges@.len() ==> within_input(#[trigger] linkedit_ranges@[i], bytes@.len() as int),
            fixup_range matches Some(f) ==> within_input(f, bytes@.len() as int),
            seg_at.len() == segments@.len(),
            forall|i: int| 0 <= i < segments@.len() ==> segment_command(commands@, seg_at[i], #[trigger] segments@[i]),
            entry matches Some(e) ==> entry_command(commands@, entry_at, e),
            member_at.len() == members@.len(),
            forall|m: int| 0 <= m < members@.len() ==> member_command(
                commands@,
                member_at[m],
                (#[trigger] members@[m]).identifier@,
                members@[m].offset,
            ),
        decreases count - index,
    {
        let kind = u32_at(commands, offset)?;
        let size = u32_at(commands, offset + 4)? as usize;
        if size < 8 || size % 8 != 0 {
            return Err(KcMetadataError::InvalidCommand);
        }
        let cmd = slice(commands, offset, size)?;
        assert(cmd@ == command_bytes_at(commands@, offset as int));
        if kind == 0x19 {
            add_budget(&mut budget.segments, 1, MAX_SEGMENTS)?;
            let segment = parse_segment(bytes, cmd, budget)?;
            assert(segment_command(commands@, offset as int, segment));
            let ghost before = segments@;
            segments.push(segment);
            proof {
                seg_at = seg_at.push(offset as int);
                assert forall|i: int| 0 <= i < segments@.len() implies segment_command(commands@, seg_at[i], #[trigger] segments@[i]) by {
                    if i < before.len() {
                        assert(segments@[i] == before[i]);
                    }
                }
            }
        } else if kind == 0x8000_0035 && outer {
            if size < 32 {
                return Err(KcMetadataError::InvalidCommand);
            }
            if members.len() == MAX_MEMBERS {
                return Err(KcMetadataError::LimitExceeded);
            }
            let string_offset = u32_at(cmd, 24)? as usize;
            if string_offset < 32 || string_offset >= size || u32_at(cmd, 28)? != 0 {
                return Err(KcMetadataError::InvalidIdentifier);
            }
            let length = match first_zero(cmd, string_offset) {
                Some(n) => n,
                None => return Err(KcMetadataError::InvalidIdentifier),
            };
            if length == 0 || length > MAX_IDENTIFIER {
                return Err(KcMetadataError::InvalidIdentifier);
            }
            let identifier = crate::bytes::sub_vec(cmd, string_offset, string_offset + length);
            let member_offset = u64_at(cmd, 16)?;
            let address = u64_at(cmd, 8)?;
            range(bytes, member_offset, 32)?;
            if member_offset == 0 {
                return Err(KcMetadataError::DuplicateMember);
            }
            let mut m: usize = 0;
            while m < members.len()
                decreases members@.len() - m,
            {
                if members[m].offset == member_offset || members[m].address == address
                    || crate::bytes::bytes_eq(members[m].identifier.as_slice(), identifier.as_slice()) {
                    return Err(KcMetadataError::DuplicateMember);
                }
                m = m + 1;
            }
            let member = MemberReference { identifier, offset: member_offset, address };
            assert(member_command(commands@, offset as int, member.identifier@, member.offset));
            members.push(member);
            proof {
                member_at = member_at.push(offset as int);
            }
        } else if kind == 5 {
            // A single architecture-specific flavor/count/state triple is
            // the supported subset. Other combinations are not guessed.
            let value = match profile {
                Profile::X86_64 => {
                    exact(cmd, 184)?;
                    if u32_at(cmd, 8)? != 4 || u32_at(cmd, 12)? != 42 {
                        return Err(KcMetadataError::UnsupportedThreadState);
                    }
                    EntryMetadata::UnixThread64 { instruction_pointer: u64_at(cmd, 144)? }
                },
                Profile::Arm64 => {
                    if cmd.len() != 288 || u32_at(cmd, 8)? != 6 || u32_at(cmd, 12)? != 68 {
                        return Err(KcMetadataError::UnsupportedThreadState);
                    }
                    EntryMetadata::ArmThread64 {
                        instruction_pointer: u64_at(cmd, 272)?,
                        stack_pointer: u64_at(cmd, 264)?,
                        cpsr: u32_at(cmd, 280)?,
                        flags: u32_at(cmd, 284)?,
                    }
                },
            };
            assert(entry_command(commands@, offset as int, value));
            set_entry(&mut entry, value)?;
            proof {
                entry_at = offset as int;
            }
        } else if kind == 0x8000_0028 {
            exact(cmd, 24)?;
            let text_offset = u64_at(cmd, 8)?;
            let stack_size = u64_at(cmd, 16)?;
            assert(entry_command(commands@, offset as int, EntryMetadata::Main { text_offset, stack_size }));
            set_entry(&mut entry, EntryMetadata::Main { text_offset, stack_size })?;
            proof {
                entry_at = offset as int;
            }
        } else if kind == 2 {
            exact(cmd, 24)?;
            if symtab.is_some() {
                return Err(KcMetadataError::InvalidCommand);
            }
            let symbols = file_range(bytes, u32_at(cmd, 8)? as u64, u32_at(cmd, 12)? as u64, 16)?;
            let strings = file_range(bytes, u32_at(cmd, 16)? as u64, u32_at(cmd, 20)? as u64, 1)?;
            linkedit_ranges.push(symbols);
            linkedit_ranges.push(strings);
            symtab = Some(u32_at(cmd, 12)?);
        } else if kind == 0xb {
            exact(cmd, 80)?;
            if dysymtab.is_some() {
                return Err(KcMetadataError::InvalidCommand);
            }
            dysymtab = Some(cmd);
            let fields: [(usize, u64); 6] = [(32, 8), (40, 56), (48, 4), (56, 4), (64, 8), (72, 8)];
            let mut f: usize = 0;
            while f < 6
                invariant
                    cmd@.len() == 80,
                    forall|i: int| 0 <= i < 6 ==> (#[trigger] fields@[i]).0 <= 72,
                    forall|i: int| 0 <= i < linkedit_ranges@.len() ==> within_input(#[trigger] linkedit_ranges@[i], bytes@.len() as int),
                decreases 6 - f,
            {
                let (at, width) = fields[f];
                let r = file_range(bytes, u32_at(cmd, at)? as u64, u32_at(cmd, at + 4)? as u64, width)?;
                linkedit_ranges.push(r);
                f = f + 1;
            }
        } else if kind == 0x8000_0034 {
            exact(cmd, 16)?;
            if fixup_range.is_some() {
                return Err(KcMetadataError::InvalidCommand);
            }
            let r = file_range(bytes, u32_at(cmd, 8)? as u64, u32_at(cmd, 12)? as u64, 1)?;
            linkedit_ranges.push(r);
            fixup_range = Some(r);
        } else if kind == 0x1b {
            exact(cmd, 24)?;
        } else if kind == 0x24 || kind == 0x2a {
            exact(cmd, 16)?;
        } else if kind == 0x32 {
            slice(cmd, 0, 24)?;
            if 24 + (u32_at(cmd, 20)? as u64) * 8 != size as u64 {
                return Err(KcMetadataError::InvalidCommand);
            }
        } else if kind == 0x1d || kind == 0x26 || kind == 0x29 {
            exact(cmd, 16)?;
            let n = u32_at(cmd, 12)?;
            if kind == 0x29 && n % 8 != 0 {
                return Err(KcMetadataError::InvalidCommand);
            }
            linkedit_ranges.push(file_range(bytes, u32_at(cmd, 8)? as u64, n as u64, 1)?);
        } else {
            return Err(KcMetadataError::UnsupportedCommand);
        }
        offset = offset + size;
        index = index + 1;
    }
    if offset != commands.len() || segments.len() == 0 {
        return Err(KcMetadataError::InvalidHeader);
    }
    validate_nonoverlap(&segments)?;
    let header_size = 32 + command_bytes as u64;
    let header = FileRange { offset: base, size: header_size };
    let mut header_address: Option<u64> = None;
    let mut i: usize = 0;
    while i < segments.len()
        decreases segments@.len() - i,
    {
        let s = &segments[i];
        if contains(&s.file, &header) {
            match s.address.checked_add(base - s.file.offset) {
                Some(a) => {
                    header_address = Some(a);
                    break;
                },
                None => {},
            }
        }
        i = i + 1;
    }
    let header_address = match header_address {
        Some(a) => a,
        None => return Err(KcMetadataError::InvalidHeader),
    };
    let mut l: usize = 0;
    while l < linkedit_ranges.len()
        decreases linkedit_ranges@.len() - l,
    {
        let r = linkedit_ranges[l];
        if r.size != 0 && !in_linkedit(&segments, &r) {
            return Err(KcMetadataError::InvalidLinkedit);
        }
        l = l + 1;
    }
    let mut a: usize = 0;
    while a < segments.len()
        decreases segments@.len() - a,
    {
        let sections = &segments[a].sections;
        let mut c: usize = 0;
        while c < sections.len()
            decreases sections@.len() - c,
        {
            let rel = sections[c].relocations;
            if rel.size != 0 && !in_linkedit(&segments, &rel) {
                return Err(KcMetadataError::InvalidLinkedit);
            }
            c = c + 1;
        }
        a = a + 1;
    }
    let relocations = match dysymtab {
        Some(cmd) => {
            let symbols = match symtab {
                Some(s) => s,
                None => return Err(KcMetadataError::InvalidLinkedit),
            };
            let fields: [usize; 3] = [8, 16, 24];
            let mut f: usize = 0;
            while f < 3
                invariant
                    cmd@.len() == 80,
                    forall|i: int| 0 <= i < 3 ==> fields@[i] <= 24,
                decreases 3 - f,
            {
                let at = fields[f];
                if end(u32_at(cmd, at)? as u64, u32_at(cmd, at + 4)? as u64)? > symbols as u64 {
                    return Err(KcMetadataError::InvalidLinkedit);
                }
                f = f + 1;
            }
            Some(RelocationMetadata {
                local: file_range(bytes, u32_at(cmd, 72)? as u64, u32_at(cmd, 76)? as u64, 8)?,
                external: file_range(bytes, u32_at(cmd, 64)? as u64, u32_at(cmd, 68)? as u64, 8)?,
                local_count: u32_at(cmd, 76)?,
                external_count: u32_at(cmd, 68)?,
            })
        },
        None => None,
    };
    let chained_fixups = match fixup_range {
        Some(r) => Some(parse_fixups(bytes, r, &segments, header_address)?),
        None => None,
    };
    let flags = u32_at(h, 24)?;
    let image = ImageMetadata {
        cpu_type,
        cpu_subtype,
        header_file_offset: base,
        header_address,
        file_type,
        flags,
        command_count: count,
        command_bytes,
        segments,
        entry,
        relocations,
        chained_fixups,
    };
    proof {
        let cmds = commands_of(bytes@, image);
        assert(cmds == commands@);
        lemma_segments_from(bytes@, image, seg_at);
        assert forall|m: int| 0 <= m < members@.len() implies member_listed(
            cmds,
            (#[trigger] members@[m]).identifier@,
            members@[m].offset,
        ) by {
            assert(member_command(cmds, member_at[m], members@[m].identifier@, members@[m].offset));
        }
        if let Some(e) = image.entry {
            assert(entry_command(cmds, entry_at, e));
        }
        assert(header_from(bytes@, image));
        assert(segments_from(bytes@, image));
        assert(entry_from(bytes@, image));
    }
    Ok(ParsedImage { image, members })
}

/// Whether `r` lies inside a __LINKEDIT segment's file range.
#[verifier::loop_isolation(false)]
fn in_linkedit(segments: &Vec<SegmentMetadata>, r: &FileRange) -> (b: bool)
    ensures
        b == exists|i: int| 0 <= i < segments@.len() && (#[trigger] segments@[i]).name@ == linkedit_name()
            && range_contains(segments@[i].file, *r),
{
    let expected: [u8; 16] = [95, 95, 76, 73, 78, 75, 69, 68, 73, 84, 0, 0, 0, 0, 0, 0];
    assert(expected@ =~= linkedit_name());
    let mut i: usize = 0;
    while i < segments.len()
        invariant
            i <= segments@.len(),
            expected@ == linkedit_name(),
            forall|k: int| 0 <= k < i ==> !((#[trigger] segments@[k]).name@ == linkedit_name()
                && range_contains(segments@[k].file, *r)),
        decreases segments@.len() - i,
    {
        let s = &segments[i];
        if crate::bytes::bytes_eq(s.name.as_slice(), expected.as_slice()) && contains(&s.file, r) {
            return true;
        }
        i = i + 1;
    }
    false
}

/// The 16-byte segment name "__LINKEDIT".
pub open spec fn linkedit_name() -> Seq<u8> {
    seq![95u8, 95u8, 76u8, 73u8, 78u8, 75u8, 69u8, 68u8, 73u8, 84u8, 0u8, 0u8, 0u8, 0u8, 0u8, 0u8]
}

/// The length of the NUL-terminated text at `start`, if it ends in `b`.
#[verifier::loop_isolation(false)]
fn first_zero(b: &[u8], start: usize) -> (r: Option<usize>)
    requires
        start <= b@.len(),
    ensures
        r matches Some(n) ==> start + n < b@.len() && b@[start + n] == 0 && forall|k: int|
            start <= k < start + n ==> b@[k] != 0,
        r is None ==> forall|k: int| start <= k < b@.len() ==> b@[k] != 0,
{
    let mut i = start;
    while i < b.len()
        invariant
            start <= i <= b@.len(),
            forall|k: int| start <= k < i ==> b@[k] != 0,
        decreases b@.len() - i,
    {
        if b[i] == 0 {
            return Some(i - start);
        }
        i = i + 1;
    }
    None
}

/// Section `i` of the segment command `cmd` passes the parser's checks: its
/// segment name, its span inside the segment, its alignment, its file bytes at
/// the segment's offset unless it is zero fill, and its relocation table inside `b`.
pub open spec fn section_checks(b: Seq<u8>, cmd: Seq<u8>, i: int) -> bool {
    let at = 72 + 80 * i;
    let address = le_u64(cmd, 24);
    let memory_size = le_u64(cmd, 32);
    let sa = le_u64(cmd, at + 32);
    let size = le_u64(cmd, at + 40);
    let offset = le_u32(cmd, at + 48);
    let align = le_u32(cmd, at + 52);
    let kind = (le_u32(cmd, at + 64) as u32) & 0xff;
    &&& cmd.subrange(at + 16, at + 32) == cmd.subrange(8, 24)
    &&& address <= sa
    &&& sa + size <= address + memory_size
    &&& align < 64
    &&& (sa as u64) & (((1u64 << (align as u64)) - 1) as u64) == 0
    &&& (kind == 1 || kind == 0xc || kind == 0x12 || size == 0 || (range_contains(
        FileRange { offset: le_u64(cmd, 40) as u64, size: le_u64(cmd, 48) as u64 },
        FileRange { offset: offset as u64, size: size as u64 },
    ) && offset - le_u64(cmd, 40) == sa - address))
    &&& le_u32(cmd, at + 56) + le_u32(cmd, at + 60) * 8 <= b.len()
}

/// The 64-bit segment command `cmd` passes the parser's checks, with `sections`
/// sections already counted: its size, its file range inside `b`, its memory end,
/// protections and flags, every section, and sections that occupy memory apart.
pub open spec fn segment_checks(b: Seq<u8>, cmd: Seq<u8>, sections: int) -> bool {
    let count = le_u32(cmd, 64);
    &&& cmd.len() >= 72
    &&& sections + count <= MAX_SECTIONS
    &&& cmd.len() == 72 + 80 * count
    &&& le_u64(cmd, 40) + le_u64(cmd, 48) <= b.len()
    &&& le_u64(cmd, 24) + le_u64(cmd, 32) <= u64::MAX
    &&& le_u64(cmd, 48) <= le_u64(cmd, 32)
    &&& (le_u32(cmd, 56) as u32) & !7u32 == 0
    &&& (le_u32(cmd, 60) as u32) & !(le_u32(cmd, 56) as u32) == 0
    &&& (le_u32(cmd, 68) as u32) & !4u32 == 0
    &&& forall|i: int| 0 <= i < count ==> #[trigger] section_checks(b, cmd, i)
    &&& forall|i: int, j: int|
        0 <= i < j < count && le_u64(cmd, 72 + 80 * i + 40) != 0 && le_u64(cmd, 72 + 80 * j + 40) != 0
            ==> !(#[trigger] le_u64(cmd, 72 + 80 * i + 32) < le_u64(cmd, 72 + 80 * j + 32) + le_u64(cmd, 72 + 80 * j + 40)
            && #[trigger] le_u64(cmd, 72 + 80 * j + 32) < le_u64(cmd, 72 + 80 * i + 32) + le_u64(cmd, 72 + 80 * i + 40))
}

#[verifier::loop_isolation(false)]
#[verifier::spinoff_prover]
#[verifier::rlimit(50)]
fn parse_segment(bytes: &[u8], cmd: &[u8], budget: &mut Budget) -> (r: Result<SegmentMetadata, KcMetadataError>)
    requires
        old(budget).sections <= MAX_SECTIONS,
    ensures
        final(budget).commands == old(budget).commands,
        final(budget).segments == old(budget).segments,
        final(budget).sections <= MAX_SECTIONS,
        r matches Ok(s) ==> {
            &&& within_input(s.file, bytes@.len() as int)
            &&& s.address + s.memory_size <= u64::MAX
            &&& s.file.size <= s.memory_size
            &&& forall|i: int| 0 <= i < s.sections@.len() ==> within_input((#[trigger] s.sections@[i]).relocations, bytes@.len() as int)
            &&& segment_from(cmd@, s)
        },
        segment_checks(bytes@, cmd@, old(budget).sections as int) ==> r is Ok,
{
    let ghost good = segment_checks(bytes@, cmd@, budget.sections as int);
    slice(cmd, 0, 72)?;
    let count = u32_at(cmd, 64)? as usize;
    add_budget(&mut budget.sections, count, MAX_SECTIONS)?;
    if 72 + count as u64 * 80 != cmd.len() as u64 {
        return Err(KcMetadataError::InvalidCommand);
    }
    let address = u64_at(cmd, 24)?;
    let memory_size = u64_at(cmd, 32)?;
    let file = file_range(bytes, u64_at(cmd, 40)?, u64_at(cmd, 48)?, 1)?;
    let maximum_protection = u32_at(cmd, 56)?;
    let initial_protection = u32_at(cmd, 60)?;
    let flags = u32_at(cmd, 68)?;
    let memory_end = end(address, memory_size)?;
    if file.size > memory_size || maximum_protection & !7 != 0 || initial_protection & !maximum_protection != 0 {
        return Err(KcMetadataError::InvalidSegment);
    }
    // Only SG_NORELOC is layout-neutral in this initial inspection profile.
    if flags & !4 != 0 {
        return Err(KcMetadataError::UnsupportedSegmentFlags);
    }
    let mut sections: Vec<SectionMetadata> = Vec::new();
    let mut k: usize = 0;
    while k < count
        invariant
            cmd@.len() == 72 + count * 80,
            count <= MAX_SECTIONS,
            count == le_u32(cmd@, 64),
            k <= count,
            memory_end == address + memory_size,
            address == le_u64(cmd@, 24),
            memory_size == le_u64(cmd@, 32),
            file.offset == le_u64(cmd@, 40) && file.size == le_u64(cmd@, 48),
            good ==> segment_checks(bytes@, cmd@, old(budget).sections as int),
            forall|i: int| 0 <= i < sections@.len() ==> within_input((#[trigger] sections@[i]).relocations, bytes@.len() as int),
            sections@.len() == k,
            forall|i: int| 0 <= i < sections@.len() ==> section_from(cmd@, i, #[trigger] sections@[i]),
        decreases count - k,
    {
        proof {
            if good {
                assert(section_checks(bytes@, cmd@, k as int));
            }
        }
        let s = slice(cmd, 72 + k * 80, 80)?;
        proof {
            lemma_sub_words(cmd@, 72 + k * 80, 80);
            assert(s@.subrange(16, 32) =~= cmd@.subrange(72 + 80 * k + 16, 72 + 80 * k + 32));
        }
        let sa = u64_at(s, 32)?;
        let size = u64_at(s, 40)?;
        let section_offset = u32_at(s, 48)? as u64;
        let align = u32_at(s, 52)?;
        let section_flags = u32_at(s, 64)?;
        proof {
            assert(cmd@.subrange(8, 24) =~= cmd@.subrange(8, 24));
        }
        if !crate::bytes::bytes_eq(&s[16..32], &cmd[8..24]) || sa < address || end(sa, size)? > memory_end
            || align >= 64 {
            return Err(KcMetadataError::InvalidSection);
        }
        let shift = align as u64;
        assert(shift < 64 ==> (1u64 << shift) >= 1) by (bit_vector);
        if sa & ((1u64 << shift) - 1) != 0 {
            return Err(KcMetadataError::InvalidSection);
        }
        let zero_fill = section_flags & 0xff;
        if !(zero_fill == 1 || zero_fill == 0xc || zero_fill == 0x12) && size != 0 {
            let section_file = FileRange { offset: section_offset, size };
            if !contains(&file, &section_file) || section_offset - file.offset != sa - address {
                return Err(KcMetadataError::InvalidSection);
            }
        }
        let relocations = file_range(bytes, u32_at(s, 56)? as u64, u32_at(s, 60)? as u64, 8)?;
        sections.push(SectionMetadata { address: sa, size, file_offset: section_offset, flags: section_flags, relocations });
        k = k + 1;
    }
    let mut ordered: Vec<(u64, u64)> = Vec::new();
    let ghost mut src: Seq<int> = Seq::empty();
    let mut k: usize = 0;
    while k < sections.len()
        invariant
            k <= sections@.len(),
            src.len() == ordered@.len(),
            forall|q: int| 0 <= q < ordered@.len() ==> 0 <= #[trigger] src[q] < k && sections@[src[q]].size != 0
                && ordered@[q] == (sections@[src[q]].address, sections@[src[q]].size),
            forall|q1: int, q2: int| 0 <= q1 < q2 < ordered@.len() ==> #[trigger] src[q1] < #[trigger] src[q2],
        decreases sections@.len() - k,
    {
        if sections[k].size != 0 {
            proof {
                src = src.push(k as int);
            }
            ordered.push((sections[k].address, sections[k].size));
        }
        k = k + 1;
    }
    let ghost unsorted = ordered@;
    let ordered = sort_pairs(ordered);
    let ghost from = choose|from: Seq<int>| crate::ranges::places(from, ordered@, unsorted);
    let mut p: usize = 1;
    while p < ordered.len()
        invariant
            1 <= p,
            crate::ranges::places(from, ordered@, unsorted),
            forall|q: int| 0 <= q < unsorted.len() ==> 0 <= #[trigger] src[q] < sections@.len() && sections@[src[q]].size != 0
                && unsorted[q] == (sections@[src[q]].address, sections@[src[q]].size),
            forall|q1: int, q2: int| 0 <= q1 < q2 < unsorted.len() ==> #[trigger] src[q1] < #[trigger] src[q2],
            forall|a: int, c: int| 0 <= a < c < ordered@.len() ==> (#[trigger] ordered@[a]).0 <= (#[trigger] ordered@[c]).0,
            forall|i: int| 0 <= i < sections@.len() ==> section_from(cmd@, i, #[trigger] sections@[i]),
            sections@.len() == count,
            count == le_u32(cmd@, 64),
            good ==> segment_checks(bytes@, cmd@, old(budget).sections as int),
        decreases ordered@.len() - p,
    {
        proof {
            if good {
                let x = src[from[p - 1]];
                let y = src[from[p as int]];
                assert(from[p - 1] != from[p as int]);
                assert(x != y) by {
                    if from[p - 1] < from[p as int] {
                        assert(src[from[p - 1]] < src[from[p as int]]);
                    } else {
                        assert(src[from[p as int]] < src[from[p - 1]]);
                    }
                }
                assert(unsorted[from[p - 1]] == ordered@[p - 1]);
                assert(unsorted[from[p as int]] == ordered@[p as int]);
                assert(section_from(cmd@, x, sections@[x]));
                assert(section_from(cmd@, y, sections@[y]));
                assert(section_checks(bytes@, cmd@, x));
                assert(ordered@[p - 1].0 <= ordered@[p as int].0);
                if x < y {
                    assert(!(le_u64(cmd@, 72 + 80 * x + 32) < le_u64(cmd@, 72 + 80 * y + 32) + le_u64(cmd@, 72 + 80 * y + 40)
                        && le_u64(cmd@, 72 + 80 * y + 32) < le_u64(cmd@, 72 + 80 * x + 32) + le_u64(cmd@, 72 + 80 * x + 40)));
                } else {
                    assert(!(le_u64(cmd@, 72 + 80 * y + 32) < le_u64(cmd@, 72 + 80 * x + 32) + le_u64(cmd@, 72 + 80 * x + 40)
                        && le_u64(cmd@, 72 + 80 * x + 32) < le_u64(cmd@, 72 + 80 * y + 32) + le_u64(cmd@, 72 + 80 * y + 40)));
                }
            }
        }
        if end(ordered[p - 1].0, ordered[p - 1].1)? > ordered[p].0 {
            return Err(KcMetadataError::OverlappingRange);
        }
        p = p + 1;
    }
    let name: [u8; 16] = [
        cmd[8], cmd[9], cmd[10], cmd[11], cmd[12], cmd[13], cmd[14], cmd[15], cmd[16], cmd[17],
        cmd[18], cmd[19], cmd[20], cmd[21], cmd[22], cmd[23],
    ];
    assert(name@ =~= cmd@.subrange(8, 24));
    Ok(SegmentMetadata {
        name,
        address,
        memory_size,
        file,
        maximum_protection,
        initial_protection,
        flags,
        sections,
    })
}

/// The little-endian words of a window of `b` are the words of `b` at the shifted place.
proof fn lemma_sub_words(b: Seq<u8>, at: int, len: int)
    requires
        0 <= at,
        0 <= len,
        at + len <= b.len(),
    ensures
        forall|i: int| 0 <= i && i + 4 <= len ==> #[trigger] le_u32(b.subrange(at, at + len), i) == le_u32(b, at + i),
        forall|i: int| 0 <= i && i + 8 <= len ==> #[trigger] le_u64(b.subrange(at, at + len), i) == le_u64(b, at + i),
{
    let w = b.subrange(at, at + len);
    assert forall|i: int| 0 <= i && i + 4 <= len implies #[trigger] le_u32(w, i) == le_u32(b, at + i) by {
        assert(w[i] == b[at + i] && w[i + 1] == b[at + i + 1] && w[i + 2] == b[at + i + 2] && w[i + 3] == b[at + i + 3]);
    }
    assert forall|i: int| 0 <= i && i + 8 <= len implies #[trigger] le_u64(w, i) == le_u64(b, at + i) by {
        assert(w[i] == b[at + i] && w[i + 1] == b[at + i + 1] && w[i + 2] == b[at + i + 2] && w[i + 3] == b[at + i + 3]);
        assert(w[i + 4] == b[at + i + 4] && w[i + 5] == b[at + i + 5] && w[i + 6] == b[at + i + 6] && w[i + 7] == b[at + i + 7]);
    }
}

/// The load-command area of an image: the bytes after its 32-byte header.
pub open spec fn commands_of(b: Seq<u8>, img: ImageMetadata) -> Seq<u8> {
    b.subrange(
        img.header_file_offset + 32,
        img.header_file_offset + 32 + img.command_bytes,
    )
}

/// A load command of kind `kind` starts at offset `o` of `cmds` and fits in it.
pub open spec fn is_command(cmds: Seq<u8>, o: int, kind: int) -> bool {
    &&& 0 <= o
    &&& o + 8 <= cmds.len()
    &&& le_u32(cmds, o) == kind
    &&& o + le_u32(cmds, o + 4) <= cmds.len()
}

/// The bytes of the load command at offset `o` of `cmds`, as long as its size field says.
pub open spec fn command_bytes_at(cmds: Seq<u8>, o: int) -> Seq<u8> {
    cmds.subrange(o, o + le_u32(cmds, o + 4))
}

/// An image's header fields as the 32 header bytes at its file offset give them.
pub open spec fn header_from(b: Seq<u8>, img: ImageMetadata) -> bool {
    let h = img.header_file_offset as int;
    &&& h + 32 + img.command_bytes <= b.len()
    &&& le_u32(b, h) == 0xfeed_facf
    &&& img.cpu_type == le_u32(b, h + 4)
    &&& img.cpu_subtype == le_u32(b, h + 8)
    &&& img.file_type == le_u32(b, h + 12)
    &&& img.command_count == le_u32(b, h + 16)
    &&& img.command_bytes == le_u32(b, h + 20)
    &&& img.flags == le_u32(b, h + 24)
}

/// Segment `s` is read from the segment command at offset `o` of `cmds`.
pub open spec fn segment_command(cmds: Seq<u8>, o: int, s: SegmentMetadata) -> bool {
    is_command(cmds, o, 0x19) && segment_from(command_bytes_at(cmds, o), s)
}

/// Every segment of an image is read from one of its segment commands.
pub open spec fn segments_from(b: Seq<u8>, img: ImageMetadata) -> bool {
    forall|i: int| 0 <= i < img.segments@.len() ==> #[trigger] segment_read(b, img, i)
}

/// Segment `i` of an image is read from one of its segment commands.
pub open spec fn segment_read(b: Seq<u8>, img: ImageMetadata, i: int) -> bool {
    exists|o: int| #[trigger] segment_command(commands_of(b, img), o, img.segments@[i])
}

/// `e` is the entry that the load command at offset `o` of `cmds` gives: the
/// instruction pointer of a thread command, the architecture's other state words
/// with it, or the offset and stack size of a main command.
pub open spec fn entry_command(cmds: Seq<u8>, o: int, e: EntryMetadata) -> bool {
    let c = command_bytes_at(cmds, o);
    ||| is_command(cmds, o, 5) && e == EntryMetadata::UnixThread64 { instruction_pointer: le_u64(c, 144) as u64 }
    ||| is_command(cmds, o, 5) && e == EntryMetadata::ArmThread64 {
        instruction_pointer: le_u64(c, 272) as u64,
        stack_pointer: le_u64(c, 264) as u64,
        cpsr: le_u32(c, 280) as u32,
        flags: le_u32(c, 284) as u32,
    }
    ||| is_command(cmds, o, 0x8000_0028) && e == EntryMetadata::Main {
        text_offset: le_u64(c, 8) as u64,
        stack_size: le_u64(c, 16) as u64,
    }
}

proof fn lemma_segments_from(b: Seq<u8>, img: ImageMetadata, offsets: Seq<int>)
    requires
        offsets.len() == img.segments@.len(),
        forall|i: int| 0 <= i < img.segments@.len() ==> segment_command(
            commands_of(b, img),
            offsets[i],
            #[trigger] img.segments@[i],
        ),
    ensures
        segments_from(b, img),
{
    assert forall|i: int| 0 <= i < img.segments@.len() implies #[trigger] segment_read(b, img, i) by {
        assert(segment_command(commands_of(b, img), offsets[i], img.segments@[i]));
    }
}

/// Some fileset-entry command in `cmds` names a member with this identifier at this offset.
pub open spec fn member_listed(cmds: Seq<u8>, identifier: Seq<u8>, offset: u64) -> bool {
    exists|o: int| #[trigger] member_command(cmds, o, identifier, offset)
}

/// An image's entry, if any, is read from one of its load commands.
pub open spec fn entry_from(b: Seq<u8>, img: ImageMetadata) -> bool {
    match img.entry {
        None => true,
        Some(e) => exists|o: int| #[trigger] entry_command(commands_of(b, img), o, e),
    }
}

/// A fileset-entry command at offset `o` of `cmds` names a member at file offset
/// `offset`: `identifier` is its NUL-terminated text.
pub open spec fn member_command(cmds: Seq<u8>, o: int, identifier: Seq<u8>, offset: u64) -> bool {
    let c = command_bytes_at(cmds, o);
    let start = le_u32(c, 24);
    &&& is_command(cmds, o, 0x8000_0035)
    &&& start + identifier.len() < c.len()
    &&& identifier == c.subrange(start, start + identifier.len())
    &&& c[start + identifier.len()] == 0
    &&& forall|k: int| 0 <= k < identifier.len() ==> identifier[k] != 0
    &&& offset == le_u64(c, 16)
}

/// Section `i` of a segment command, as its 80-byte record gives it.
pub open spec fn section_from(cmd: Seq<u8>, i: int, s: SectionMetadata) -> bool {
    let at = 72 + 80 * i;
    &&& s.address == le_u64(cmd, at + 32)
    &&& s.size == le_u64(cmd, at + 40)
    &&& s.file_offset == le_u32(cmd, at + 48)
    &&& s.flags == le_u32(cmd, at + 64)
    &&& s.relocations.offset == le_u32(cmd, at + 56)
    &&& s.relocations.size == le_u32(cmd, at + 60) * 8
}

/// A segment as the bytes of its 64-bit segment command give it: name, addresses,
/// file range, protections, flags and every section record in order.
pub open spec fn segment_from(cmd: Seq<u8>, s: SegmentMetadata) -> bool {
    &&& cmd.len() == 72 + 80 * le_u32(cmd, 64)
    &&& s.name@ == cmd.subrange(8, 24)
    &&& s.address == le_u64(cmd, 24)
    &&& s.memory_size == le_u64(cmd, 32)
    &&& s.file.offset == le_u64(cmd, 40)
    &&& s.file.size == le_u64(cmd, 48)
    &&& s.maximum_protection == le_u32(cmd, 56)
    &&& s.initial_protection == le_u32(cmd, 60)
    &&& s.flags == le_u32(cmd, 68)
    &&& s.sections@.len() == le_u32(cmd, 64)
    &&& forall|i: int| 0 <= i < s.sections@.len() ==> section_from(cmd, i, #[trigger] s.sections@[i])
}

/// A page-start summary of a segment among `segment_count`.
pub open spec fn fixup_segment_ok(f: FixupSegmentMetadata, segment_count: int) -> bool {
    &&& f.segment_index < segment_count
    &&& (f.page_size == 4096 || f.page_size == 16384)
    &&& f.pages_with_fixups <= f.page_count
    &&& f.multiple_start_pages <= f.pages_with_fixups
}

/// What every chained-fixup summary the parser returns satisfies.
pub open spec fn fixups_ok(m: ChainedFixupMetadata, file: FileRange, segment_count: int) -> bool {
    &&& m.file == file
    &&& m.symbols_format <= 1
    &&& 1 <= m.imports_format <= 3
    &&& forall|k: int| 0 <= k < m.segments@.len() ==> fixup_segment_ok(#[trigger] m.segments@[k], segment_count)
    &&& forall|a: int, c: int| 0 <= a < c < m.segments@.len() ==> (#[trigger] m.segments@[a]).segment_index < (#[trigger] m.segments@[c]).segment_index
}

#[verifier::loop_isolation(false)]
fn parse_fixups(bytes: &[u8], file: FileRange, segments: &Vec<SegmentMetadata>, header_address: u64) -> (r:
    Result<ChainedFixupMetadata, KcMetadataError>)
    requires
        bytes@.len() <= MAX_INPUT_SIZE,
    ensures
        r matches Ok(m) ==> fixups_ok(m, file, segments@.len() as int),
        file.offset + file.size <= u64::MAX ==> (fixup_header_error(bytes@, file) matches Some(e) ==> r == Err::<
            ChainedFixupMetadata,
            KcMetadataError,
        >(e)),
{
    if file.size > MAX_FIXUP_BYTES {
        return Err(KcMetadataError::LimitExceeded);
    }
    let data = range(bytes, file.offset, file.size)?;
    slice(data, 0, 28)?;
    proof {
        lemma_sub_words(bytes@, file.offset as int, file.size as int);
    }
    if u32_at(data, 0)? != 0 {
        return Err(KcMetadataError::UnsupportedFixupVersion);
    }
    let starts = u32_at(data, 4)? as usize;
    let imports = u32_at(data, 8)? as usize;
    let symbols = u32_at(data, 12)? as usize;
    let imports_count = u32_at(data, 16)?;
    let imports_format = u32_at(data, 20)?;
    let symbols_format = u32_at(data, 24)?;
    if starts < 28 || imports < 28 || symbols < 28 || symbols > data.len() || symbols_format > 1 {
        return Err(KcMetadataError::InvalidFixups);
    }
    let import_width: u64 = if imports_format == 1 {
        4
    } else if imports_format == 2 {
        8
    } else if imports_format == 3 {
        16
    } else {
        return Err(KcMetadataError::InvalidFixups);
    };
    let import_range = file_range(data, imports as u64, imports_count as u64, import_width)?;
    let symbol_range = FileRange { offset: symbols as u64, size: (data.len() - symbols) as u64 };
    if overlaps(&import_range, &symbol_range) {
        return Err(KcMetadataError::InvalidFixups);
    }
    let count = u32_at(data, starts)? as usize;
    if count != segments.len() {
        return Err(KcMetadataError::InvalidFixups);
    }
    if count > data.len() {
        return Err(KcMetadataError::Truncated);
    }
    let table_size = 4 + count * 4;
    slice(data, starts, table_size)?;
    let table_range = FileRange { offset: starts as u64, size: table_size as u64 };
    if overlaps(&table_range, &import_range) || overlaps(&table_range, &symbol_range) {
        return Err(KcMetadataError::InvalidFixups);
    }
    let mut info_ranges: Vec<FileRange> = Vec::new();
    let mut result: Vec<FixupSegmentMetadata> = Vec::new();
    let mut start_visits: usize = 0;
    let mut index: usize = 0;
    while index < count
        invariant
            index <= count,
            count == segments@.len(),
            starts + table_size <= data@.len() <= MAX_FIXUP_BYTES,
            table_size == 4 + count * 4,
            start_visits <= MAX_PAGE_START_VISITS,
            within_input(import_range, data@.len() as int),
            within_input(symbol_range, data@.len() as int),
            forall|i: int| 0 <= i < info_ranges@.len() ==> within_input(#[trigger] info_ranges@[i], data@.len() as int),
            symbols_format <= 1,
            1 <= imports_format <= 3,
            forall|k: int| 0 <= k < result@.len() ==> fixup_segment_ok(#[trigger] result@[k], index as int),
            forall|k: int| 0 <= k < result@.len() ==> fixup_segment_ok(#[trigger] result@[k], count as int),
            forall|a: int, c: int| 0 <= a < c < result@.len() ==> (#[trigger] result@[a]).segment_index < (#[trigger] result@[c]).segment_index,
        decreases count - index,
    {
        let segment = &segments[index];
        let relative = u32_at(data, starts + 4 + index * 4)? as usize;
        if relative != 0 {
            if relative < table_size {
                return Err(KcMetadataError::InvalidFixups);
            }
            let at = match starts.checked_add(relative) {
                Some(v) => v,
                None => return Err(KcMetadataError::Overflow),
            };
            let size = u32_at(data, at)? as usize;
            if size < 22 || (size - 22) % 2 != 0 {
                return Err(KcMetadataError::InvalidFixups);
            }
            let info = slice(data, at, size)?;
            let ir = FileRange { offset: at as u64, size: size as u64 };
            let mut q: usize = 0;
            while q < info_ranges.len()
                invariant
                    within_input(ir, data@.len() as int),
                    forall|i: int| 0 <= i < info_ranges@.len() ==> within_input(#[trigger] info_ranges@[i], data@.len() as int),
                    data@.len() <= MAX_FIXUP_BYTES,
                decreases info_ranges@.len() - q,
            {
                let other = info_ranges[q];
                if overlaps(&other, &ir) {
                    return Err(KcMetadataError::InvalidFixups);
                }
                q = q + 1;
            }
            if overlaps(&ir, &import_range) || overlaps(&ir, &symbol_range) {
                return Err(KcMetadataError::InvalidFixups);
            }
            info_ranges.push(ir);
            let page_size = u16_at(info, 4)?;
            let pointer_format = u16_at(info, 6)?;
            let segment_offset = u64_at(info, 8)?;
            let page_count = u16_at(info, 20)?;
            // This compares an on-disk modulo displacement. It does not calculate
            // a physical address or make an overflowed placement usable.
            if segment_offset != segment.address.wrapping_sub(header_address) || !(page_size == 4096
                || page_size == 16384) || u32_at(info, 16)? != 0 {
                return Err(KcMetadataError::InvalidFixups);
            }
            let ps = page_size as u64;
            let whole = segment.memory_size / ps;
            assert(whole < 0xffff_ffff_ffff_ffff) by (nonlinear_arith)
                requires
                    whole == segment.memory_size / ps,
                    ps >= 4096,
            ;
            let pages_needed = if segment.memory_size % ps != 0 {
                whole + 1
            } else {
                whole
            };
            if page_count as u64 > pages_needed {
                return Err(KcMetadataError::InvalidFixups);
            }
            let available = (size - 22) / 2;
            if page_count as usize > available {
                return Err(KcMetadataError::InvalidFixups);
            }
            let mut pages_with_fixups: u32 = 0;
            let mut multiple_start_pages: u32 = 0;
            let mut page: usize = 0;
            while page < page_count as usize
                invariant
                    info@.len() == size,
                    available == (size - 22) / 2,
                    page_count <= available,
                    page_size == 4096 || page_size == 16384,
                    start_visits <= MAX_PAGE_START_VISITS,
                    page <= page_count,
                    pages_with_fixups <= page,
                    multiple_start_pages <= pages_with_fixups,
                decreases page_count - page,
            {
                add_budget(&mut start_visits, 1, MAX_PAGE_START_VISITS)?;
                let first = u16_at(info, 22 + page * 2)?;
                if first != 0xffff {
                    pages_with_fixups = pages_with_fixups + 1;
                    let page_offset = page as u64 * page_size as u64;
                    let file_left = if segment.file.size > page_offset { segment.file.size - page_offset } else { 0 };
                    let memory_left = if segment.memory_size > page_offset { segment.memory_size - page_offset } else { 0 };
                    let backed_bytes = if file_left < memory_left { file_left } else { memory_left };
                    if first & 0x8000 == 0 {
                        validate_page_start(first, page_size, backed_bytes, pointer_format)?;
                    } else {
                        multiple_start_pages = multiple_start_pages + 1;
                        let mut cursor = (first & 0x7fff) as usize;
                        if cursor < page_count as usize {
                            return Err(KcMetadataError::InvalidFixups);
                        }
                        loop
                            invariant
                                info@.len() == size,
                                available == (size - 22) / 2,
                                start_visits <= MAX_PAGE_START_VISITS,
                            decreases MAX_PAGE_START_VISITS - start_visits,
                        {
                            add_budget(&mut start_visits, 1, MAX_PAGE_START_VISITS)?;
                            if cursor >= available {
                                return Err(KcMetadataError::InvalidFixups);
                            }
                            let value = u16_at(info, 22 + cursor * 2)?;
                            validate_page_start(value & 0x7fff, page_size, backed_bytes, pointer_format)?;
                            if value & 0x8000 != 0 {
                                break;
                            }
                            cursor = cursor + 1;
                        }
                    }
                }
                page = page + 1;
            }
            result.push(FixupSegmentMetadata {
                segment_index: index,
                pointer_format,
                page_size,
                page_count,
                pages_with_fixups,
                multiple_start_pages,
                segment_offset,
            });
        }
        index = index + 1;
    }
    let m = ChainedFixupMetadata { file, imports_count, imports_format, symbols_format, segments: result };
    Ok(m)
}

fn validate_page_start(offset: u16, page_size: u16, backed_bytes: u64, format: u16) -> (r: Result<(), KcMetadataError>)
    ensures
        r is Ok <==> offset < page_size && offset + (if format == 8 || format == 11 { 8int } else { 1int }) <= backed_bytes,
        r is Err ==> r == Err::<(), KcMetadataError>(KcMetadataError::InvalidFixups),
{
    let width: u64 = if format == 8 || format == 11 { 8 } else { 1 };
    // KC chains group starts by page; an unaligned terminal word can straddle
    // it. Its full word still must fit the segment's file-backed memory.
    if offset >= page_size || offset as u64 + width > backed_bytes {
        return Err(KcMetadataError::InvalidFixups);
    }
    Ok(())
}

/// Two segments' memory ranges meet.
pub open spec fn memory_meets(a: SegmentMetadata, b: SegmentMetadata) -> bool {
    a.memory_size != 0 && b.memory_size != 0 && a.address < b.address + b.memory_size && b.address < a.address
        + a.memory_size
}

/// Each range of `s` ends at or before the next one starts.
spec fn apart_in_order(s: Seq<(u64, u64)>) -> bool {
    forall|q: int| 1 <= q < s.len() ==> #[trigger] s[q - 1].0 + s[q - 1].1 <= s[q].0
}

/// Ranges each apart from the next are apart from every later one.
proof fn lemma_apart_chain(s: Seq<(u64, u64)>, a: int, c: int)
    requires
        apart_in_order(s),
        0 <= a < c < s.len(),
    ensures
        s[a].0 + s[a].1 <= s[c].0,
    decreases c - a,
{
    assert(s[c - 1].0 + s[c - 1].1 <= s[c].0);
    if a < c - 1 {
        lemma_apart_chain(s, a, c - 1);
    }
}

#[verifier::loop_isolation(false)]
fn validate_nonoverlap(segments: &Vec<SegmentMetadata>) -> (r: Result<(), KcMetadataError>)
    requires
        forall|i: int| 0 <= i < segments@.len() ==> (#[trigger] segments@[i]).file.offset + segments@[i].file.size <= u64::MAX,
    ensures
        r is Ok ==> forall|i: int, j: int|
            0 <= i < j < segments@.len() ==> !memory_meets(#[trigger] segments@[i], #[trigger] segments@[j])
                && !ranges_overlap(segments@[i].file, segments@[j].file),
        (forall|i: int| 0 <= i < segments@.len() && (#[trigger] segments@[i]).memory_size != 0 ==> segments@[i].address
            + segments@[i].memory_size <= u64::MAX) && (forall|i: int, j: int|
            0 <= i < j < segments@.len() ==> !memory_meets(#[trigger] segments@[i], #[trigger] segments@[j])
                && !ranges_overlap(segments@[i].file, segments@[j].file)) ==> r is Ok,
{
    let ghost segs = segments@;
    let mut by_address: Vec<(u64, u64)> = Vec::new();
    let mut by_file: Vec<(u64, u64)> = Vec::new();
    let ghost mut mpos: Seq<int> = Seq::empty();
    let ghost mut msrc: Seq<int> = Seq::empty();
    let ghost mut fpos: Seq<int> = Seq::empty();
    let ghost mut fsrc: Seq<int> = Seq::empty();
    let mut i: usize = 0;
    while i < segments.len()
        invariant
            segs == segments@,
            i <= segs.len(),
            forall|k: int| 0 <= k < segs.len() ==> (#[trigger] segs[k]).file.offset + segs[k].file.size <= u64::MAX,
            mpos.len() == i && fpos.len() == i,
            msrc.len() == by_address@.len() && fsrc.len() == by_file@.len(),
            forall|k: int| 0 <= k < i && (#[trigger] segs[k]).memory_size != 0 ==> 0 <= mpos[k] < by_address@.len()
                && by_address@[mpos[k]] == (segs[k].address, segs[k].memory_size) && msrc[mpos[k]] == k,
            forall|k: int| 0 <= k < i && (#[trigger] segs[k]).file.size != 0 ==> 0 <= fpos[k] < by_file@.len()
                && by_file@[fpos[k]] == (segs[k].file.offset, segs[k].file.size) && fsrc[fpos[k]] == k,
            forall|q: int| 0 <= q < by_address@.len() ==> 0 <= #[trigger] msrc[q] < i && segs[msrc[q]].memory_size != 0
                && by_address@[q] == (segs[msrc[q]].address, segs[msrc[q]].memory_size),
            forall|q: int| 0 <= q < by_file@.len() ==> 0 <= #[trigger] fsrc[q] < i && segs[fsrc[q]].file.size != 0
                && by_file@[q] == (segs[fsrc[q]].file.offset, segs[fsrc[q]].file.size),
            forall|q1: int, q2: int| 0 <= q1 < q2 < by_address@.len() ==> #[trigger] msrc[q1] < #[trigger] msrc[q2],
            forall|q1: int, q2: int| 0 <= q1 < q2 < by_file@.len() ==> #[trigger] fsrc[q1] < #[trigger] fsrc[q2],
        decreases segments@.len() - i,
    {
        let s = &segments[i];
        if s.memory_size != 0 {
            proof {
                mpos = mpos.push(by_address@.len() as int);
                msrc = msrc.push(i as int);
            }
            by_address.push((s.address, s.memory_size));
        } else {
            proof {
                mpos = mpos.push(-1);
            }
        }
        if s.file.size != 0 {
            proof {
                fpos = fpos.push(by_file@.len() as int);
                fsrc = fsrc.push(i as int);
            }
            by_file.push((s.file.offset, s.file.size));
        } else {
            proof {
                fpos = fpos.push(-1);
            }
        }
        i = i + 1;
    }
    let ghost unsorted_a = by_address@;
    let by_address = sort_pairs(by_address);
    let ghost a_place = choose|place: Seq<int>| crate::ranges::places(place, unsorted_a, by_address@);
    let ghost a_from = choose|from: Seq<int>| crate::ranges::places(from, by_address@, unsorted_a);
    let mut p: usize = 1;
    while p < by_address.len()
        invariant
            1 <= p,
            segs == segments@,
            forall|q: int| 1 <= q < p && q < by_address@.len() ==> #[trigger] by_address@[q - 1].0 + by_address@[q - 1].1
                <= by_address@[q].0,
        decreases by_address@.len() - p,
    {
        proof {
            let x = msrc[a_from[p - 1]];
            let y = msrc[a_from[p as int]];
            assert(a_from[p - 1] != a_from[p as int]);
            assert(unsorted_a[a_from[p - 1]] == by_address@[p - 1]);
            assert(unsorted_a[a_from[p as int]] == by_address@[p as int]);
            if x > y {
                assert(msrc[a_from[p as int]] < msrc[a_from[p - 1]]);
            }
            assert(x != y) by {
                if a_from[p - 1] < a_from[p as int] {
                    assert(msrc[a_from[p - 1]] < msrc[a_from[p as int]]);
                } else {
                    assert(msrc[a_from[p as int]] < msrc[a_from[p - 1]]);
                }
            }
        }
        if end(by_address[p - 1].0, by_address[p - 1].1)? > by_address[p].0 {
            proof {
                let x = msrc[a_from[p - 1]];
                let y = msrc[a_from[p as int]];
                assert(memory_meets(segs[x], segs[y]));
                if x > y {
                    assert(memory_meets(segs[y], segs[x]));
                }
            }
            return Err(KcMetadataError::OverlappingRange);
        }
        p = p + 1;
    }
    proof {
        assert(apart_in_order(by_address@));
    }
    let ghost unsorted = by_file@;
    let by_file = sort_pairs(by_file);
    let ghost f_place = choose|place: Seq<int>| crate::ranges::places(place, unsorted, by_file@);
    let ghost f_from = choose|from: Seq<int>| crate::ranges::places(from, by_file@, unsorted);
    let mut p: usize = 1;
    while p < by_file.len()
        invariant
            1 <= p,
            segs == segments@,
            forall|k: int| 0 <= k < segs.len() ==> (#[trigger] segs[k]).file.offset + segs[k].file.size <= u64::MAX,
            forall|q: int| 1 <= q < p && q < by_file@.len() ==> #[trigger] by_file@[q - 1].0 + by_file@[q - 1].1
                <= by_file@[q].0,
        decreases by_file@.len() - p,
    {
        let a = by_file[p - 1];
        let b = by_file[p];
        proof {
            assert(unsorted[f_from[p - 1]] == by_file@[p - 1]);
            assert(unsorted[f_from[p as int]] == by_file@[p as int]);
            assert(f_from[p - 1] != f_from[p as int]);
            assert(fsrc[f_from[p - 1]] != fsrc[f_from[p as int]]) by {
                if f_from[p - 1] < f_from[p as int] {
                    assert(fsrc[f_from[p - 1]] < fsrc[f_from[p as int]]);
                } else {
                    assert(fsrc[f_from[p as int]] < fsrc[f_from[p - 1]]);
                }
            }
        }
        let ra = FileRange { offset: a.0, size: a.1 };
        let rb = FileRange { offset: b.0, size: b.1 };
        if overlaps(&ra, &rb) {
            proof {
                let x = fsrc[f_from[p - 1]];
                let y = fsrc[f_from[p as int]];
                assert(ranges_overlap(segs[x].file, segs[y].file));
                if x > y {
                    assert(ranges_overlap(segs[y].file, segs[x].file));
                }
            }
            return Err(KcMetadataError::OverlappingRange);
        }
        p = p + 1;
    }
    proof {
        assert(apart_in_order(by_file@));
        assert forall|i: int, j: int| 0 <= i < j < segs.len() implies !memory_meets(#[trigger] segs[i], #[trigger] segs[j])
            && !ranges_overlap(segs[i].file, segs[j].file) by {
            if segs[i].memory_size != 0 && segs[j].memory_size != 0 {
                let x = a_place[mpos[i]];
                let y = a_place[mpos[j]];
                assert(mpos[i] != mpos[j]) by {
                    assert(msrc[mpos[i]] == i && msrc[mpos[j]] == j);
                }
                assert(x != y);
                if x < y {
                    lemma_apart_chain(by_address@, x, y);
                } else {
                    lemma_apart_chain(by_address@, y, x);
                }
            }
            if segs[i].file.size != 0 && segs[j].file.size != 0 {
                let x = f_place[fpos[i]];
                let y = f_place[fpos[j]];
                assert(fpos[i] != fpos[j]) by {
                    assert(fsrc[fpos[i]] == i && fsrc[fpos[j]] == j);
                }
                assert(x != y);
                if x < y {
                    lemma_apart_chain(by_file@, x, y);
                } else {
                    lemma_apart_chain(by_file@, y, x);
                }
            }
        }
    }
    Ok(())
}

fn set_entry(entry: &mut Option<EntryMetadata>, value: EntryMetadata) -> (r: Result<(), KcMetadataError>)
    ensures
        *old(entry) is None ==> r is Ok && *final(entry) == Some(value),
        *old(entry) is Some ==> r == Err::<(), KcMetadataError>(KcMetadataError::DuplicateEntry),
{
    if entry.is_some() {
        return Err(KcMetadataError::DuplicateEntry);
    }
    *entry = Some(value);
    Ok(())
}

fn add_budget(value: &mut usize, amount: usize, limit: usize) -> (r: Result<(), KcMetadataError>)
    ensures
        r is Ok <==> old(value) + amount <= limit,
        r is Ok ==> *final(value) == old(value) + amount,
        *old(value) <= limit ==> *final(value) <= limit || r is Err,
        r is Err ==> *final(value) == *old(value),
{
    let next = match value.checked_add(amount) {
        Some(v) => v,
        None => return Err(KcMetadataError::Overflow),
    };
    if next > limit {
        return Err(KcMetadataError::LimitExceeded);
    }
    *value = next;
    Ok(())
}

fn end(start: u64, size: u64) -> (r: Result<u64, KcMetadataError>)
    ensures
        r matches Ok(e) ==> e == start + size,
        r is Err ==> start + size > u64::MAX && r == Err::<u64, KcMetadataError>(KcMetadataError::Overflow),
{
    match start.checked_add(size) {
        Some(e) => Ok(e),
        None => Err(KcMetadataError::Overflow),
    }
}

fn contains(outer: &FileRange, inner: &FileRange) -> (r: bool)
    ensures
        r == range_contains(*outer, *inner),
{
    if inner.offset < outer.offset {
        return false;
    }
    match (inner.offset.checked_add(inner.size), outer.offset.checked_add(outer.size)) {
        (Some(a), Some(b)) => a <= b,
        _ => false,
    }
}

fn overlaps(a: &FileRange, b: &FileRange) -> (r: bool)
    requires
        a.offset + a.size <= u64::MAX,
        b.offset + b.size <= u64::MAX,
    ensures
        r == ranges_overlap(*a, *b),
{
    a.size != 0 && b.size != 0 && a.offset < b.offset + b.size && b.offset < a.offset + a.size
}

fn file_range(bytes: &[u8], offset: u64, count: u64, width: u64) -> (r: Result<FileRange, KcMetadataError>)
    ensures
        r matches Ok(f) ==> f.offset == offset && f.size == count * width && within_input(f, bytes@.len() as int),
        r is Ok <==> count * width <= u64::MAX && offset + count * width <= bytes@.len(),
{
    let size = match count.checked_mul(width) {
        Some(s) => s,
        None => return Err(KcMetadataError::Overflow),
    };
    range(bytes, offset, size)?;
    Ok(FileRange { offset, size })
}

fn range(bytes: &[u8], offset: u64, size: u64) -> (r: Result<&[u8], KcMetadataError>)
    ensures
        r matches Ok(s) ==> offset + size <= bytes@.len() && s@ == bytes@.subrange(offset as int, offset + size),
        r is Ok <==> offset + size <= bytes@.len(),
        offset + size <= u64::MAX && offset + size > bytes@.len() ==> r == Err::<&[u8], KcMetadataError>(
            KcMetadataError::Truncated,
        ),
{
    let _n = bytes.len();
    if end(offset, size)? > bytes.len() as u64 {
        return Err(KcMetadataError::Truncated);
    }
    slice(bytes, offset as usize, size as usize)
}

fn slice(bytes: &[u8], offset: usize, size: usize) -> (r: Result<&[u8], KcMetadataError>)
    ensures
        r matches Ok(s) ==> offset + size <= bytes@.len() && s@ == bytes@.subrange(offset as int, offset + size),
        r is Err ==> offset + size > bytes@.len(),
        offset + size <= usize::MAX && offset + size > bytes@.len() ==> r == Err::<&[u8], KcMetadataError>(
            KcMetadataError::Truncated,
        ),
{
    let _n = bytes.len();
    let end = match offset.checked_add(size) {
        Some(e) => e,
        None => return Err(KcMetadataError::Overflow),
    };
    if end > bytes.len() {
        return Err(KcMetadataError::Truncated);
    }
    Ok(&bytes[offset..end])
}

fn exact(bytes: &[u8], expected: usize) -> (r: Result<(), KcMetadataError>)
    ensures
        r is Ok <==> bytes@.len() == expected,
{
    if bytes.len() != expected {
        return Err(KcMetadataError::InvalidCommand);
    }
    Ok(())
}

fn u16_at(bytes: &[u8], offset: usize) -> (r: Result<u16, KcMetadataError>)
    ensures
        r matches Ok(v) ==> offset + 2 <= bytes@.len() && v == le_u16(bytes@, offset as int),
        r is Err ==> offset + 2 > bytes@.len(),
{
    let _n = bytes.len();
    if offset > bytes.len() || bytes.len() - offset < 2 {
        return Err(KcMetadataError::Truncated);
    }
    Ok(read_u16(bytes, offset))
}

fn u32_at(bytes: &[u8], offset: usize) -> (r: Result<u32, KcMetadataError>)
    ensures
        r matches Ok(v) ==> offset + 4 <= bytes@.len() && v == le_u32(bytes@, offset as int),
        r is Err ==> offset + 4 > bytes@.len(),
{
    let _n = bytes.len();
    if offset > bytes.len() || bytes.len() - offset < 4 {
        return Err(KcMetadataError::Truncated);
    }
    Ok(read_u32(bytes, offset))
}

fn u64_at(bytes: &[u8], offset: usize) -> (r: Result<u64, KcMetadataError>)
    ensures
        r matches Ok(v) ==> offset + 8 <= bytes@.len() && v == le_u64(bytes@, offset as int),
        r is Err ==> offset + 8 > bytes@.len(),
{
    let _n = bytes.len();
    if offset > bytes.len() || bytes.len() - offset < 8 {
        return Err(KcMetadataError::Truncated);
    }
    Ok(read_u64(bytes, offset))
}

} // verus!

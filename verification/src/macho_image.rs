//! Bounded, allocation-only plans for a small static x86_64 Mach-O subset.
//!
//! Linked virtual addresses are not physical addresses. A caller must copy each
//! file range, zero the remaining segment memory, establish the requested
//! mappings/protections, and separately implement the target's entry ABI. No
//! relocation, authentication, register restoration, or kernel execution is
//! performed here.
use vstd::prelude::*;

use crate::bytes::{le_u32, le_u64, read_u32, read_u64};

verus! {

pub const MAX_FILE_SIZE: usize = 67108864;

pub const MAX_IMAGE_SIZE: u64 = 268435456;

pub const MAX_COMMANDS: usize = 1024;

pub const MAX_SEGMENTS: usize = 64;

pub const MAX_SECTIONS: usize = 1024;

pub const PAGE_SIZE: u64 = 4096;

pub const VM_PROT_READ: u32 = 1;

pub const VM_PROT_WRITE: u32 = 2;

pub const VM_PROT_EXECUTE: u32 = 4;

#[derive(Clone, Debug, PartialEq, Eq)]
pub struct MachOImagePlan {
    /// Lowest loaded linked VA, rounded down to a 4 KiB page boundary.
    pub preferred_base: u64,
    /// Page-rounded allocation span, including any holes between segments.
    pub image_size: u64,
    /// Linked VA of the Mach header in the segment containing file offset zero
    /// and the complete load-command table. Not necessarily `preferred_base`.
    pub header_vaddr: u64,
    pub entry_vaddr: u64,
    /// Command provenance only; this does not prescribe a CPU execution mode.
    pub entry_kind: EntryKind,
    /// Relative to `preferred_base`, never relative to the file or physical RAM.
    pub entry_offset: u64,
    /// Sorted by linked VA. A valid, unmapped __PAGEZERO guard is excluded.
    pub segments: Vec<SegmentPlan>,
}

#[derive(Clone, Copy, Debug, PartialEq, Eq)]
pub struct SegmentPlan {
    /// Raw fixed-width format name; do not log it as an unsanitized marker.
    pub name: [u8; 16],
    pub vmaddr: u64,
    pub memory_offset: u64,
    pub memory_size: u64,
    pub file_offset: usize,
    /// Copy this many bytes at `memory_offset`, then zero through `memory_size`.
    pub file_size: usize,
    pub init_prot: u32,
    pub max_prot: u32,
}

#[derive(Clone, Copy, Debug, PartialEq, Eq, Structural)]
pub enum EntryKind {
    Main,
    UnixThread64,
}

#[derive(Clone, Copy, Debug, PartialEq, Eq, Structural)]
pub enum MachOImageError {
    InputTooLarge,
    Truncated,
    UnsupportedFormat,
    UnsupportedCpu,
    UnsupportedFileType,
    UnsupportedFlags,
    UnsupportedCommand,
    UnsupportedThreadState,
    UnsupportedStack,
    UnsupportedRelocations,
    UnsupportedSection,
    LimitExceeded,
    InvalidHeader,
    InvalidCommand,
    InvalidSegment,
    InvalidSection,
    InvalidMetadata,
    Overflow,
    SegmentOverlap,
    SectionOverlap,
    MissingSegments,
    MissingEntry,
    DuplicateEntry,
    EntryOutsideExecutable,
}

impl MachOImageError {
    /// The fixed token of each variant.
    pub open spec fn token_text(&self) -> Seq<char> {
        match self {
            MachOImageError::InputTooLarge => "MACHO_INPUT_TOO_LARGE"@,
            MachOImageError::Truncated => "MACHO_TRUNCATED"@,
            MachOImageError::UnsupportedFormat => "MACHO_UNSUPPORTED_FORMAT"@,
            MachOImageError::UnsupportedCpu => "MACHO_UNSUPPORTED_CPU"@,
            MachOImageError::UnsupportedFileType => "MACHO_UNSUPPORTED_FILETYPE"@,
            MachOImageError::UnsupportedFlags => "MACHO_UNSUPPORTED_FLAGS"@,
            MachOImageError::UnsupportedCommand => "MACHO_UNSUPPORTED_COMMAND"@,
            MachOImageError::UnsupportedThreadState => "MACHO_UNSUPPORTED_THREAD_STATE"@,
            MachOImageError::UnsupportedStack => "MACHO_UNSUPPORTED_STACK"@,
            MachOImageError::UnsupportedRelocations => "MACHO_UNSUPPORTED_RELOCATIONS"@,
            MachOImageError::UnsupportedSection => "MACHO_UNSUPPORTED_SECTION"@,
            MachOImageError::LimitExceeded => "MACHO_LIMIT_EXCEEDED"@,
            MachOImageError::InvalidHeader => "MACHO_INVALID_HEADER"@,
            MachOImageError::InvalidCommand => "MACHO_INVALID_COMMAND"@,
            MachOImageError::InvalidSegment => "MACHO_INVALID_SEGMENT"@,
            MachOImageError::InvalidSection => "MACHO_INVALID_SECTION"@,
            MachOImageError::InvalidMetadata => "MACHO_INVALID_METADATA"@,
            MachOImageError::Overflow => "MACHO_OVERFLOW"@,
            MachOImageError::SegmentOverlap => "MACHO_SEGMENT_OVERLAP"@,
            MachOImageError::SectionOverlap => "MACHO_SECTION_OVERLAP"@,
            MachOImageError::MissingSegments => "MACHO_MISSING_SEGMENTS"@,
            MachOImageError::MissingEntry => "MACHO_MISSING_ENTRY"@,
            MachOImageError::DuplicateEntry => "MACHO_DUPLICATE_ENTRY"@,
            MachOImageError::EntryOutsideExecutable => "MACHO_ENTRY_OUTSIDE_EXECUTABLE"@,
        }
    }

    /// The fixed diagnostic token of this error.
    pub fn token(&self) -> (r: &'static str)
        ensures
            r@ == self.token_text(),
    {
        match self {
            MachOImageError::InputTooLarge => "MACHO_INPUT_TOO_LARGE",
            MachOImageError::Truncated => "MACHO_TRUNCATED",
            MachOImageError::UnsupportedFormat => "MACHO_UNSUPPORTED_FORMAT",
            MachOImageError::UnsupportedCpu => "MACHO_UNSUPPORTED_CPU",
            MachOImageError::UnsupportedFileType => "MACHO_UNSUPPORTED_FILETYPE",
            MachOImageError::UnsupportedFlags => "MACHO_UNSUPPORTED_FLAGS",
            MachOImageError::UnsupportedCommand => "MACHO_UNSUPPORTED_COMMAND",
            MachOImageError::UnsupportedThreadState => "MACHO_UNSUPPORTED_THREAD_STATE",
            MachOImageError::UnsupportedStack => "MACHO_UNSUPPORTED_STACK",
            MachOImageError::UnsupportedRelocations => "MACHO_UNSUPPORTED_RELOCATIONS",
            MachOImageError::UnsupportedSection => "MACHO_UNSUPPORTED_SECTION",
            MachOImageError::LimitExceeded => "MACHO_LIMIT_EXCEEDED",
            MachOImageError::InvalidHeader => "MACHO_INVALID_HEADER",
            MachOImageError::InvalidCommand => "MACHO_INVALID_COMMAND",
            MachOImageError::InvalidSegment => "MACHO_INVALID_SEGMENT",
            MachOImageError::InvalidSection => "MACHO_INVALID_SECTION",
            MachOImageError::InvalidMetadata => "MACHO_INVALID_METADATA",
            MachOImageError::Overflow => "MACHO_OVERFLOW",
            MachOImageError::SegmentOverlap => "MACHO_SEGMENT_OVERLAP",
            MachOImageError::SectionOverlap => "MACHO_SECTION_OVERLAP",
            MachOImageError::MissingSegments => "MACHO_MISSING_SEGMENTS",
            MachOImageError::MissingEntry => "MACHO_MISSING_ENTRY",
            MachOImageError::DuplicateEntry => "MACHO_DUPLICATE_ENTRY",
            MachOImageError::EntryOutsideExecutable => "MACHO_ENTRY_OUTSIDE_EXECUTABLE",
        }
    }

    /// The diagnostic text of this error.
    pub fn to_string(&self) -> (r: String)
        ensures
            r@ == self.token_text(),
    {
        String::from_str(self.token())
    }
}

/// The entry command of an image: LC_MAIN's file offset or LC_UNIXTHREAD's RIP.
#[derive(Clone, Copy)]
pub enum Entry {
    FileOffset(u64),
    VirtualAddress(u64),
}

/// The header word at `i`, where the file has it.
pub open spec fn word(b: Seq<u8>, i: int) -> int {
    le_u32(b, i)
}

/// The first rule that the fixed header breaks, in the order the parser
/// checks them.
pub open spec fn header_error(b: Seq<u8>) -> Option<MachOImageError> {
    if b.len() > MAX_FILE_SIZE {
        Some(MachOImageError::InputTooLarge)
    } else if b.len() < 4 {
        Some(MachOImageError::Truncated)
    } else if word(b, 0) != 0xfeed_facf {
        Some(MachOImageError::UnsupportedFormat)
    } else if b.len() < 32 {
        Some(MachOImageError::Truncated)
    } else if word(b, 4) != 0x0100_0007 || word(b, 8) != 3 {
        Some(MachOImageError::UnsupportedCpu)
    } else if word(b, 12) != 2 {
        Some(MachOImageError::UnsupportedFileType)
    } else if word(b, 24) != 0 && word(b, 24) != 1 && word(b, 24) != 0x2000 && word(b, 24) != 0x2001 {
        Some(MachOImageError::UnsupportedFlags)
    } else if word(b, 28) != 0 {
        Some(MachOImageError::InvalidHeader)
    } else if word(b, 16) > MAX_COMMANDS {
        Some(MachOImageError::LimitExceeded)
    } else if word(b, 20) % 8 != 0 || word(b, 16) > word(b, 20) / 8 {
        Some(MachOImageError::InvalidHeader)
    } else if 32 + word(b, 20) > b.len() {
        Some(MachOImageError::Truncated)
    } else {
        None
    }
}

pub open spec fn seg_end(s: SegmentPlan) -> int {
    s.vmaddr + s.memory_size
}

/// A segment the plan can copy and map: nonempty memory, file bytes inside
/// the input and no larger than the memory, and permitted protections.
pub open spec fn segment_ok(b: Seq<u8>, s: SegmentPlan) -> bool {
    &&& 0 < s.memory_size
    &&& s.file_size <= s.memory_size
    &&& s.file_offset + s.file_size <= b.len()
    &&& seg_end(s) <= u64::MAX
    &&& s.max_prot <= 7
    &&& s.init_prot & !s.max_prot == 0
}

/// Segments ordered by linked VA whose memory ranges do not overlap.
pub open spec fn disjoint_sorted(s: Seq<SegmentPlan>) -> bool {
    forall|i: int, j: int| 0 <= i < j < s.len() ==> seg_end(#[trigger] s[i]) <= (#[trigger] s[j]).vmaddr
}

/// The distance between two page-rounded addresses is a whole number of pages.
proof fn lemma_page_difference(a: u64, b: u64)
    requires
        a - a % PAGE_SIZE >= b - b % PAGE_SIZE,
    ensures
        ((a - a % PAGE_SIZE) - (b - b % PAGE_SIZE)) as int % PAGE_SIZE as int == 0,
{
    let qa = a / PAGE_SIZE;
    let qb = b / PAGE_SIZE;
    assert(a - a % PAGE_SIZE == qa * 4096);
    assert(b - b % PAGE_SIZE == qb * 4096);
    assert((qa * 4096 - qb * 4096) % 4096 == 0) by (nonlinear_arith);
}

/// Two segments share file bytes.
pub open spec fn file_meet(s: SegmentPlan, o: SegmentPlan) -> bool {
    s.file_size != 0 && o.file_size != 0 && s.file_offset < o.file_offset + o.file_size && o.file_offset < s.file_offset
        + s.file_size
}

/// What every plan the parser returns satisfies.
pub open spec fn plan_ok(b: Seq<u8>, p: MachOImagePlan) -> bool {
    let s = p.segments@;
    &&& s.len() > 0
    &&& disjoint_sorted(s)
    &&& forall|i: int| 0 <= i < s.len() ==> segment_ok(b, #[trigger] s[i])
    &&& forall|i: int| 0 <= i < s.len() ==> (#[trigger] s[i]).memory_offset == s[i].vmaddr - p.preferred_base
    &&& p.preferred_base % PAGE_SIZE == 0
    &&& p.preferred_base <= s[0].vmaddr < p.preferred_base + PAGE_SIZE
    &&& seg_end(s[s.len() - 1]) <= p.preferred_base + p.image_size
    &&& p.image_size == page_up(seg_end(s[s.len() - 1])) - p.preferred_base
    &&& p.image_size <= MAX_IMAGE_SIZE
    &&& p.image_size % PAGE_SIZE == 0
    &&& forall|i: int, j: int| 0 <= i < j < s.len() ==> !#[trigger] file_meet(s[i], s[j])
    &&& forall|i: int| 0 <= i < s.len() ==> (#[trigger] s[i]).name@ != pagezero_name()
    &&& p.entry_offset == p.entry_vaddr - p.preferred_base
    &&& exists|i: int| 0 <= i < s.len() && (#[trigger] s[i]).init_prot & VM_PROT_EXECUTE != 0 && s[i].vmaddr <= p.entry_vaddr < s[i].vmaddr + s[i].file_size
    &&& exists|i: int| 0 <= i < s.len() && (#[trigger] s[i]).file_offset == 0 && s[i].file_size >= 32 + word(b, 20) && p.header_vaddr == s[i].vmaddr
    &&& forall|i: int| 0 <= i < s.len() && (#[trigger] s[i]).file_offset == 0 && s[i].file_size >= 32 + word(b, 20) ==> p.header_vaddr == s[i].vmaddr
}

fn slice(bytes: &[u8], offset: usize, size: usize) -> (r: Result<&[u8], MachOImageError>)
    ensures
        r matches Ok(s) ==> offset + size <= bytes@.len() && s@ == bytes@.subrange(offset as int, offset + size),
        r matches Err(e) ==> offset + size > bytes@.len() && (e == MachOImageError::Overflow <==> offset + size > usize::MAX) && (e == MachOImageError::Overflow || e == MachOImageError::Truncated),
{
    let _n = bytes.len();
    let end = match offset.checked_add(size) {
        Some(e) => e,
        None => return Err(MachOImageError::Overflow),
    };
    if end > bytes.len() {
        return Err(MachOImageError::Truncated);
    }
    Ok(&bytes[offset..end])
}

fn read32(bytes: &[u8], offset: usize) -> (r: Result<u32, MachOImageError>)
    ensures
        r matches Ok(v) ==> offset + 4 <= bytes@.len() && v == le_u32(bytes@, offset as int),
        r matches Err(e) ==> offset + 4 > bytes@.len() && e == MachOImageError::Truncated,
{
    let _n = bytes.len();
    if offset > bytes.len() || bytes.len() - offset < 4 {
        return Err(MachOImageError::Truncated);
    }
    Ok(read_u32(bytes, offset))
}

fn read64(bytes: &[u8], offset: usize) -> (r: Result<u64, MachOImageError>)
    ensures
        r matches Ok(v) ==> offset + 8 <= bytes@.len() && v == le_u64(bytes@, offset as int),
        r matches Err(e) ==> offset + 8 > bytes@.len() && e == MachOImageError::Truncated,
{
    let _n = bytes.len();
    if offset > bytes.len() || bytes.len() - offset < 8 {
        return Err(MachOImageError::Truncated);
    }
    Ok(read_u64(bytes, offset))
}

fn set_entry(entry: &mut Option<Entry>, value: Entry) -> (r: Result<(), MachOImageError>)
    ensures
        *old(entry) is None ==> r is Ok && *final(entry) == Some(value),
        *old(entry) is Some ==> r == Err::<(), MachOImageError>(MachOImageError::DuplicateEntry),
{
    if entry.is_some() {
        return Err(MachOImageError::DuplicateEntry);
    }
    *entry = Some(value);
    Ok(())
}

fn checked_end(start: u64, size: u64) -> (r: Result<u64, MachOImageError>)
    ensures
        r matches Ok(e) ==> e == start + size,
        r is Err ==> start + size > u64::MAX && r == Err::<u64, MachOImageError>(MachOImageError::Overflow),
{
    match start.checked_add(size) {
        Some(e) => Ok(e),
        None => Err(MachOImageError::Overflow),
    }
}

fn file_range(bytes: &[u8], start: u64, size: u64) -> (r: Result<(), MachOImageError>)
    ensures
        r is Ok <==> start + size <= bytes@.len(),
        r matches Err(e) ==> e == MachOImageError::Overflow || e == MachOImageError::Truncated,
{
    let _n = bytes.len();
    if checked_end(start, size)? > bytes.len() as u64 {
        return Err(MachOImageError::Truncated);
    }
    Ok(())
}

fn overlap(start: u64, size: u64, other_start: u64, other_size: u64) -> (r: bool)
    requires
        start + size <= u64::MAX,
        other_start + other_size <= u64::MAX,
    ensures
        r == (size != 0 && other_size != 0 && start < other_start + other_size && other_start < start + size),
{
    size != 0 && other_size != 0 && start < other_start + other_size && other_start < start + size
}

fn exact_size(command: &[u8], expected: usize) -> (r: Result<(), MachOImageError>)
    ensures
        r is Ok <==> command@.len() == expected,
        r is Err ==> r == Err::<(), MachOImageError>(MachOImageError::InvalidCommand),
{
    if command.len() != expected {
        return Err(MachOImageError::InvalidCommand);
    }
    Ok(())
}

/// The 16-byte segment name "__PAGEZERO".
pub open spec fn pagezero_name() -> Seq<u8> {
    seq![95u8, 95u8, 80u8, 65u8, 71u8, 69u8, 90u8, 69u8, 82u8, 79u8, 0u8, 0u8, 0u8, 0u8, 0u8, 0u8]
}

fn is_pagezero(name: &[u8]) -> (r: bool)
    requires
        name@.len() == 16,
    ensures
        r == (name@ == pagezero_name()),
{
    let expected: [u8; 16] = [95, 95, 80, 65, 71, 69, 90, 69, 82, 79, 0, 0, 0, 0, 0, 0];
    assert(expected@ =~= pagezero_name());
    crate::bytes::bytes_eq(name, expected.as_slice())
}

/// The image the parser accepts: a header the profile accepts, load commands that
/// pass the walk's checks, at least one mapped segment, and segments that, put in
/// address order, can be laid out (`layout_spans_ok`).
pub open spec fn image_ok(b: Seq<u8>) -> bool {
    let c = b.subrange(32, 32 + word(b, 20));
    let count = word(b, 16);
    let walk = scan_spec(c, count, 0, 0, seq![], None, None);
    &&& header_error(b) is None
    &&& commands_ok(b, c, count, 0, 0, 0, 0, false, false)
    &&& walk.0.len() > 0
    &&& forall|s: Seq<(int, int, int, int, u32)>| #[trigger] in_address_order(s, walk.0) ==> layout_spans_ok(
        s,
        walk.1,
        walk.2,
        word(b, 20),
    )
}

/// Parse thin little-endian generic x86_64 MH_EXECUTE without dyld or fixups.
///
/// Exactly one LC_MAIN (with no requested stack) or LC_UNIXTHREAD (one
/// x86_THREAD_STATE64 state) is accepted. Only RIP is extracted from thread
/// state; this plan is not a promise that the remaining entry ABI is satisfied.
/// Benign metadata ranges are bounded, not interpreted or authenticated.
pub fn parse_macho_image(bytes: &[u8]) -> (r: Result<MachOImagePlan, MachOImageError>)
    ensures
        header_error(bytes@) matches Some(e) ==> r == Err::<MachOImagePlan, MachOImageError>(e),
        r matches Ok(p) ==> image_plan(bytes@, p),
        image_ok(bytes@) ==> r is Ok,
{
    let (count, command_size) = read_header(bytes)?;
    let commands = slice(bytes, 32, command_size)?;
    let (segments, guard, entry) = scan_commands(bytes, commands, count)?;
    if segments.len() == 0 {
        return Err(MachOImageError::MissingSegments);
    }
    let sorted = sort_by_vmaddr(segments);
    let ghost spans = segments@.map_values(|x: SegmentPlan| span(x));
    let ghost ordered = sorted@.map_values(|x: SegmentPlan| span(x));
    proof {
        let from = choose|from: Seq<int>| drawn_from(from, sorted@, segments@);
        assert(drawn_from(from, ordered, spans));
        assert forall|a: int, c: int| 0 <= a < c < ordered.len() implies (#[trigger] ordered[a]).0 <= (#[trigger] ordered[c]).0 by {
            assert(ordered[a] == span(sorted@[a]) && ordered[c] == span(sorted@[c]));
        }
        assert(in_address_order(ordered, spans));
        assert(commands@ == bytes@.subrange(32, 32 + word(bytes@, 20)));
        assert((spans, guard, entry) == scanned(bytes@));
        if image_ok(bytes@) {
            lemma_layout_spans(sorted@, guard, entry, command_size as int);
        }
    }
    assert forall|a: int| 0 <= a < sorted@.len() implies segment_ok(bytes@, #[trigger] sorted@[a]) by {
        let c = choose|c: int| 0 <= c < segments@.len() && segments@[c] == sorted@[a];
        assert(segment_ok(bytes@, segments@[c]));
        assert(segments@[c].name@ != pagezero_name());
    }
    let r = finish_plan(bytes, sorted, guard, entry, command_size);
    proof {
        if r is Ok {
            assert(r->Ok_0.segments@.map_values(|x: SegmentPlan| span(x)) == ordered);
        }
    }
    r
}

/// The load-command count and table size of a header the profile accepts.
fn read_header(bytes: &[u8]) -> (r: Result<(usize, usize), MachOImageError>)
    ensures
        header_error(bytes@) matches Some(e) ==> r == Err::<(usize, usize), MachOImageError>(e),
        header_error(bytes@) is None ==> (r matches Ok(t) && t.0 == word(bytes@, 16) && t.1 == word(
            bytes@,
            20,
        ) && 32 + t.1 <= bytes@.len() && t.0 <= MAX_COMMANDS),
{
    if bytes.len() > MAX_FILE_SIZE {
        return Err(MachOImageError::InputTooLarge);
    }
    if read32(bytes, 0)? != 0xfeed_facf {
        return Err(MachOImageError::UnsupportedFormat);
    }
    slice(bytes, 0, 32)?;
    if read32(bytes, 4)? != 0x0100_0007 || read32(bytes, 8)? != 3 {
        return Err(MachOImageError::UnsupportedCpu);
    }
    if read32(bytes, 12)? != 2 {
        return Err(MachOImageError::UnsupportedFileType);
    }
    // Only informational static-image flags are currently supported:
    // MH_NOUNDEFS and MH_SUBSECTIONS_VIA_SYMBOLS. In particular, no PIE/dyld.
    let flags = read32(bytes, 24)?;
    assert((flags & !(0x1u32 | 0x2000u32)) == 0 <==> (flags == 0 || flags == 1 || flags == 0x2000
        || flags == 0x2001)) by (bit_vector);
    if flags & !(0x1 | 0x2000) != 0 {
        return Err(MachOImageError::UnsupportedFlags);
    }
    if read32(bytes, 28)? != 0 {
        return Err(MachOImageError::InvalidHeader);
    }
    let count = read32(bytes, 16)? as usize;
    let command_size = read32(bytes, 20)? as usize;
    if count > MAX_COMMANDS {
        return Err(MachOImageError::LimitExceeded);
    }
    if command_size % 8 != 0 || count > command_size / 8 {
        return Err(MachOImageError::InvalidHeader);
    }
    if command_size > bytes.len() - 32 {
        return Err(MachOImageError::Truncated);
    }
    Ok((count, command_size))
}

/// The load commands of `c` from command `index` at byte `offset` on pass the walk's
/// checks, with `segments` segment commands and `sections` sections counted and a
/// guard or an entry already found or not: each command's size, each segment, the
/// one __PAGEZERO guard, one entry command, benign metadata, and nothing after the last.
pub open spec fn commands_ok(
    b: Seq<u8>,
    c: Seq<u8>,
    count: int,
    index: int,
    offset: int,
    segments: int,
    sections: int,
    guard: bool,
    entry: bool,
) -> bool
    decreases count - index,
{
    if index >= count {
        offset == c.len()
    } else if offset < 0 || offset + 8 > c.len() {
        false
    } else {
        let kind = le_u32(c, offset);
        let size = le_u32(c, offset + 4);
        if size < 8 || size % 8 != 0 || offset + size > c.len() {
            false
        } else {
            let cmd = c.subrange(offset, offset + size);
            if kind == 0x19 {
                &&& segments + 1 <= MAX_SEGMENTS
                &&& segment_checks(b, cmd, sections)
                &&& if cmd.subrange(8, 24) == pagezero_name() {
                    &&& !guard
                    &&& le_u64(cmd, 24) == 0
                    &&& le_u64(cmd, 40) == 0
                    &&& le_u64(cmd, 48) == 0
                    &&& le_u32(cmd, 60) == 0
                    &&& le_u32(cmd, 56) == 0
                    &&& le_u32(cmd, 64) == 0
                    &&& commands_ok(b, c, count, index + 1, offset + size, segments + 1, sections, true, entry)
                } else {
                    commands_ok(b, c, count, index + 1, offset + size, segments + 1, sections + le_u32(cmd, 64), guard, entry)
                }
            } else if kind == 0x8000_0028 {
                &&& size == 24
                &&& le_u64(cmd, 16) == 0
                &&& !entry
                &&& commands_ok(b, c, count, index + 1, offset + size, segments, sections, guard, true)
            } else if kind == 0x5 {
                &&& size == 184
                &&& le_u32(cmd, 8) == 4
                &&& le_u32(cmd, 12) == 42
                &&& !entry
                &&& commands_ok(b, c, count, index + 1, offset + size, segments, sections, guard, true)
            } else {
                &&& metadata_ok(b, cmd, kind as u32)
                &&& commands_ok(b, c, count, index + 1, offset + size, segments, sections, guard, entry)
            }
        }
    }
}

/// A segment's layout as the plan uses it: its address, memory size, file offset,
/// file size and initial protection.
pub open spec fn span(s: SegmentPlan) -> (int, int, int, int, u32) {
    (s.vmaddr as int, s.memory_size as int, s.file_offset as int, s.file_size as int, s.init_prot)
}

/// What the walk of the load commands of `c` from command `index` at byte `offset`
/// collects, given what it has collected so far: the layouts of the mapped segments in
/// command order, the memory size of the __PAGEZERO guard, and the entry command.
pub open spec fn scan_spec(
    c: Seq<u8>,
    count: int,
    index: int,
    offset: int,
    spans: Seq<(int, int, int, int, u32)>,
    guard: Option<u64>,
    entry: Option<Entry>,
) -> (Seq<(int, int, int, int, u32)>, Option<u64>, Option<Entry>)
    decreases count - index,
{
    if index >= count || offset < 0 || offset + 8 > c.len() {
        (spans, guard, entry)
    } else {
        let kind = le_u32(c, offset);
        let size = le_u32(c, offset + 4);
        if size < 8 || offset + size > c.len() {
            (spans, guard, entry)
        } else {
            let cmd = c.subrange(offset, offset + size);
            let next = offset + size;
            if kind == 0x19 {
                if cmd.subrange(8, 24) == pagezero_name() {
                    scan_spec(c, count, index + 1, next, spans, Some(le_u64(cmd, 32) as u64), entry)
                } else {
                    scan_spec(
                        c,
                        count,
                        index + 1,
                        next,
                        spans.push((le_u64(cmd, 24), le_u64(cmd, 32), le_u64(cmd, 40), le_u64(cmd, 48), le_u32(cmd, 60) as u32)),
                        guard,
                        entry,
                    )
                }
            } else if kind == 0x8000_0028 {
                scan_spec(c, count, index + 1, next, spans, guard, Some(Entry::FileOffset(le_u64(cmd, 8) as u64)))
            } else if kind == 0x5 {
                scan_spec(c, count, index + 1, next, spans, guard, Some(Entry::VirtualAddress(le_u64(cmd, 144) as u64)))
            } else {
                scan_spec(c, count, index + 1, next, spans, guard, entry)
            }
        }
    }
}

/// Walks the load commands: the mapped segments, the size of a valid
/// __PAGEZERO guard, and the one entry command.
fn scan_commands(bytes: &[u8], commands: &[u8], count: usize) -> (r: Result<
    (Vec<SegmentPlan>, Option<u64>, Option<Entry>),
    MachOImageError,
>)
    requires
        count <= MAX_COMMANDS,
        commands@.len() <= bytes@.len() <= MAX_FILE_SIZE,
    ensures
        r matches Ok(t) ==> forall|i: int| 0 <= i < t.0@.len() ==> segment_ok(bytes@, #[trigger] t.0@[i]),
        r matches Ok(t) ==> forall|i: int| 0 <= i < t.0@.len() ==> (#[trigger] t.0@[i]).name@ != pagezero_name(),
        commands_ok(bytes@, commands@, count as int, 0, 0, 0, 0, false, false) ==> r is Ok,
        r matches Ok(t) ==> (t.0@.map_values(|s: SegmentPlan| span(s)), t.1, t.2) == scan_spec(
            commands@,
            count as int,
            0,
            0,
            seq![],
            None,
            None,
        ),
{
    let ghost good = commands_ok(bytes@, commands@, count as int, 0, 0, 0, 0, false, false);
    let mut offset: usize = 0;
    let mut segments: Vec<SegmentPlan> = Vec::new();
    let mut guard: Option<u64> = None;
    let mut segment_count: usize = 0;
    let mut section_count: usize = 0;
    let mut entry: Option<Entry> = None;
    let mut index: usize = 0;
    proof {
        assert(segments@.map_values(|s: SegmentPlan| span(s)) =~= Seq::<(int, int, int, int, u32)>::empty());
    }
    while index < count
        invariant
            index <= count <= MAX_COMMANDS,
            commands@.len() <= MAX_FILE_SIZE,
            segment_count <= MAX_SEGMENTS,
            section_count <= MAX_SECTIONS,
            offset <= commands@.len(),
            forall|i: int| 0 <= i < segments@.len() ==> segment_ok(bytes@, #[trigger] segments@[i]),
            forall|i: int| 0 <= i < segments@.len() ==> (#[trigger] segments@[i]).name@ != pagezero_name(),
            good == commands_ok(bytes@, commands@, count as int, 0, 0, 0, 0, false, false),
            good ==> commands_ok(bytes@, commands@, count as int, index as int, offset as int, segment_count as int,
                section_count as int, guard is Some, entry is Some),
            scan_spec(commands@, count as int, 0, 0, seq![], None, None) == scan_spec(
                commands@,
                count as int,
                index as int,
                offset as int,
                segments@.map_values(|s: SegmentPlan| span(s)),
                guard,
                entry,
            ),
        decreases count - index,
    {
        let kind = read32(commands, offset)?;
        let size = read32(commands, offset + 4)? as usize;
        proof {
            if good {
                lemma_window_words(commands@, offset as int, size as int);
            }
        }
        if size < 8 || size % 8 != 0 {
            return Err(MachOImageError::InvalidCommand);
        }
        let command = slice(commands, offset, size)?;
        if kind == 0x19 {
            segment_count = segment_count + 1;
            if segment_count > MAX_SEGMENTS {
                return Err(MachOImageError::LimitExceeded);
            }
            let segment = parse_segment(bytes, command, &mut section_count)?;
            if is_pagezero(&command[8..24]) {
                if guard.is_some() || segment.vmaddr != 0 || segment.file_offset != 0
                    || segment.file_size != 0 || segment.init_prot != 0 || segment.max_prot != 0
                    || read32(command, 64)? != 0 {
                    return Err(MachOImageError::InvalidSegment);
                }
                guard = Some(segment.memory_size);
            } else {
                let ghost prior = segments@;
                segments.push(segment);
                proof {
                    assert(segments@.map_values(|s: SegmentPlan| span(s)) =~= prior.map_values(|s: SegmentPlan| span(s)).push(
                        (le_u64(command@, 24), le_u64(command@, 32), le_u64(command@, 40), le_u64(command@, 48), le_u32(command@, 60) as u32),
                    ));
                }
            }
        } else if kind == 0x8000_0028 {
            exact_size(command, 24)?;
            if read64(command, 16)? != 0 {
                return Err(MachOImageError::UnsupportedStack);
            }
            set_entry(&mut entry, Entry::FileOffset(read64(command, 8)?))?;
        } else if kind == 0x5 {
            // 8-byte command, 8-byte flavor/count, 21 64-bit registers.
            if read32(command, 8)? != 4 || read32(command, 12)? != 42 {
                return Err(MachOImageError::UnsupportedThreadState);
            }
            exact_size(command, 184)?;
            set_entry(&mut entry, Entry::VirtualAddress(read64(command, 144)?))?;
        } else {
            validate_metadata(bytes, command, kind)?;
        }
        proof {
            assert(command@ == commands@.subrange(offset as int, offset + size));
        }
        offset = offset + size;
        index = index + 1;
    }
    if offset != commands.len() {
        return Err(MachOImageError::InvalidCommand);
    }
    Ok((segments, guard, entry))
}

/// Whether the entry lies in the file bytes of executable segment `s`.
pub open spec fn entry_in(e: Entry, s: SegmentPlan) -> bool {
    &&& s.init_prot & VM_PROT_EXECUTE != 0
    &&& match e {
        Entry::FileOffset(v) => s.file_offset <= v && v - s.file_offset < s.file_size,
        Entry::VirtualAddress(v) => s.vmaddr <= v && v - s.vmaddr < s.file_size,
    }
}

/// The linked address of the entry in segment `s` that holds it.
pub open spec fn vaddr_in(e: Entry, s: SegmentPlan) -> int {
    match e {
        Entry::FileOffset(v) => s.vmaddr + (v - s.file_offset),
        Entry::VirtualAddress(v) => v as int,
    }
}

/// The kind of an entry command.
pub open spec fn kind_of(e: Entry) -> EntryKind {
    match e {
        Entry::FileOffset(_) => EntryKind::Main,
        Entry::VirtualAddress(_) => EntryKind::UnixThread64,
    }
}

/// The plan's entry is the entry command's: its kind, and its address in the
/// executable segment that holds it.
pub open spec fn entry_fixed(entry: Option<Entry>, p: MachOImagePlan) -> bool {
    entry matches Some(e) && p.entry_kind == kind_of(e) && forall|i: int|
        0 <= i < p.segments@.len() && #[trigger] entry_in(e, p.segments@[i]) ==> p.entry_vaddr == vaddr_in(
            e,
            p.segments@[i],
        )
}

/// What the walk of an image's load commands collects: the layouts of its mapped
/// segments in command order, its __PAGEZERO guard and its entry command.
pub open spec fn scanned(b: Seq<u8>) -> (Seq<(int, int, int, int, u32)>, Option<u64>, Option<Entry>) {
    scan_spec(b.subrange(32, 32 + word(b, 20)), word(b, 16), 0, 0, seq![], None, None)
}

/// The plan of image `b`: the segments the walk collects, in address order and laid
/// out from the lowest page, with the entry command's entry.
pub open spec fn image_plan(b: Seq<u8>, p: MachOImagePlan) -> bool {
    &&& header_error(b) is None
    &&& plan_ok(b, p)
    &&& in_address_order(p.segments@.map_values(|x: SegmentPlan| span(x)), scanned(b).0)
    &&& entry_fixed(scanned(b).2, p)
}

/// `x` rounded up to a whole page.
pub open spec fn page_up(x: int) -> int {
    (x + PAGE_SIZE - 1) - (x + PAGE_SIZE - 1) % (PAGE_SIZE as int)
}

/// The sorted segments can be laid out: each starts at or past the guard and the end
/// of the one before, no two share file bytes, one holds the header and load
/// commands, the page-rounded image fits, and the entry lies in an executable one.
spec fn layout_ok(sorted: Seq<SegmentPlan>, guard: Option<u64>, entry: Option<Entry>, command_size: int) -> bool {
    let n = sorted.len();
    let last_end = seg_end(sorted[n - 1]) + PAGE_SIZE - 1;
    let first = sorted[0].vmaddr;
    &&& (guard matches Some(g) ==> g <= first)
    &&& forall|i: int| 1 <= i < n ==> seg_end(#[trigger] sorted[i - 1]) <= sorted[i].vmaddr
    &&& forall|a: int, c: int| 0 <= c < a < n ==> !(sorted[a].file_size != 0 && sorted[c].file_size != 0
        && #[trigger] sorted[a].file_offset < sorted[c].file_offset + sorted[c].file_size && #[trigger] sorted[c].file_offset
        < sorted[a].file_offset + sorted[a].file_size)
    &&& exists|h: int| 0 <= h < n && (#[trigger] sorted[h]).file_offset == 0 && sorted[h].file_size >= 32 + command_size
    &&& last_end <= u64::MAX
    &&& last_end - last_end % (PAGE_SIZE as int) >= first - first % PAGE_SIZE
    &&& last_end - last_end % (PAGE_SIZE as int) - (first - first % PAGE_SIZE) <= MAX_IMAGE_SIZE
    &&& entry matches Some(e) && exists|k: int| 0 <= k < n && entry_in(e, #[trigger] sorted[k])
}

/// Whether the entry lies in the file bytes of an executable segment of layout `sp`.
pub open spec fn entry_in_span(e: Entry, sp: (int, int, int, int, u32)) -> bool {
    &&& sp.4 & VM_PROT_EXECUTE != 0
    &&& match e {
        Entry::FileOffset(v) => sp.2 <= v && v - sp.2 < sp.3,
        Entry::VirtualAddress(v) => sp.0 <= v && v - sp.0 < sp.3,
    }
}

/// Where a segment of layout `sp` ends in memory.
pub open spec fn span_end(sp: (int, int, int, int, u32)) -> int {
    sp.0 + sp.1
}

/// Two segment layouts share file bytes.
pub open spec fn span_file_meet(a: (int, int, int, int, u32), c: (int, int, int, int, u32)) -> bool {
    a.3 != 0 && c.3 != 0 && a.2 < c.2 + c.3 && c.2 < a.2 + a.3
}

/// `layout_ok` over the layouts of segments in address order.
pub open spec fn layout_spans_ok(s: Seq<(int, int, int, int, u32)>, guard: Option<u64>, entry: Option<Entry>, command_size: int) -> bool {
    let n = s.len();
    let last_end = span_end(s[n - 1]) + PAGE_SIZE - 1;
    let first = s[0].0;
    &&& (guard matches Some(g) ==> g <= first)
    &&& forall|i: int| 1 <= i < n ==> span_end(#[trigger] s[i - 1]) <= s[i].0
    &&& forall|a: int, c: int| 0 <= c < a < n ==> !#[trigger] span_file_meet(s[a], s[c])
    &&& exists|h: int| 0 <= h < n && (#[trigger] s[h]).2 == 0 && s[h].3 >= 32 + command_size
    &&& last_end <= u64::MAX
    &&& last_end - last_end % (PAGE_SIZE as int) >= first - first % (PAGE_SIZE as int)
    &&& last_end - last_end % (PAGE_SIZE as int) - (first - first % (PAGE_SIZE as int)) <= MAX_IMAGE_SIZE
    &&& entry matches Some(e) && exists|k: int| 0 <= k < n && entry_in_span(e, #[trigger] s[k])
}

/// `s` is `t` put in ascending order of address.
pub open spec fn in_address_order(s: Seq<(int, int, int, int, u32)>, t: Seq<(int, int, int, int, u32)>) -> bool {
    &&& s.len() == t.len()
    &&& forall|a: int, c: int| 0 <= a < c < s.len() ==> (#[trigger] s[a]).0 <= (#[trigger] s[c]).0
    &&& exists|from: Seq<int>| #[trigger] drawn_from(from, s, t)
}

proof fn lemma_layout_spans(sorted: Seq<SegmentPlan>, guard: Option<u64>, entry: Option<Entry>, command_size: int)
    requires
        sorted.len() > 0,
        layout_spans_ok(sorted.map_values(|s: SegmentPlan| span(s)), guard, entry, command_size),
    ensures
        layout_ok(sorted, guard, entry, command_size),
{
    let s = sorted.map_values(|x: SegmentPlan| span(x));
    let n = sorted.len();
    assert(s[0] == span(sorted[0]));
    assert(s[n - 1] == span(sorted[n - 1]));
    assert forall|i: int| 1 <= i < n implies seg_end(#[trigger] sorted[i - 1]) <= sorted[i].vmaddr by {
        assert(s[i - 1] == span(sorted[i - 1]) && s[i] == span(sorted[i]));
        assert(span_end(s[i - 1]) <= s[i].0);
    }
    assert forall|a: int, c: int| 0 <= c < a < n implies !(sorted[a].file_size != 0 && sorted[c].file_size != 0
        && #[trigger] sorted[a].file_offset < sorted[c].file_offset + sorted[c].file_size && #[trigger] sorted[c].file_offset
        < sorted[a].file_offset + sorted[a].file_size) by {
        assert(s[a] == span(sorted[a]) && s[c] == span(sorted[c]));
        assert(!span_file_meet(s[a], s[c]));
    }
    let h = choose|h: int| 0 <= h < n && (#[trigger] s[h]).2 == 0 && s[h].3 >= 32 + command_size;
    assert(s[h] == span(sorted[h]));
    assert(sorted[h].file_offset == 0 && sorted[h].file_size >= 32 + command_size);
    let e = entry->0;
    let k = choose|k: int| 0 <= k < n && entry_in_span(e, #[trigger] s[k]);
    assert(s[k] == span(sorted[k]));
    assert(entry_in(e, sorted[k]));
}

/// `plan_ok` from its parts.
proof fn lemma_plan_ok(b: Seq<u8>, p: MachOImagePlan)
    requires
        ({
            let s = p.segments@;
            &&& s.len() > 0
            &&& disjoint_sorted(s)
            &&& forall|i: int| 0 <= i < s.len() ==> segment_ok(b, #[trigger] s[i])
            &&& forall|i: int| 0 <= i < s.len() ==> (#[trigger] s[i]).memory_offset == s[i].vmaddr - p.preferred_base
            &&& p.preferred_base % PAGE_SIZE == 0
            &&& p.preferred_base <= s[0].vmaddr < p.preferred_base + PAGE_SIZE
            &&& seg_end(s[s.len() - 1]) <= p.preferred_base + p.image_size
            &&& p.image_size == page_up(seg_end(s[s.len() - 1])) - p.preferred_base
            &&& p.image_size <= MAX_IMAGE_SIZE
            &&& p.image_size % PAGE_SIZE == 0
            &&& forall|i: int, j: int| 0 <= i < j < s.len() ==> !#[trigger] file_meet(s[i], s[j])
            &&& forall|i: int| 0 <= i < s.len() ==> (#[trigger] s[i]).name@ != pagezero_name()
            &&& p.entry_offset == p.entry_vaddr - p.preferred_base
            &&& exists|i: int| 0 <= i < s.len() && (#[trigger] s[i]).init_prot & VM_PROT_EXECUTE != 0 && s[i].vmaddr <= p.entry_vaddr < s[i].vmaddr + s[i].file_size
            &&& exists|i: int| 0 <= i < s.len() && (#[trigger] s[i]).file_offset == 0 && s[i].file_size >= 32 + word(b, 20) && p.header_vaddr == s[i].vmaddr
            &&& forall|i: int| 0 <= i < s.len() && (#[trigger] s[i]).file_offset == 0 && s[i].file_size >= 32 + word(b, 20) ==> p.header_vaddr == s[i].vmaddr
        }),
    ensures
        plan_ok(b, p),
{
}

/// Places each sorted segment at its distance from `base` and finds the entry's
/// address in the executable segment that holds it, the last such one.
fn place_segments(sorted: &Vec<SegmentPlan>, base: u64, entry: Entry, Ghost(b): Ghost<Seq<u8>>) -> (r: (
    Vec<SegmentPlan>,
    Option<u64>,
))
    requires
        sorted@.len() > 0,
        base <= sorted@[0].vmaddr,
        forall|x: int, y: int| 0 <= x < y < sorted@.len() ==> (#[trigger] sorted@[x]).vmaddr <= (#[trigger] sorted@[y]).vmaddr,
        forall|x: int| 0 <= x < sorted@.len() ==> segment_ok(b, #[trigger] sorted@[x]),
    ensures
        r.0@.len() == sorted@.len(),
        forall|x: int| 0 <= x < sorted@.len() ==> (#[trigger] r.0@[x]) == (SegmentPlan { memory_offset: (sorted@[x].vmaddr - base) as u64, ..sorted@[x] }),
        r.1 matches Some(v) ==> exists|x: int| 0 <= x < sorted@.len() && (#[trigger] sorted@[x]).init_prot & VM_PROT_EXECUTE != 0 && sorted@[x].vmaddr <= v < sorted@[x].vmaddr + sorted@[x].file_size,
        r.1 matches Some(v) ==> exists|x: int| 0 <= x < sorted@.len() && #[trigger] entry_in(entry, sorted@[x]) && v == vaddr_in(entry, sorted@[x]),
        r.1 is None ==> forall|x: int| 0 <= x < sorted@.len() ==> !entry_in(entry, #[trigger] sorted@[x]),
{
    let n = sorted.len();
    let mut planned: Vec<SegmentPlan> = Vec::new();
    let mut entry_vaddr: Option<u64> = None;
    let mut k: usize = 0;
    while k < n
        invariant
            n == sorted@.len() > 0,
            k <= n,
            planned@.len() == k,
            base <= sorted@[0].vmaddr,
            forall|x: int, y: int| 0 <= x < y < n ==> (#[trigger] sorted@[x]).vmaddr <= (#[trigger] sorted@[y]).vmaddr,
            forall|x: int| 0 <= x < k ==> (#[trigger] planned@[x]) == (SegmentPlan { memory_offset: (sorted@[x].vmaddr - base) as u64, ..sorted@[x] }),
            forall|x: int| 0 <= x < n ==> segment_ok(b, #[trigger] sorted@[x]),
            entry_vaddr matches Some(v) ==> exists|x: int| 0 <= x < k && (#[trigger] sorted@[x]).init_prot & VM_PROT_EXECUTE != 0 && sorted@[x].vmaddr <= v < sorted@[x].vmaddr + sorted@[x].file_size,
            entry_vaddr matches Some(v) ==> exists|x: int| 0 <= x < k && #[trigger] entry_in(entry, sorted@[x]) && v == vaddr_in(entry, sorted@[x]),
            entry_vaddr is None ==> forall|x: int| 0 <= x < k ==> !entry_in(entry, #[trigger] sorted@[x]),
        decreases n - k,
    {
        let s = sorted[k];
        assert(sorted@[0].vmaddr <= s.vmaddr);
        assert(segment_ok(b, sorted@[k as int]));
        planned.push(SegmentPlan { memory_offset: s.vmaddr - base, ..s });
        if s.init_prot & VM_PROT_EXECUTE != 0 {
            let relative = match entry {
                Entry::FileOffset(value) => value.checked_sub(s.file_offset as u64),
                Entry::VirtualAddress(value) => value.checked_sub(s.vmaddr),
            };
            if let Some(rel) = relative {
                if rel < s.file_size as u64 {
                    entry_vaddr = Some(s.vmaddr + rel);
                    assert(entry_in(entry, sorted@[k as int]));
                }
            }
        }
        k = k + 1;
    }
    (planned, entry_vaddr)
}

/// In segments laid out apart in memory and in the file, at most one holds the
/// header and load commands at file offset zero.
proof fn lemma_header_unique(s: Seq<SegmentPlan>, h: int, size: int)
    requires
        0 <= h < s.len(),
        size > 0,
        s[h].file_offset == 0 && s[h].file_size >= size,
        forall|x: int, y: int| 0 <= x < y < s.len() ==> !#[trigger] file_meet(s[x], s[y]),
    ensures
        forall|i: int| 0 <= i < s.len() && (#[trigger] s[i]).file_offset == 0 && s[i].file_size >= size ==> i == h,
{
    assert forall|i: int| 0 <= i < s.len() && (#[trigger] s[i]).file_offset == 0 && s[i].file_size >= size implies i == h by {
        if i < h {
            assert(file_meet(s[i], s[h]));
        } else if h < i {
            assert(file_meet(s[h], s[i]));
        }
    }
}

/// In segments laid out apart in memory and in the file, at most one holds the entry.
proof fn lemma_entry_unique(s: Seq<SegmentPlan>, e: Entry, k: int)
    requires
        0 <= k < s.len(),
        entry_in(e, s[k]),
        forall|x: int| 0 <= x < s.len() ==> (#[trigger] s[x]).file_size <= s[x].memory_size,
        forall|x: int, y: int| 0 <= x < y < s.len() ==> seg_end(#[trigger] s[x]) <= (#[trigger] s[y]).vmaddr,
        forall|x: int, y: int| 0 <= x < y < s.len() ==> !#[trigger] file_meet(s[x], s[y]),
    ensures
        forall|i: int| 0 <= i < s.len() && #[trigger] entry_in(e, s[i]) ==> i == k,
{
    assert forall|i: int| 0 <= i < s.len() && #[trigger] entry_in(e, s[i]) implies i == k by {
        if i != k {
            let lo = if i < k { i } else { k };
            let hi = if i < k { k } else { i };
            assert(s[lo].file_size <= s[lo].memory_size);
            match e {
                Entry::FileOffset(v) => {
                    assert(file_meet(s[lo], s[hi]));
                },
                Entry::VirtualAddress(v) => {
                    assert(seg_end(s[lo]) <= s[hi].vmaddr);
                },
            }
        }
    }
}

/// Checks the sorted segments for overlap, finds the header and entry, and
/// lays the plan out from the lowest page.
#[verifier::loop_isolation(false)]
#[verifier::spinoff_prover]
#[verifier::rlimit(100)]
fn finish_plan(
    bytes: &[u8],
    sorted: Vec<SegmentPlan>,
    guard: Option<u64>,
    entry: Option<Entry>,
    command_size: usize,
) -> (r: Result<MachOImagePlan, MachOImageError>)
    requires
        sorted@.len() > 0,
        command_size == word(bytes@, 20),
        32 + command_size <= bytes@.len() <= MAX_FILE_SIZE,
        forall|a: int| 0 <= a < sorted@.len() ==> segment_ok(bytes@, #[trigger] sorted@[a]),
        forall|a: int, c: int| 0 <= a < c < sorted@.len() ==> (#[trigger] sorted@[a]).vmaddr <= (#[trigger] sorted@[c]).vmaddr,
        forall|a: int| 0 <= a < sorted@.len() ==> (#[trigger] sorted@[a]).name@ != pagezero_name(),
    ensures
        r matches Ok(p) ==> plan_ok(bytes@, p),
        r matches Ok(p) ==> p.segments@.map_values(|x: SegmentPlan| span(x)) == sorted@.map_values(|x: SegmentPlan| span(x)),
        r matches Ok(p) ==> entry_fixed(entry, p),
        layout_ok(sorted@, guard, entry, command_size as int) ==> r is Ok,
{
    let ghost good = layout_ok(sorted@, guard, entry, command_size as int);
    let n = sorted.len();
    let mut previous_end: u64 = match guard {
        Some(g) => g,
        None => 0,
    };
    let mut i: usize = 0;
    while i < n
        invariant
            n == sorted@.len() > 0,
            i <= n,
            forall|a: int| 0 <= a < n ==> segment_ok(bytes@, #[trigger] sorted@[a]),
            forall|a: int, c: int| 0 <= a < c < n ==> (#[trigger] sorted@[a]).vmaddr <= (#[trigger] sorted@[c]).vmaddr,
            i > 0 ==> previous_end == seg_end(sorted@[i - 1]),
            i == 0 ==> previous_end == (match guard {
                Some(g) => g,
                None => 0u64,
            }),
            forall|a: int, c: int| 0 <= a < c < i ==> seg_end(#[trigger] sorted@[a]) <= (#[trigger] sorted@[c]).vmaddr,
        decreases n - i,
    {
        let segment = sorted[i];
        if segment.vmaddr < previous_end {
            return Err(MachOImageError::SegmentOverlap);
        }
        proof {
            assert forall|a: int, c: int| 0 <= a < c < i + 1 implies seg_end(#[trigger] sorted@[a]) <= (#[trigger] sorted@[c]).vmaddr by {
                if c == i && a < i - 1 {
                    assert(seg_end(sorted@[a]) <= sorted@[i - 1].vmaddr);
                    assert(sorted@[i - 1].vmaddr < seg_end(sorted@[i - 1]));
                }
            }
        }
        previous_end = segment.vmaddr + segment.memory_size;
        i = i + 1;
    }
    // A byte must not have two distinct mappings in this minimal plan.
    let mut a: usize = 0;
    while a < n
        invariant
            n == sorted@.len(),
            a <= n,
            forall|k: int| 0 <= k < n ==> segment_ok(bytes@, #[trigger] sorted@[k]),
            forall|x: int, y: int| 0 <= x < y < a ==> !#[trigger] file_meet(sorted@[x], sorted@[y]),
        decreases n - a,
    {
        let mut c: usize = 0;
        while c < a
            invariant
                a < n == sorted@.len(),
                c <= a,
                forall|k: int| 0 <= k < n ==> segment_ok(bytes@, #[trigger] sorted@[k]),
                forall|x: int, y: int| 0 <= x < y < a ==> !#[trigger] file_meet(sorted@[x], sorted@[y]),
                forall|x: int| 0 <= x < c ==> !#[trigger] file_meet(sorted@[x], sorted@[a as int]),
            decreases a - c,
        {
            let s = sorted[a];
            let o = sorted[c];
            assert(segment_ok(bytes@, sorted@[a as int]) && segment_ok(bytes@, sorted@[c as int]));
            let (s_off, s_size, o_off, o_size) = (s.file_offset as u64, s.file_size as u64, o.file_offset as u64, o.file_size as u64);
            assert(s_off + s_size <= bytes@.len() && o_off + o_size <= bytes@.len());
            if overlap(s_off, s_size, o_off, o_size) {
                return Err(MachOImageError::SegmentOverlap);
            }
            c = c + 1;
        }
        a = a + 1;
    }
    let mut header: Option<u64> = None;
    let mut h: usize = 0;
    while h < n
        invariant
            n == sorted@.len(),
            header matches Some(v) ==> exists|k: int| 0 <= k < n && (#[trigger] sorted@[k]).file_offset == 0 && sorted@[k].file_size >= 32 + command_size && v == sorted@[k].vmaddr,
            h <= n,
            header is None ==> forall|k: int| 0 <= k < h ==> !((#[trigger] sorted@[k]).file_offset == 0 && sorted@[k].file_size >= 32 + command_size),
        decreases n - h,
    {
        let s = sorted[h];
        if s.file_offset == 0 && s.file_size >= 32 + command_size {
            header = Some(s.vmaddr);
            break;
        }
        h = h + 1;
    }
    let header_vaddr = match header {
        Some(v) => v,
        None => return Err(MachOImageError::InvalidHeader),
    };
    let first = sorted[0].vmaddr;
    let preferred_base = first - first % PAGE_SIZE;
    let last_end = checked_end(previous_end, PAGE_SIZE - 1)?;
    let image_end = last_end - last_end % PAGE_SIZE;
    if image_end < preferred_base {
        return Err(MachOImageError::Overflow);
    }
    let image_size = image_end - preferred_base;
    if image_size > MAX_IMAGE_SIZE {
        return Err(MachOImageError::LimitExceeded);
    }
    let ghost entry_option = entry;
    let entry = match entry {
        Some(e) => e,
        None => return Err(MachOImageError::MissingEntry),
    };
    let entry_kind = match entry {
        Entry::FileOffset(_) => EntryKind::Main,
        Entry::VirtualAddress(_) => EntryKind::UnixThread64,
    };
    let (planned, entry_vaddr) = place_segments(&sorted, preferred_base, entry, Ghost(bytes@));
    let entry_vaddr = match entry_vaddr {
        Some(v) => v,
        None => return Err(MachOImageError::EntryOutsideExecutable),
    };
    proof {
        assert(planned@.len() == n);
        assert forall|x: int, y: int| 0 <= x < y < planned@.len() implies seg_end(#[trigger] planned@[x]) <= (#[trigger] planned@[y]).vmaddr by {
            assert(planned@[x].vmaddr == sorted@[x].vmaddr);
            assert(planned@[y].vmaddr == sorted@[y].vmaddr);
        }
        assert forall|x: int| 0 <= x < planned@.len() implies segment_ok(bytes@, #[trigger] planned@[x]) by {
            assert(segment_ok(bytes@, sorted@[x]));
        }
        let hk = choose|k: int| 0 <= k < n && (#[trigger] sorted@[k]).file_offset == 0 && sorted@[k].file_size >= 32 + command_size && header_vaddr == sorted@[k].vmaddr;
        assert(planned@[hk].file_offset == 0);
        let ek = choose|x: int| 0 <= x < n && (#[trigger] sorted@[x]).init_prot & VM_PROT_EXECUTE != 0 && sorted@[x].vmaddr <= entry_vaddr < sorted@[x].vmaddr + sorted@[x].file_size;
        let ek2 = choose|x: int| 0 <= x < n && #[trigger] entry_in(entry, sorted@[x]) && entry_vaddr == vaddr_in(entry, sorted@[x]);
        assert(planned@[ek].init_prot == sorted@[ek].init_prot);
        assert(seg_end(planned@[n - 1]) == previous_end);
        assert forall|x: int, y: int| 0 <= x < y < planned@.len() implies !#[trigger] file_meet(planned@[x], planned@[y]) by {
            assert(planned@[x].file_offset == sorted@[x].file_offset && planned@[x].file_size == sorted@[x].file_size);
            assert(planned@[y].file_offset == sorted@[y].file_offset && planned@[y].file_size == sorted@[y].file_size);
            assert(!file_meet(sorted@[x], sorted@[y]));
        }
        assert forall|x: int| 0 <= x < planned@.len() implies (#[trigger] planned@[x]).name@ != pagezero_name() by {
            assert(planned@[x].name == sorted@[x].name);
        }
        lemma_page_difference(last_end, first);
        lemma_header_unique(sorted@, hk, 32 + word(bytes@, 20));
        lemma_entry_unique(sorted@, entry, ek2);
        assert forall|i: int| 0 <= i < planned@.len() && (#[trigger] planned@[i]).file_offset == 0 && planned@[i].file_size
            >= 32 + word(bytes@, 20) implies header_vaddr == planned@[i].vmaddr by {
            assert(planned@[i].file_offset == sorted@[i].file_offset && planned@[i].file_size == sorted@[i].file_size);
        }
        assert forall|i: int| 0 <= i < planned@.len() && #[trigger] entry_in(entry, planned@[i]) implies entry_vaddr == vaddr_in(
            entry,
            planned@[i],
        ) by {
            assert(planned@[i].vmaddr == sorted@[i].vmaddr && planned@[i].file_offset == sorted@[i].file_offset
                && planned@[i].file_size == sorted@[i].file_size && planned@[i].init_prot == sorted@[i].init_prot);
            assert(entry_in(entry, sorted@[i]));
        }
        assert(planned@.map_values(|x: SegmentPlan| span(x)) =~= sorted@.map_values(|x: SegmentPlan| span(x))) by {
            assert forall|x: int| 0 <= x < n implies #[trigger] span(planned@[x]) == span(sorted@[x]) by {
                assert(planned@[x] == (SegmentPlan { memory_offset: (sorted@[x].vmaddr - preferred_base) as u64, ..sorted@[x] }));
            }
        }
        assert(image_size == page_up(seg_end(planned@[n - 1])) - preferred_base);
    }
    let plan = MachOImagePlan {
        preferred_base,
        image_size,
        header_vaddr,
        entry_vaddr,
        entry_kind,
        entry_offset: entry_vaddr - preferred_base,
        segments: planned,
    };
    proof {
        let s = plan.segments@;
        assert(disjoint_sorted(s));
        assert(forall|i: int| 0 <= i < s.len() ==> segment_ok(bytes@, #[trigger] s[i]));
        assert(forall|i: int| 0 <= i < s.len() ==> (#[trigger] s[i]).memory_offset == s[i].vmaddr - plan.preferred_base);
        assert(forall|i: int, j: int| 0 <= i < j < s.len() ==> !#[trigger] file_meet(s[i], s[j]));
        assert(forall|i: int| 0 <= i < s.len() ==> (#[trigger] s[i]).name@ != pagezero_name());
        assert(exists|i: int| 0 <= i < s.len() && (#[trigger] s[i]).init_prot & VM_PROT_EXECUTE != 0 && s[i].vmaddr <= plan.entry_vaddr < s[i].vmaddr + s[i].file_size);
        assert(exists|i: int| 0 <= i < s.len() && (#[trigger] s[i]).file_offset == 0 && s[i].file_size >= 32 + word(bytes@, 20) && plan.header_vaddr == s[i].vmaddr);
        assert(forall|i: int| 0 <= i < s.len() && (#[trigger] s[i]).file_offset == 0 && s[i].file_size >= 32 + word(bytes@, 20) ==> plan.header_vaddr == s[i].vmaddr);
        lemma_plan_ok(bytes@, plan);
    }
    Ok(plan)
}

/// The segments in ascending order of linked VA.
#[verifier::loop_isolation(false)]
/// `from` gives each element of `out` a distinct position in `input` holding it.
pub open spec fn drawn_from<T>(from: Seq<int>, out: Seq<T>, input: Seq<T>) -> bool {
    &&& from.len() == out.len()
    &&& forall|k: int| 0 <= k < out.len() ==> 0 <= #[trigger] from[k] < input.len() && input[from[k]] == out[k]
    &&& forall|k1: int, k2: int| 0 <= k1 < k2 < out.len() ==> #[trigger] from[k1] != #[trigger] from[k2]
}

fn sort_by_vmaddr(segments: Vec<SegmentPlan>) -> (r: Vec<SegmentPlan>)
    ensures
        r@.len() == segments@.len(),
        forall|a: int, c: int| 0 <= a < c < r@.len() ==> (#[trigger] r@[a]).vmaddr <= (#[trigger] r@[c]).vmaddr,
        forall|a: int| 0 <= a < r@.len() ==> segments@.contains(#[trigger] r@[a]),
        exists|from: Seq<int>| #[trigger] drawn_from(from, r@, segments@),
{
    let mut sorted: Vec<SegmentPlan> = Vec::new();
    let mut i: usize = 0;
    let ghost mut from: Seq<int> = Seq::empty();
    while i < segments.len()
        invariant
            i <= segments@.len(),
            sorted@.len() == i,
            forall|a: int, c: int| 0 <= a < c < sorted@.len() ==> (#[trigger] sorted@[a]).vmaddr <= (#[trigger] sorted@[c]).vmaddr,
            forall|a: int| 0 <= a < sorted@.len() ==> segments@.contains(#[trigger] sorted@[a]),
            drawn_from(from, sorted@, segments@),
            forall|a: int| 0 <= a < sorted@.len() ==> #[trigger] from[a] < i,
        decreases segments@.len() - i,
    {
        let s = segments[i];
        let mut at: usize = 0;
        while at < sorted.len() && sorted[at].vmaddr <= s.vmaddr
            invariant
                at <= sorted@.len(),
                forall|a: int| 0 <= a < at ==> (#[trigger] sorted@[a]).vmaddr <= s.vmaddr,
            decreases sorted@.len() - at,
        {
            at = at + 1;
        }
        let ghost before = sorted@;
        sorted.insert(at, s);
        proof {
            assert(sorted@ =~= before.insert(at as int, s));
            let old_from = from;
            from = old_from.insert(at as int, i as int);
            assert forall|a: int| 0 <= a < sorted@.len() implies 0 <= #[trigger] from[a] < segments@.len()
                && segments@[from[a]] == sorted@[a] && from[a] < i + 1 by {
                if a < at {
                    assert(from[a] == old_from[a] && sorted@[a] == before[a]);
                } else if a > at {
                    assert(from[a] == old_from[a - 1] && sorted@[a] == before[a - 1]);
                }
            }
            assert forall|a1: int, a2: int| 0 <= a1 < a2 < sorted@.len() implies #[trigger] from[a1] != #[trigger] from[a2] by {
                let b1 = if a1 < at { a1 } else { a1 - 1 };
                let b2 = if a2 < at { a2 } else { a2 - 1 };
                if a1 != at && a2 != at {
                    assert(from[a1] == old_from[b1] && from[a2] == old_from[b2]);
                    assert(old_from[b1] != old_from[b2]);
                } else if a1 == at {
                    assert(from[a2] == old_from[b2] && old_from[b2] < i);
                } else {
                    assert(from[a1] == old_from[b1] && old_from[b1] < i);
                }
            }
            assert forall|a: int| 0 <= a < sorted@.len() implies segments@.contains(#[trigger] sorted@[a]) by {
                if a < at {
                    assert(sorted@[a] == before[a]);
                } else if a == at {
                    assert(segments@[i as int] == sorted@[a]);
                } else {
                    assert(sorted@[a] == before[a - 1]);
                }
            }
            assert forall|a: int, c: int| 0 <= a < c < sorted@.len() implies (#[trigger] sorted@[a]).vmaddr <= (#[trigger] sorted@[c]).vmaddr by {
                if at < before.len() {
                    assert(s.vmaddr < before[at as int].vmaddr);
                }
                if c == at && a < at {
                } else if a == at && c > at {
                    assert(sorted@[c] == before[c - 1]);
                    assert(before[at as int].vmaddr <= before[c - 1].vmaddr || c - 1 == at);
                } else if a < at && c > at {
                    assert(sorted@[c] == before[c - 1]);
                } else if a > at {
                    assert(sorted@[a] == before[a - 1]);
                    assert(sorted@[c] == before[c - 1]);
                }
            }
        }
        i = i + 1;
    }
    sorted
}

/// Section `k` of the segment command `c` passes the parser's checks: its segment
/// name, its span inside the segment's memory, its alignment, no relocations, and a
/// kind that is zero fill past the file bytes or static data at the segment's offset.
pub open spec fn section_checks(b: Seq<u8>, c: Seq<u8>, k: int) -> bool {
    let at = 72 + 80 * k;
    let vmaddr = le_u64(c, 24);
    let addr = le_u64(c, at + 32);
    let size = le_u64(c, at + 40);
    let align = le_u32(c, at + 52);
    let flags = le_u32(c, at + 64) as u32;
    let kind = flags & 0xff;
    &&& c.subrange(at + 16, at + 32) == c.subrange(8, 24)
    &&& vmaddr <= addr
    &&& addr + size <= vmaddr + le_u64(c, 32)
    &&& align < 64
    &&& (addr as u64) & (((1u64 << (align as u64)) - 1) as u64) == 0
    &&& le_u32(c, at + 60) == 0
    &&& flags & 0x300 == 0
    &&& if kind == 1 || kind == 0xc {
        addr >= vmaddr + le_u64(c, 48)
    } else if kind == 0 || kind == 2 || kind == 3 || kind == 4 || kind == 0xe {
        &&& addr + size <= vmaddr + le_u64(c, 48)
        &&& le_u32(c, at + 48) == le_u64(c, 40) + (addr - vmaddr)
        &&& le_u32(c, at + 48) + size <= b.len()
    } else {
        false
    }
}

/// The 64-bit segment command `c` passes the parser's checks, with `total`
/// sections already counted.
pub open spec fn segment_checks(b: Seq<u8>, c: Seq<u8>, total: int) -> bool {
    let count = le_u32(c, 64);
    &&& c.len() >= 72
    &&& total + count <= MAX_SECTIONS
    &&& c.len() == 72 + count * 80
    &&& le_u64(c, 32) != 0
    &&& le_u64(c, 48) <= le_u64(c, 32)
    &&& (le_u32(c, 56) as u32) & !7u32 == 0
    &&& (le_u32(c, 60) as u32) & !(le_u32(c, 56) as u32) == 0
    &&& (le_u32(c, 68) as u32) & !4u32 == 0
    &&& le_u64(c, 24) + le_u64(c, 32) <= u64::MAX
    &&& le_u64(c, 40) + le_u64(c, 48) <= b.len()
    &&& forall|k: int| 0 <= k < count ==> #[trigger] section_checks(b, c, k)
    &&& forall|i: int, j: int|
        0 <= i < j < count && le_u64(c, 72 + 80 * i + 40) != 0 && le_u64(c, 72 + 80 * j + 40) != 0
            ==> !(#[trigger] le_u64(c, 72 + 80 * i + 32) < le_u64(c, 72 + 80 * j + 32) + le_u64(c, 72 + 80 * j + 40)
            && #[trigger] le_u64(c, 72 + 80 * j + 32) < le_u64(c, 72 + 80 * i + 32) + le_u64(c, 72 + 80 * i + 40))
}

/// The lemma that a window's words are the words of the whole at its offset.
proof fn lemma_window_words(b: Seq<u8>, at: int, len: int)
    requires
        0 <= at,
        0 <= len,
        at + len <= b.len(),
    ensures
        forall|i: int| 0 <= i && i + 4 <= len ==> #[trigger] le_u32(b.subrange(at, at + len), i) == le_u32(b, at + i),
        forall|i: int| 0 <= i && i + 8 <= len ==> #[trigger] le_u64(b.subrange(at, at + len), i) == le_u64(b, at + i),
{
    let w = b.subrange(at, at + len);
    assert forall|i: int| 0 <= i && i + 4 <= len implies #[trigger] le_u32(w, i) == le_u32(b, at + i) by {
        assert(w[i] == b[at + i] && w[i + 1] == b[at + i + 1] && w[i + 2] == b[at + i + 2] && w[i + 3] == b[at + i + 3]);
    }
    assert forall|i: int| 0 <= i && i + 8 <= len implies #[trigger] le_u64(w, i) == le_u64(b, at + i) by {
        assert(w[i] == b[at + i] && w[i + 1] == b[at + i + 1] && w[i + 2] == b[at + i + 2] && w[i + 3] == b[at + i + 3]);
        assert(w[i + 4] == b[at + i + 4] && w[i + 5] == b[at + i + 5] && w[i + 6] == b[at + i + 6] && w[i + 7] == b[at + i + 7]);
    }
}

#[verifier::loop_isolation(false)]
#[verifier::spinoff_prover]
#[verifier::rlimit(50)]
fn parse_segment(bytes: &[u8], command: &[u8], total_sections: &mut usize) -> (r: Result<SegmentPlan, MachOImageError>)
    requires
        *old(total_sections) <= MAX_SECTIONS,
    ensures
        *final(total_sections) <= MAX_SECTIONS || r is Err,
        r matches Ok(s) ==> segment_ok(bytes@, s) && command@.len() >= 72 && s.name@ == command@.subrange(8, 24),
        segment_checks(bytes@, command@, *old(total_sections) as int) ==> r is Ok,
        r matches Ok(s) ==> {
            &&& s.vmaddr == le_u64(command@, 24)
            &&& s.memory_size == le_u64(command@, 32)
            &&& s.file_offset == le_u64(command@, 40)
            &&& s.file_size == le_u64(command@, 48)
            &&& s.max_prot == le_u32(command@, 56)
            &&& s.init_prot == le_u32(command@, 60)
            &&& *final(total_sections) == *old(total_sections) + le_u32(command@, 64)
        },
{
    let ghost good = segment_checks(bytes@, command@, *total_sections as int);
    slice(command, 0, 72)?;
    let count = read32(command, 64)? as usize;
    *total_sections = match total_sections.checked_add(count) {
        Some(v) => v,
        None => return Err(MachOImageError::Overflow),
    };
    if *total_sections > MAX_SECTIONS {
        return Err(MachOImageError::LimitExceeded);
    }
    exact_size(command, 72 + count * 80)?;
    let vmaddr = read64(command, 24)?;
    let memory_size = read64(command, 32)?;
    let file_offset = read64(command, 40)?;
    let file_size = read64(command, 48)?;
    let max_prot = read32(command, 56)?;
    let init_prot = read32(command, 60)?;
    if memory_size == 0 || file_size > memory_size || max_prot & !7 != 0 || init_prot & !max_prot != 0 {
        return Err(MachOImageError::InvalidSegment);
    }
    assert(max_prot & !7u32 == 0 ==> max_prot <= 7) by (bit_vector);
    // SG_NORELOC is informational; SG_HIGHVM changes the copy layout and
    // SG_PROTECTED/SG_READ_ONLY require mechanisms not implemented here.
    if read32(command, 68)? & !4 != 0 {
        return Err(MachOImageError::UnsupportedFlags);
    }
    let memory_end = checked_end(vmaddr, memory_size)?;
    file_range(bytes, file_offset, file_size)?;
    let _n = bytes.len();
    assert(file_offset + file_size <= bytes@.len() <= usize::MAX);
    let file_memory_end = checked_end(vmaddr, file_size)?;
    let mut ranges: Vec<(u64, u64)> = Vec::new();
    let ghost mut src: Seq<int> = Seq::empty();
    let mut k: usize = 0;
    while k < count
        invariant
            command@.len() == 72 + count * 80,
            count <= MAX_SECTIONS,
            k <= count,
            forall|x: int| 0 <= x < ranges@.len() ==> (#[trigger] ranges@[x]).0 < ranges@[x].1,
            src.len() == ranges@.len(),
            forall|q: int| 0 <= q < ranges@.len() ==> 0 <= #[trigger] src[q] < k && ranges@[q] == (
                le_u64(command@, 72 + 80 * src[q] + 32) as u64,
                (le_u64(command@, 72 + 80 * src[q] + 32) + le_u64(command@, 72 + 80 * src[q] + 40)) as u64,
            ) && le_u64(command@, 72 + 80 * src[q] + 40) != 0,
            forall|q1: int, q2: int| 0 <= q1 < q2 < ranges@.len() ==> #[trigger] src[q1] < #[trigger] src[q2],
        decreases count - k,
    {
        proof {
            if good {
                assert(section_checks(bytes@, command@, k as int));
            }
        }
        let section = slice(command, 72 + k * 80, 80)?;
        proof {
            lemma_window_words(command@, 72 + k * 80, 80);
            assert(section@.subrange(16, 32) =~= command@.subrange(72 + 80 * k + 16, 72 + 80 * k + 32));
        }
        if !crate::bytes::bytes_eq(&section[16..32], &command[8..24]) {
            return Err(MachOImageError::InvalidSection);
        }
        let addr = read64(section, 32)?;
        let size = read64(section, 40)?;
        let end = checked_end(addr, size)?;
        let align = read32(section, 52)?;
        let flags = read32(section, 64)?;
        if addr < vmaddr || end > memory_end || align >= 64 {
            return Err(MachOImageError::InvalidSection);
        }
        let shift = align as u64;
        assert(shift < 64 ==> (1u64 << shift) >= 1) by (bit_vector);
        let mask: u64 = (1u64 << shift) - 1;
        if addr & mask != 0 {
            return Err(MachOImageError::InvalidSection);
        }
        if read32(section, 60)? != 0 || flags & 0x300 != 0 {
            return Err(MachOImageError::UnsupportedRelocations);
        }
        // Only static data/instructions and zero-fill sections. In particular,
        // no dyld pointers, initializers, TLS, or indirect symbol stubs.
        let kind = flags & 0xff;
        if kind == 1 || kind == 0xc {
            if addr < file_memory_end {
                return Err(MachOImageError::InvalidSection);
            }
        } else if kind == 0 || kind == 2 || kind == 3 || kind == 4 || kind == 0xe {
            let section_offset = read32(section, 48)? as u64;
            if end > file_memory_end || section_offset != checked_end(file_offset, addr - vmaddr)? {
                return Err(MachOImageError::InvalidSection);
            }
            file_range(bytes, section_offset, size)?;
        } else {
            return Err(MachOImageError::UnsupportedSection);
        }
        if size != 0 {
            proof {
                src = src.push(k as int);
            }
            ranges.push((addr, end));
        }
        k = k + 1;
    }
    let ghost unsorted = ranges@;
    let ordered = crate::ranges::sort_pairs(ranges);
    let ghost from = choose|from: Seq<int>| crate::ranges::places(from, ordered@, unsorted);
    let mut p: usize = 1;
    while p < ordered.len()
        invariant
            1 <= p,
        decreases ordered@.len() - p,
    {
        proof {
            if good {
                let x = src[from[p - 1]];
                let y = src[from[p as int]];
                assert(from[p - 1] != from[p as int]);
                assert(x != y) by {
                    if from[p - 1] < from[p as int] {
                        assert(src[from[p - 1]] < src[from[p as int]]);
                    } else {
                        assert(src[from[p as int]] < src[from[p - 1]]);
                    }
                }
                assert(unsorted[from[p - 1]] == ordered@[p - 1]);
                assert(unsorted[from[p as int]] == ordered@[p as int]);
                assert(ordered@[p - 1].0 <= ordered@[p as int].0);
                if x < y {
                    assert(!(le_u64(command@, 72 + 80 * x + 32) < le_u64(command@, 72 + 80 * y + 32) + le_u64(command@, 72 + 80 * y + 40)
                        && le_u64(command@, 72 + 80 * y + 32) < le_u64(command@, 72 + 80 * x + 32) + le_u64(command@, 72 + 80 * x + 40)));
                } else {
                    assert(!(le_u64(command@, 72 + 80 * y + 32) < le_u64(command@, 72 + 80 * x + 32) + le_u64(command@, 72 + 80 * x + 40)
                        && le_u64(command@, 72 + 80 * x + 32) < le_u64(command@, 72 + 80 * y + 32) + le_u64(command@, 72 + 80 * y + 40)));
                }
            }
        }
        if ordered[p].0 < ordered[p - 1].1 {
            return Err(MachOImageError::SectionOverlap);
        }
        p = p + 1;
    }
    let name: [u8; 16] = [
        command[8], command[9], command[10], command[11], command[12], command[13], command[14],
        command[15], command[16], command[17], command[18], command[19], command[20], command[21],
        command[22], command[23],
    ];
    assert(name@ =~= command@.subrange(8, 24));
    Ok(SegmentPlan {
        name,
        vmaddr,
        memory_offset: 0,
        memory_size,
        file_offset: file_offset as usize,
        file_size: file_size as usize,
        init_prot,
        max_prot,
    })
}

/// A benign metadata command of type `kind` that is well formed: its exact size,
/// and the file ranges it names inside the input `b`.
pub open spec fn metadata_ok(b: Seq<u8>, c: Seq<u8>, kind: u32) -> bool {
    if kind == 0x2 {
        &&& c.len() == 24
        &&& le_u32(c, 8) + le_u32(c, 12) * 16 <= b.len()
        &&& le_u32(c, 16) + le_u32(c, 20) <= b.len()
    } else if kind == 0x1b {
        c.len() == 24
    } else if kind == 0x24 || kind == 0x2a {
        c.len() == 16
    } else if kind == 0x32 {
        c.len() >= 24 && 24 + le_u32(c, 20) * 8 == c.len()
    } else if kind == 0x1d || kind == 0x26 || kind == 0x29 {
        &&& c.len() == 16
        &&& (kind == 0x29 ==> le_u32(c, 12) % 8 == 0)
        &&& le_u32(c, 8) + le_u32(c, 12) <= b.len()
    } else {
        false
    }
}

fn validate_metadata(bytes: &[u8], command: &[u8], kind: u32) -> (r: Result<(), MachOImageError>)
    ensures
        r is Ok <==> metadata_ok(bytes@, command@, kind),
{
    if kind == 0x2 {
        exact_size(command, 24)?;
        file_range(bytes, read32(command, 8)? as u64, read32(command, 12)? as u64 * 16)?;
        file_range(bytes, read32(command, 16)? as u64, read32(command, 20)? as u64)?;
    } else if kind == 0x1b {
        // UUID
        exact_size(command, 24)?;
    } else if kind == 0x24 || kind == 0x2a {
        // minimum macOS / source version
        exact_size(command, 16)?;
    } else if kind == 0x32 {
        slice(command, 0, 24)?;
        let count = read32(command, 20)? as u64;
        if 24 + count * 8 != command.len() as u64 {
            return Err(MachOImageError::InvalidCommand);
        }
    } else if kind == 0x1d || kind == 0x26 || kind == 0x29 {
        exact_size(command, 16)?;
        let size = read32(command, 12)? as u64;
        if kind == 0x29 && size % 8 != 0 {
            return Err(MachOImageError::InvalidMetadata);
        }
        file_range(bytes, read32(command, 8)? as u64, size)?;
    } else {
        return Err(MachOImageError::UnsupportedCommand);
    }
    Ok(())
}

} // verus!

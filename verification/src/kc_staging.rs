//! Bounded host-memory staging with explicit Intel and ARM64 profiles.
//!
//! Outer segments own copies and zero-fill; members are shared views. Relative
//! arena offsets are not physical addresses or runtime mappings. No relocation,
//! executable mapping, firmware allocation, boot-argument encoding or entry is
//! performed. Successful staging never establishes preparation readiness.
use vstd::prelude::*;

use crate::kernel_collection::{
    inspect_arm64_kernel_collection, inspect_kernel_collection, EntryMetadata, KcMetadataError,
    KcMetadataInspection, SegmentMetadata,
};

verus! {

pub const STAGING_PAGE_SIZE: u64 = 4096;

pub const ARM64_STAGING_PAGE_SIZE: u64 = 16384;

/// Independent bound on the page-rounded memory span, including holes.
pub const MAX_STAGING_SIZE: usize = 134217728;

#[derive(Clone, Copy, Debug, PartialEq, Eq, Structural)]
pub enum KcStagingError {
    Metadata(KcMetadataError),
    EmptyImage,
    AddressOverflow,
    ArenaTooLarge,
    AllocationFailed,
    DestinationSize,
    InvalidMapping,
    ReadbackMismatch,
}

impl KcStagingError {
    /// The name of each variant, with the name of a wrapped error in brackets.
    pub open spec fn name_text(&self) -> Seq<char> {
        match self {
            KcStagingError::Metadata(e) => "Metadata("@ + e.name_text() + ")"@,
            KcStagingError::EmptyImage => "EmptyImage"@,
            KcStagingError::AddressOverflow => "AddressOverflow"@,
            KcStagingError::ArenaTooLarge => "ArenaTooLarge"@,
            KcStagingError::AllocationFailed => "AllocationFailed"@,
            KcStagingError::DestinationSize => "DestinationSize"@,
            KcStagingError::InvalidMapping => "InvalidMapping"@,
            KcStagingError::ReadbackMismatch => "ReadbackMismatch"@,
        }
    }

    /// The variant's name, as a diagnostic would show it.
    pub fn name(&self) -> (r: String)
        ensures
            r@ == self.name_text(),
    {
        match self {
            KcStagingError::Metadata(e) => String::from_str("Metadata(").concat(e.name()).concat(")"),
            KcStagingError::EmptyImage => String::from_str("EmptyImage"),
            KcStagingError::AddressOverflow => String::from_str("AddressOverflow"),
            KcStagingError::ArenaTooLarge => String::from_str("ArenaTooLarge"),
            KcStagingError::AllocationFailed => String::from_str("AllocationFailed"),
            KcStagingError::DestinationSize => String::from_str("DestinationSize"),
            KcStagingError::InvalidMapping => String::from_str("InvalidMapping"),
            KcStagingError::ReadbackMismatch => String::from_str("ReadbackMismatch"),
        }
    }

    /// The diagnostic text of this error.
    pub fn to_string(&self) -> (r: String)
        ensures
            r@ == "KC_STAGING_"@ + self.name_text(),
    {
        String::from_str("KC_STAGING_").concat(self.name().as_str())
    }
}

impl From<KcMetadataError> for KcStagingError {
    fn from(value: KcMetadataError) -> (r: Self) {
        KcStagingError::Metadata(value)
    }
}

impl vstd::std_specs::convert::FromSpecImpl<KcMetadataError> for KcStagingError {
    open spec fn obeys_from_spec() -> bool {
        true
    }

    open spec fn from_spec(value: KcMetadataError) -> Self {
        KcStagingError::Metadata(value)
    }
}

/// Read-only description of one outer mapping. The original command index is
/// retained even though staging copies are ordered by linked virtual address.
#[derive(Clone, Copy, Debug, PartialEq, Eq)]
pub struct StagingSegment {
    pub collection_segment_index: usize,
    pub virtual_address: u64,
    pub destination_offset: usize,
    pub memory_size: usize,
    pub file_offset: usize,
    pub file_size: usize,
    /// Metadata only: host staging does not install these page protections.
    pub initial_protection: u32,
    pub maximum_protection: u32,
}

#[derive(Clone, Copy, Debug)]
struct MemberView {
    destination_offset: usize,
    memory_size: usize,
    file_offset: usize,
    file_size: usize,
    is_header: bool,
}

/// Counts describe the completed full-arena readback. Member view comparisons
/// may overlap, so `member_file_bytes_compared` is not a unique-byte count.
#[derive(Clone, Copy, Debug, PartialEq, Eq)]
pub struct StagingVerification {
    pub arena_bytes: usize,
    pub copied_bytes: usize,
    pub zero_tail_bytes: usize,
    pub hole_bytes: usize,
    pub member_headers_checked: usize,
    pub member_segment_views_checked: usize,
    pub member_file_bytes_compared: usize,
}

/// The lowest address of the segments that occupy memory, or `u64::MAX` without any.
pub open spec fn low_address(segments: Seq<SegmentMetadata>) -> int
    decreases segments.len(),
{
    if segments.len() == 0 {
        u64::MAX as int
    } else {
        let rest = low_address(segments.drop_last());
        let s = segments.last();
        if s.memory_size != 0 && s.address < rest {
            s.address as int
        } else {
            rest
        }
    }
}

/// The highest end of the segments that occupy memory, or 0 without any.
pub open spec fn high_end(segments: Seq<SegmentMetadata>) -> int
    decreases segments.len(),
{
    if segments.len() == 0 {
        0
    } else {
        let rest = high_end(segments.drop_last());
        let s = segments.last();
        if s.memory_size != 0 && s.address + s.memory_size > rest {
            s.address + s.memory_size
        } else {
            rest
        }
    }
}

/// `x` rounded down to a multiple of `page`.
pub open spec fn page_down(x: int, page: int) -> int {
    x - x % page
}

/// The instruction pointer of a thread entry command.
pub open spec fn entry_pointer(e: Option<EntryMetadata>) -> int {
    match e {
        Some(EntryMetadata::UnixThread64 { instruction_pointer }) => instruction_pointer as int,
        Some(EntryMetadata::ArmThread64 { instruction_pointer, .. }) => instruction_pointer as int,
        _ => 0,
    }
}

/// The arena a staging plan lays out for `inspection`: from the page holding the
/// collection's lowest mapped address to the page boundary after its highest end,
/// with the collection header and thread entry at their distances from that page.
pub open spec fn arena_layout(
    inspection: KcMetadataInspection,
    page_size: int,
    minimum: int,
    arena: int,
    header_offset: int,
    entry_offset: int,
) -> bool {
    let c = inspection.collection;
    &&& minimum == page_down(low_address(c.segments@), page_size)
    &&& arena == page_down(high_end(c.segments@) + page_size - 1, page_size) - minimum
    &&& header_offset == c.header_address - minimum
    &&& entry_offset == entry_pointer(c.entry) - minimum
}

/// An inspected plan bound to a live immutable source. Private fields prevent
/// forged plans, and borrowing prevents safe callers from replacing or mutating
/// the source while this plan or its staged result exists.
#[derive(Debug)]
pub struct KcStagingPlan<'a> {
    source: &'a [u8],
    inspection: KcMetadataInspection,
    segments: Vec<StagingSegment>,
    member_views: Vec<MemberView>,
    minimum_virtual_address: u64,
    arena_size: usize,
    collection_header_offset: usize,
    outer_entry_offset: usize,
    page_size: u64,
}

// ---------------------------------------------------------------------------
// The arena a plan stages.

/// Arena byte `k` is one of the segment's copied file bytes.
pub open spec fn copies(s: StagingSegment, k: int) -> bool {
    s.destination_offset <= k < s.destination_offset + s.file_size
}

/// The arena byte at `k`: the source byte a segment copies there, or zero.
pub open spec fn staged_byte(segments: Seq<StagingSegment>, source: Seq<u8>, k: int) -> u8 {
    if exists|i: int| 0 <= i < segments.len() && copies(#[trigger] segments[i], k) {
        let i = choose|i: int| 0 <= i < segments.len() && copies(#[trigger] segments[i], k);
        source[segments[i].file_offset + (k - segments[i].destination_offset)]
    } else {
        0
    }
}

/// The whole arena: every copied file byte in place, zero everywhere else.
pub open spec fn arena_of(segments: Seq<StagingSegment>, source: Seq<u8>, size: nat) -> Seq<u8> {
    Seq::new(size, |k: int| staged_byte(segments, source, k))
}

/// Segments that fit the arena and source, in ascending order, without
/// sharing a byte of memory.
pub open spec fn layout_ok(segments: Seq<StagingSegment>, source_len: int, arena: int) -> bool {
    &&& forall|i: int| 0 <= i < segments.len() ==> {
        let s = #[trigger] segments[i];
        &&& s.file_size <= s.memory_size
        &&& s.destination_offset + s.memory_size <= arena
        &&& s.file_offset + s.file_size <= source_len
    }
    &&& forall|i: int, j: int| 0 <= i < j < segments.len() ==> (#[trigger] segments[i]).destination_offset
        + segments[i].memory_size <= (#[trigger] segments[j]).destination_offset
}

/// Member view `v` lies inside segment `s`, and its file bytes, if any, are the ones
/// the segment copies to the same place.
spec fn backed_by(s: StagingSegment, v: MemberView) -> bool {
    &&& s.destination_offset <= v.destination_offset
    &&& v.destination_offset + v.memory_size <= s.destination_offset + s.memory_size
    &&& (v.file_size == 0 || {
        &&& s.file_offset <= v.file_offset
        &&& v.file_offset + v.file_size <= s.file_offset + s.file_size
        &&& v.destination_offset - s.destination_offset == v.file_offset - s.file_offset
    })
}

/// Some segment backs member view `v`.
spec fn backed(segments: Seq<StagingSegment>, v: MemberView) -> bool {
    exists|x: int| 0 <= x < segments.len() && backed_by(#[trigger] segments[x], v)
}

/// The file bytes of a run of staging segments.
spec fn file_total(segs: Seq<StagingSegment>) -> int
    decreases segs.len(),
{
    if segs.len() == 0 {
        0
    } else {
        file_total(segs.drop_last()) + segs.last().file_size
    }
}

/// The memory bytes of a run of staging segments.
spec fn memory_total(segs: Seq<StagingSegment>) -> int
    decreases segs.len(),
{
    if segs.len() == 0 {
        0
    } else {
        memory_total(segs.drop_last()) + segs.last().memory_size
    }
}

/// The header views of a run of member views.
spec fn header_views(views: Seq<MemberView>) -> int
    decreases views.len(),
{
    if views.len() == 0 {
        0
    } else {
        header_views(views.drop_last()) + if views.last().is_header { 1int } else { 0int }
    }
}

/// The file bytes the member views compare, counted with repetition.
spec fn view_file_total(views: Seq<MemberView>) -> int
    decreases views.len(),
{
    if views.len() == 0 {
        0
    } else {
        view_file_total(views.drop_last()) + views.last().file_size
    }
}

proof fn lemma_view_file_total_prefix(views: Seq<MemberView>, k: int)
    requires
        0 <= k <= views.len(),
    ensures
        0 <= view_file_total(views.take(k)) <= view_file_total(views),
    decreases views.len(),
{
    if views.len() > 0 {
        if k == views.len() {
            assert(views.take(k) =~= views);
            lemma_view_file_total_prefix(views.drop_last(), k - 1);
            assert(views.drop_last().take(k - 1) =~= views.drop_last());
        } else {
            lemma_view_file_total_prefix(views.drop_last(), k);
            assert(views.drop_last().take(k) =~= views.take(k));
        }
    }
}

/// The arena around segment `i`: zero from the end of the previous segment up to it,
/// the source bytes it copies, then zero to the end of its memory.
proof fn lemma_segment_readback(segs: Seq<StagingSegment>, src: Seq<u8>, n: int, i: int, previous_end: int)
    requires
        layout_ok(segs, src.len() as int, n),
        0 <= i < segs.len(),
        i > 0 ==> previous_end == segs[i - 1].destination_offset + segs[i - 1].memory_size,
        i == 0 ==> previous_end == 0,
    ensures
        forall|j: int| previous_end <= j < segs[i].destination_offset ==> #[trigger] staged_byte(segs, src, j) == 0,
        forall|k: int| 0 <= k < segs[i].file_size ==> #[trigger] staged_byte(segs, src, segs[i].destination_offset + k)
            == src[segs[i].file_offset + k],
        forall|j: int| segs[i].destination_offset + segs[i].file_size <= j < segs[i].destination_offset
            + segs[i].memory_size ==> #[trigger] staged_byte(segs, src, j) == 0,
{
    let s = segs[i];
    assert forall|j: int| previous_end <= j < s.destination_offset implies #[trigger] staged_byte(segs, src, j) == 0 by {
        assert forall|y: int| 0 <= y < segs.len() implies !copies(#[trigger] segs[y], j) by {
            if y < i {
                if y < i - 1 {
                    assert(segs[y].destination_offset + segs[y].memory_size <= segs[i - 1].destination_offset);
                }
            } else if y > i {
                assert(s.destination_offset + s.memory_size <= segs[y].destination_offset);
            }
        }
    }
    assert forall|k: int| 0 <= k < s.file_size implies #[trigger] staged_byte(segs, src, s.destination_offset + k)
        == src[s.file_offset + k] by {
        let j = s.destination_offset + k;
        assert(copies(segs[i], j));
        assert forall|y: int| 0 <= y < segs.len() && copies(#[trigger] segs[y], j) implies y == i by {
            if y < i {
                assert(segs[y].destination_offset + segs[y].memory_size <= s.destination_offset);
            } else if y > i {
                assert(s.destination_offset + s.memory_size <= segs[y].destination_offset);
            }
        }
    }
    assert forall|j: int| s.destination_offset + s.file_size <= j < s.destination_offset + s.memory_size
        implies #[trigger] staged_byte(segs, src, j) == 0 by {
        assert forall|y: int| 0 <= y < segs.len() implies !copies(#[trigger] segs[y], j) by {
            if y < i {
                assert(segs[y].destination_offset + segs[y].memory_size <= s.destination_offset);
            } else if y > i {
                assert(s.destination_offset + s.memory_size <= segs[y].destination_offset);
            }
        }
    }
}

/// The arena is zero past the end of the last segment.
proof fn lemma_tail_readback(segs: Seq<StagingSegment>, src: Seq<u8>, n: int, previous_end: int)
    requires
        layout_ok(segs, src.len() as int, n),
        segs.len() > 0 ==> previous_end == segs[segs.len() - 1].destination_offset + segs[segs.len() - 1].memory_size,
        segs.len() == 0 ==> previous_end == 0,
    ensures
        forall|j: int| previous_end <= j ==> #[trigger] staged_byte(segs, src, j) == 0,
{
    assert forall|j: int| previous_end <= j implies #[trigger] staged_byte(segs, src, j) == 0 by {
        assert forall|y: int| 0 <= y < segs.len() implies !copies(#[trigger] segs[y], j) by {
            if y < segs.len() - 1 {
                assert(segs[y].destination_offset + segs[y].memory_size <= segs[segs.len() - 1].destination_offset);
            }
        }
    }
}

/// A backed member view's file bytes are in the arena where the view lies.
proof fn lemma_view_readback(segs: Seq<StagingSegment>, src: Seq<u8>, n: int, v: MemberView)
    requires
        layout_ok(segs, src.len() as int, n),
        backed(segs, v),
    ensures
        forall|k: int| 0 <= k < v.file_size ==> #[trigger] staged_byte(segs, src, v.destination_offset + k)
            == src[v.file_offset + k],
{
    let x = choose|x: int| 0 <= x < segs.len() && backed_by(#[trigger] segs[x], v);
    let s = segs[x];
    assert forall|k: int| 0 <= k < v.file_size implies #[trigger] staged_byte(segs, src, v.destination_offset + k)
        == src[v.file_offset + k] by {
        let j = v.destination_offset + k;
        assert(copies(segs[x], j));
        assert forall|y: int| 0 <= y < segs.len() && copies(#[trigger] segs[y], j) implies y == x by {
            if y < x {
                assert(segs[y].destination_offset + segs[y].memory_size <= s.destination_offset);
            } else if y > x {
                assert(s.destination_offset + s.memory_size <= segs[y].destination_offset);
            }
        }
    }
}

impl<'a> KcStagingPlan<'a> {
    pub closed spec fn spec_source(&self) -> Seq<u8> {
        self.source@
    }

    pub closed spec fn spec_segments(&self) -> Seq<StagingSegment> {
        self.segments@
    }

    pub closed spec fn spec_inspection(&self) -> KcMetadataInspection {
        self.inspection
    }

    pub closed spec fn spec_arena_size(&self) -> usize {
        self.arena_size
    }

    pub closed spec fn spec_minimum_virtual_address(&self) -> u64 {
        self.minimum_virtual_address
    }

    pub closed spec fn spec_collection_header_offset(&self) -> usize {
        self.collection_header_offset
    }

    pub closed spec fn spec_outer_entry_offset(&self) -> usize {
        self.outer_entry_offset
    }

    pub closed spec fn spec_page_size(&self) -> u64 {
        self.page_size
    }

    /// The arena this plan stages.
    pub open spec fn arena(&self) -> Seq<u8> {
        arena_of(self.spec_segments(), self.spec_source(), self.spec_arena_size() as nat)
    }

    /// The plan's invariant: its layout fits, its views lie in the arena and
    /// source, and its entry and header lie in the arena.
    pub closed spec fn wf(&self) -> bool {
        &&& layout_ok(self.segments@, self.source@.len() as int, self.arena_size as int)
        &&& 0 < self.arena_size <= MAX_STAGING_SIZE
        &&& self.minimum_virtual_address % self.page_size == 0
        &&& (self.page_size == STAGING_PAGE_SIZE || self.page_size == ARM64_STAGING_PAGE_SIZE)
        &&& self.outer_entry_offset < self.arena_size
        &&& self.collection_header_offset < self.arena_size
        &&& forall|i: int| 0 <= i < self.member_views@.len() ==> {
            let v = #[trigger] self.member_views@[i];
            &&& v.file_size <= v.memory_size
            &&& v.destination_offset + v.memory_size <= self.arena_size
            &&& v.file_offset + v.file_size <= self.source@.len()
            &&& backed(self.segments@, v)
        }
    }

    /// The file bytes that a readback compares through member views, counted with
    /// repetition where views overlap.
    pub closed spec fn spec_view_file_total(&self) -> int {
        view_file_total(self.member_views@)
    }

    /// The file bytes of all staging segments.
    pub closed spec fn spec_copied_total(&self) -> int {
        file_total(self.segments@)
    }

    /// The memory bytes of all staging segments.
    pub closed spec fn spec_memory_total(&self) -> int {
        memory_total(self.segments@)
    }

    /// The member views that are Mach headers.
    pub closed spec fn spec_header_views(&self) -> int {
        header_views(self.member_views@)
    }

    /// The member views, headers and segments both.
    pub closed spec fn spec_view_count(&self) -> int {
        self.member_views@.len() as int
    }

    /// What a readback of the full arena reports.
    pub open spec fn readback_counts(&self, v: StagingVerification) -> bool {
        &&& v.arena_bytes == self.spec_arena_size()
        &&& v.copied_bytes == self.spec_copied_total()
        &&& v.zero_tail_bytes == self.spec_memory_total() - self.spec_copied_total()
        &&& v.hole_bytes == self.spec_arena_size() - self.spec_memory_total()
        &&& v.member_headers_checked == self.spec_header_views()
        &&& v.member_segment_views_checked == self.spec_view_count() - self.spec_header_views()
        &&& v.member_file_bytes_compared == self.spec_view_file_total()
    }

    pub fn new(source: &'a [u8]) -> (r: Result<Self, KcStagingError>)
        ensures
            r matches Ok(p) ==> p.wf() && p.spec_source() == source@ && p.spec_page_size() == STAGING_PAGE_SIZE
                && crate::kernel_collection::inspection_ok(source@, p.spec_inspection()),
            r matches Ok(p) ==> arena_layout(
                p.spec_inspection(),
                STAGING_PAGE_SIZE as int,
                p.spec_minimum_virtual_address() as int,
                p.spec_arena_size() as int,
                p.spec_collection_header_offset() as int,
                p.spec_outer_entry_offset() as int,
            ),
            source@.len() > crate::kernel_collection::MAX_INPUT_SIZE ==> r == Err::<Self, KcStagingError>(
                KcStagingError::Metadata(KcMetadataError::InputTooLarge),
            ),
            source@.len() <= crate::kernel_collection::MAX_INPUT_SIZE ==> (crate::kernel_collection::header_error(
                source@,
                0,
                true,
                false,
            ) matches Some(e) ==> r == Err::<Self, KcStagingError>(KcStagingError::Metadata(e))),
    {
        let inspection = match inspect_kernel_collection(source) {
            Ok(i) => i,
            Err(e) => return Err(KcStagingError::Metadata(e)),
        };
        Self::from_inspection(source, inspection, STAGING_PAGE_SIZE)
    }

    /// Explicit ARM64/ARM64E metadata profile and 16-KiB arena-span rounding.
    /// Vec backing is ordinary host memory, not a page-aligned guest allocation.
    /// Chained fixups, PAC words, header addresses and instructions stay opaque.
    pub fn new_arm64(source: &'a [u8]) -> (r: Result<Self, KcStagingError>)
        ensures
            r matches Ok(p) ==> p.wf() && p.spec_source() == source@ && p.spec_page_size() == ARM64_STAGING_PAGE_SIZE
                && crate::kernel_collection::inspection_ok(source@, p.spec_inspection()),
            r matches Ok(p) ==> arena_layout(
                p.spec_inspection(),
                ARM64_STAGING_PAGE_SIZE as int,
                p.spec_minimum_virtual_address() as int,
                p.spec_arena_size() as int,
                p.spec_collection_header_offset() as int,
                p.spec_outer_entry_offset() as int,
            ),
            source@.len() > crate::kernel_collection::MAX_INPUT_SIZE ==> r == Err::<Self, KcStagingError>(
                KcStagingError::Metadata(KcMetadataError::InputTooLarge),
            ),
            source@.len() <= crate::kernel_collection::MAX_INPUT_SIZE ==> (crate::kernel_collection::header_error(
                source@,
                0,
                true,
                true,
            ) matches Some(e) ==> r == Err::<Self, KcStagingError>(KcStagingError::Metadata(e))),
    {
        let inspection = match inspect_arm64_kernel_collection(source) {
            Ok(i) => i,
            Err(e) => return Err(KcStagingError::Metadata(e)),
        };
        Self::from_inspection(source, inspection, ARM64_STAGING_PAGE_SIZE)
    }

    #[verifier::loop_isolation(false)]
    fn from_inspection(source: &'a [u8], inspection: KcMetadataInspection, page_size: u64) -> (r: Result<
        Self,
        KcStagingError,
    >)
        requires
            page_size == STAGING_PAGE_SIZE || page_size == ARM64_STAGING_PAGE_SIZE,
        ensures
            r matches Ok(p) ==> p.wf() && p.spec_source() == source@ && p.spec_page_size() == page_size
                && p.spec_inspection() == inspection,
            r matches Ok(p) ==> arena_layout(
                inspection,
                page_size as int,
                p.spec_minimum_virtual_address() as int,
                p.spec_arena_size() as int,
                p.spec_collection_header_offset() as int,
                p.spec_outer_entry_offset() as int,
            ),
    {
        let outer = &inspection.collection.segments;
        let mut first: u64 = u64::MAX;
        let mut last: u64 = 0;
        let mut i: usize = 0;
        while i < outer.len()
            invariant
                i <= outer@.len(),
                first == low_address(outer@.take(i as int)),
                last == high_end(outer@.take(i as int)),
            decreases outer@.len() - i,
        {
            assert(outer@.take(i + 1).drop_last() =~= outer@.take(i as int));
            let segment = &outer[i];
            if segment.memory_size != 0 {
                if segment.address < first {
                    first = segment.address;
                }
                let end = match segment.address.checked_add(segment.memory_size) {
                    Some(e) => e,
                    None => return Err(KcStagingError::AddressOverflow),
                };
                if end > last {
                    last = end;
                }
            }
            i = i + 1;
        }
        assert(outer@.take(outer@.len() as int) =~= outer@);
        if first == u64::MAX || last <= first {
            return Err(KcStagingError::EmptyImage);
        }
        assert(first % page_size <= first && (first - first % page_size) % (page_size as int) == 0) by (nonlinear_arith)
            requires
                page_size > 0,
        ;
        let minimum_virtual_address = first - first % page_size;
        let padded = match last.checked_add(page_size - 1) {
            Some(v) => v,
            None => return Err(KcStagingError::AddressOverflow),
        };
        assert(padded % page_size <= padded) by (nonlinear_arith)
            requires
                page_size > 0,
        ;
        let rounded_end = padded - padded % page_size;
        if rounded_end < minimum_virtual_address {
            return Err(KcStagingError::AddressOverflow);
        }
        let span = rounded_end - minimum_virtual_address;
        if span == 0 || span > MAX_STAGING_SIZE as u64 {
            return Err(KcStagingError::ArenaTooLarge);
        }
        let arena_size = span as usize;
        let mut segments: Vec<StagingSegment> = Vec::new();
        if segments.try_reserve(outer.len()).is_err() {
            return Err(KcStagingError::AllocationFailed);
        }
        let _n = source.len();
        let mut index: usize = 0;
        while index < outer.len()
            invariant
                0 < arena_size <= MAX_STAGING_SIZE,
                forall|k: int| 0 <= k < segments@.len() ==> {
                    let s = #[trigger] segments@[k];
                    &&& s.file_size <= s.memory_size
                    &&& s.destination_offset + s.memory_size <= arena_size
                    &&& s.file_offset + s.file_size <= source@.len()
                },
            decreases outer@.len() - index,
        {
            let segment = &outer[index];
            if segment.memory_size != 0 {
                let destination_offset = relative_range(segment.address, segment.memory_size, minimum_virtual_address, arena_size)?;
                let file_offset = source_range(source, segment.file.offset, segment.file.size)?;
                if segment.file.size > segment.memory_size {
                    return Err(KcStagingError::InvalidMapping);
                }
                segments.push(StagingSegment {
                    collection_segment_index: index,
                    virtual_address: segment.address,
                    destination_offset,
                    memory_size: segment.memory_size as usize,
                    file_offset,
                    file_size: segment.file.size as usize,
                    initial_protection: segment.initial_protection,
                    maximum_protection: segment.maximum_protection,
                });
            }
            index = index + 1;
        }
        let segments = sort_by_destination(segments);
        let count = segments.len();
        let mut p: usize = 1;
        while p < count
            invariant
                1 <= p,
                count == segments@.len(),
                forall|a: int, c: int| 0 <= a < c < p && c < count ==> (#[trigger] segments@[a]).destination_offset
                    + segments@[a].memory_size <= (#[trigger] segments@[c]).destination_offset,
            decreases count - p,
        {
            if segments[p - 1].destination_offset + segments[p - 1].memory_size > segments[p].destination_offset {
                return Err(KcStagingError::InvalidMapping);
            }
            proof {
                assert forall|a: int, c: int| 0 <= a < c < p + 1 && c < count implies (#[trigger] segments@[a]).destination_offset
                    + segments@[a].memory_size <= (#[trigger] segments@[c]).destination_offset by {
                    if c == p && a < p - 1 {
                        assert(segments@[a].destination_offset + segments@[a].memory_size <= segments@[p - 1].destination_offset);
                    }
                }
            }
            p = p + 1;
        }
        let header_size = 32 + inspection.collection.command_bytes as u64;
        let collection_header_offset = relative_range(
            inspection.collection.header_address,
            header_size,
            minimum_virtual_address,
            arena_size,
        )?;
        let entry = match &inspection.collection.entry {
            Some(EntryMetadata::UnixThread64 { instruction_pointer }) => *instruction_pointer,
            Some(EntryMetadata::ArmThread64 { instruction_pointer, .. }) => *instruction_pointer,
            _ => return Err(KcStagingError::InvalidMapping),
        };
        let outer_entry_offset = relative_range(entry, 1, minimum_virtual_address, arena_size)?;
        let members = &inspection.members;
        let mut view_count: usize = 0;
        let mut m: usize = 0;
        while m < members.len()
            decreases members@.len() - m,
        {
            view_count = match view_count.checked_add(1) {
                Some(v) => match v.checked_add(members[m].image.segments.len()) {
                    Some(w) => w,
                    None => return Err(KcStagingError::AddressOverflow),
                },
                None => return Err(KcStagingError::AddressOverflow),
            };
            m = m + 1;
        }
        let mut member_views: Vec<MemberView> = Vec::new();
        if member_views.try_reserve(view_count).is_err() {
            return Err(KcStagingError::AllocationFailed);
        }
        let mut m: usize = 0;
        while m < members.len()
            invariant
                forall|i: int| 0 <= i < member_views@.len() ==> {
                    let v = #[trigger] member_views@[i];
                    &&& v.file_size <= v.memory_size
                    &&& v.destination_offset + v.memory_size <= arena_size
                    &&& v.file_offset + v.file_size <= source@.len()
                    &&& backed(segments@, v)
                },
            decreases members@.len() - m,
        {
            let image = &members[m].image;
            let header_size = 32 + image.command_bytes as u64;
            member_views.push(view(source, &segments, minimum_virtual_address, arena_size, image.header_address, header_size, image.header_file_offset, header_size, true)?);
            let mut s: usize = 0;
            while s < image.segments.len()
                invariant
                    forall|i: int| 0 <= i < member_views@.len() ==> {
                        let v = #[trigger] member_views@[i];
                        &&& v.file_size <= v.memory_size
                        &&& v.destination_offset + v.memory_size <= arena_size
                        &&& v.file_offset + v.file_size <= source@.len()
                        &&& backed(segments@, v)
                    },
                decreases image.segments@.len() - s,
            {
                let segment = &image.segments[s];
                if segment.memory_size != 0 {
                    member_views.push(view(source, &segments, minimum_virtual_address, arena_size, segment.address, segment.memory_size, segment.file.offset, segment.file.size, false)?);
                }
                s = s + 1;
            }
            m = m + 1;
        }
        let plan = KcStagingPlan {
            source,
            inspection,
            segments,
            member_views,
            minimum_virtual_address,
            arena_size,
            collection_header_offset,
            outer_entry_offset,
            page_size,
        };
        proof {
            assert forall|a: int, c: int| 0 <= a < c < plan.segments@.len() implies (#[trigger] plan.segments@[a]).destination_offset
                + plan.segments@[a].memory_size <= (#[trigger] plan.segments@[c]).destination_offset by {
                assert(0 <= a < c < p && c < count);
            }
            assert forall|i: int| 0 <= i < plan.segments@.len() implies {
                let s = #[trigger] plan.segments@[i];
                &&& s.file_size <= s.memory_size
                &&& s.destination_offset + s.memory_size <= plan.arena_size
                &&& s.file_offset + s.file_size <= plan.source@.len()
            } by {
            }
        }
        assert(arena_layout(
            plan.inspection,
            page_size as int,
            plan.minimum_virtual_address as int,
            plan.arena_size as int,
            plan.collection_header_offset as int,
            plan.outer_entry_offset as int,
        ));
        Ok(plan)
    }

    pub fn inspection(&self) -> (r: &KcMetadataInspection)
        ensures
            *r == self.spec_inspection(),
    {
        &self.inspection
    }

    pub fn segments(&self) -> (r: &[StagingSegment])
        ensures
            r@ == self.spec_segments(),
    {
        self.segments.as_slice()
    }

    pub fn minimum_virtual_address(&self) -> (r: u64)
        ensures
            r == self.spec_minimum_virtual_address(),
    {
        self.minimum_virtual_address
    }

    pub fn arena_size(&self) -> (r: usize)
        ensures
            r == self.spec_arena_size(),
    {
        self.arena_size
    }

    pub fn collection_header_offset(&self) -> (r: usize)
        ensures
            r == self.spec_collection_header_offset(),
    {
        self.collection_header_offset
    }

    pub fn outer_entry_offset(&self) -> (r: usize)
        ensures
            r == self.spec_outer_entry_offset(),
    {
        self.outer_entry_offset
    }

    pub fn page_size(&self) -> (r: u64)
        ensures
            r == self.spec_page_size(),
    {
        self.page_size
    }

    pub fn preparation_ready(&self) -> (r: bool)
        ensures
            !r,
    {
        false
    }

    /// Materialize into a caller-owned slice of exactly `arena_size()` bytes.
    /// A size rejection leaves it unchanged. After copying, every arena byte
    /// and member file view is read back. On a readback error the caller must
    /// discard the contents; no successful result is returned.
    pub fn stage_into(&self, destination: &mut [u8]) -> (r: Result<StagingVerification, KcStagingError>)
        requires
            self.wf(),
        ensures
            old(destination)@.len() != self.spec_arena_size() ==> r == Err::<StagingVerification, KcStagingError>(
                KcStagingError::DestinationSize,
            ) && final(destination)@ == old(destination)@,
            old(destination)@.len() == self.spec_arena_size() ==> final(destination)@ == self.arena(),
            r is Ok ==> final(destination)@ == self.arena(),
            old(destination)@.len() == self.spec_arena_size() && self.spec_view_file_total() <= usize::MAX
                ==> r is Ok,
            r matches Ok(v) ==> v.arena_bytes == self.spec_arena_size(),
            r matches Ok(v) ==> self.readback_counts(v),
    {
        if destination.len() != self.arena_size {
            return Err(KcStagingError::DestinationSize);
        }
        let n = destination.len();
        let mut k: usize = 0;
        while k < n
            invariant
                n == destination@.len(),
                k <= n,
                forall|j: int| 0 <= j < k ==> destination@[j] == 0,
            decreases n - k,
        {
            destination[k] = 0;
            k = k + 1;
        }
        let ghost segs = self.segments@;
        let ghost src = self.source@;
        let mut i: usize = 0;
        while i < self.segments.len()
            invariant
                self.wf(),
                segs == self.segments@,
                src == self.source@,
                n == destination@.len() == self.arena_size,
                i <= segs.len(),
                forall|j: int| 0 <= j < n ==> #[trigger] destination@[j] == (if exists|x: int| 0 <= x < i && copies(#[trigger] segs[x], j) {
                    staged_byte(segs, src, j)
                } else {
                    0u8
                }),
            decreases segs.len() - i,
        {
            let s = self.segments[i];
            assert(layout_ok(segs, src.len() as int, n as int));
            assert(segs[i as int] == s);
            let _m = self.source.len();
            let piece = &self.source[s.file_offset..s.file_offset + s.file_size];
            let ghost before = destination@;
            crate::bytes::copy_into(destination, s.destination_offset, piece);
            proof {
                assert forall|j: int| 0 <= j < n implies #[trigger] destination@[j] == (if exists|x: int| 0 <= x < i + 1 && copies(#[trigger] segs[x], j) {
                    staged_byte(segs, src, j)
                } else {
                    0u8
                }) by {
                    if copies(s, j) {
                        assert(destination@[j] == piece@[j - s.destination_offset]);
                        assert forall|y: int| 0 <= y < segs.len() && copies(#[trigger] segs[y], j) implies y == i by {
                            if y < i {
                                assert(segs[y].destination_offset + segs[y].memory_size <= s.destination_offset);
                            } else if y > i {
                                assert(s.destination_offset + s.memory_size <= segs[y].destination_offset);
                            }
                        }
                        assert(copies(segs[i as int], j));
                    } else {
                        assert(destination@[j] == before[j]);
                        if exists|x: int| 0 <= x < i + 1 && copies(#[trigger] segs[x], j) {
                            let x = choose|x: int| 0 <= x < i + 1 && copies(#[trigger] segs[x], j);
                            assert(x != i);
                        }
                    }
                }
            }
            i = i + 1;
        }
        proof {
            assert forall|j: int| 0 <= j < n implies #[trigger] destination@[j] == staged_byte(segs, src, j) by {
                if !(exists|x: int| 0 <= x < segs.len() && copies(#[trigger] segs[x], j)) {
                }
            }
            assert(destination@ =~= self.arena());
        }
        self.verify(destination)
    }

    /// Re-read a staged arena without modifying it. This also permits callers
    /// to detect corruption after a prior successful staging operation.
    #[verifier::loop_isolation(false)]
    #[verifier::spinoff_prover]
    #[verifier::rlimit(60)]
    pub fn verify(&self, destination: &[u8]) -> (r: Result<StagingVerification, KcStagingError>)
        requires
            self.wf(),
        ensures
            destination@.len() != self.spec_arena_size() ==> r == Err::<StagingVerification, KcStagingError>(
                KcStagingError::DestinationSize,
            ),
            r is Ok ==> destination@ == self.arena(),
            destination@ == self.arena() && self.spec_view_file_total() <= usize::MAX ==> r is Ok,
            r matches Ok(v) ==> v.arena_bytes == self.spec_arena_size(),
            r matches Ok(v) ==> self.readback_counts(v),
    {
        if destination.len() != self.arena_size {
            return Err(KcStagingError::DestinationSize);
        }
        proof {
            assert(self.segments@.take(0) =~= Seq::<StagingSegment>::empty());
        }
        let ghost segs = self.segments@;
        let ghost src = self.source@;
        let n = destination.len();
        let mut result = StagingVerification {
            arena_bytes: self.arena_size,
            copied_bytes: 0,
            zero_tail_bytes: 0,
            hole_bytes: 0,
            member_headers_checked: 0,
            member_segment_views_checked: 0,
            member_file_bytes_compared: 0,
        };
        let mut previous_end: usize = 0;
        let mut i: usize = 0;
        while i < self.segments.len()
            invariant
                segs == self.segments@,
                layout_ok(segs, src.len() as int, n as int),
                i <= segs.len(),
                previous_end <= n,
                i > 0 ==> previous_end == segs[i - 1].destination_offset + segs[i - 1].memory_size,
                i == 0 ==> previous_end == 0,
                result.arena_bytes == self.arena_size,
                result.copied_bytes <= previous_end,
                result.zero_tail_bytes <= previous_end,
                result.hole_bytes <= previous_end,
                result.copied_bytes + result.zero_tail_bytes + result.hole_bytes == previous_end,
                result.copied_bytes == file_total(segs.take(i as int)),
                result.zero_tail_bytes == memory_total(segs.take(i as int)) - file_total(segs.take(i as int)),
                result.hole_bytes == previous_end - memory_total(segs.take(i as int)),
                result.member_headers_checked == 0,
                result.member_segment_views_checked == 0,
                result.member_file_bytes_compared == 0,
                forall|j: int| 0 <= j < previous_end ==> #[trigger] destination@[j] == staged_byte(segs, src, j),
            decreases segs.len() - i,
        {
            let s = self.segments[i];
            assert(segs[i as int] == s);
            let start = s.destination_offset;
            let copied_end = start + s.file_size;
            let memory_end = start + s.memory_size;
            if i > 0 {
                assert(segs[i - 1].destination_offset + segs[i - 1].memory_size <= start);
            }
            let _m = self.source.len();
            let piece = &self.source[s.file_offset..s.file_offset + s.file_size];
            proof {
                lemma_segment_readback(segs, src, n as int, i as int, previous_end as int);
                if destination@ == self.arena() {
                    assert forall|j: int| 0 <= j < piece@.len() implies destination@[start + j] == #[trigger] piece@[j] by {
                        assert(destination@[start + j] == staged_byte(segs, src, start + j));
                    }
                    assert forall|j: int| previous_end <= j < start implies #[trigger] destination@[j] == 0 by {
                        assert(destination@[j] == staged_byte(segs, src, j));
                    }
                    assert forall|j: int| copied_end <= j < memory_end implies #[trigger] destination@[j] == 0 by {
                        assert(destination@[j] == staged_byte(segs, src, j));
                    }
                }
            }
            if !all_zero(destination, previous_end, start) || !matches_source(destination, start, piece)
                || !all_zero(destination, copied_end, memory_end) {
                return Err(KcStagingError::ReadbackMismatch);
            }
            proof {
                assert forall|j: int| 0 <= j < memory_end implies #[trigger] destination@[j] == staged_byte(segs, src, j) by {
                    if j >= previous_end {
                        assert forall|y: int| 0 <= y < segs.len() && copies(#[trigger] segs[y], j) implies y == i by {
                            if y < i {
                                assert(segs[y].destination_offset + segs[y].memory_size <= segs[i - 1].destination_offset + segs[i - 1].memory_size || y == i - 1);
                            } else if y > i {
                                assert(s.destination_offset + s.memory_size <= segs[y].destination_offset);
                            }
                        }
                        if copies(s, j) {
                            assert(copies(segs[i as int], j));
                            assert(destination@[j] == piece@[j - start]);
                        }
                    }
                }
            }
            proof {
                assert(segs.take(i + 1).drop_last() =~= segs.take(i as int));
                assert(segs.take(i + 1).last() == s);
            }
            result.copied_bytes = result.copied_bytes + s.file_size;
            result.zero_tail_bytes = result.zero_tail_bytes + (s.memory_size - s.file_size);
            result.hole_bytes = result.hole_bytes + (start - previous_end);
            previous_end = memory_end;
            i = i + 1;
        }
        proof {
            lemma_tail_readback(segs, src, n as int, previous_end as int);
            if destination@ == self.arena() {
                assert forall|j: int| previous_end <= j < n implies #[trigger] destination@[j] == 0 by {
                    assert(destination@[j] == staged_byte(segs, src, j));
                }
            }
        }
        if !all_zero(destination, previous_end, n) {
            return Err(KcStagingError::ReadbackMismatch);
        }
        proof {
            assert forall|j: int| 0 <= j < n implies #[trigger] destination@[j] == staged_byte(segs, src, j) by {
                if j >= previous_end {
                    assert forall|y: int| 0 <= y < segs.len() implies !copies(#[trigger] segs[y], j) by {
                        if segs.len() > 0 {
                            assert(segs[y].destination_offset + segs[y].memory_size <= segs[segs.len() - 1].destination_offset + segs[segs.len() - 1].memory_size || y == segs.len() - 1);
                        }
                    }
                }
            }
            assert(destination@ =~= self.arena());
        }
        result.hole_bytes = result.hole_bytes + (n - previous_end);
        proof {
            assert(segs.take(segs.len() as int) =~= segs);
        }
        let ghost views = self.member_views@;
        assert(views.take(0) =~= Seq::<MemberView>::empty());
        let mut v: usize = 0;
        while v < self.member_views.len()
            invariant
                destination@ == self.arena(),
                result.arena_bytes == self.arena_size,
                views == self.member_views@,
                v <= views.len(),
                result.member_headers_checked + result.member_segment_views_checked == v,
                result.member_file_bytes_compared == view_file_total(views.take(v as int)),
                result.member_headers_checked == header_views(views.take(v as int)),
                result.copied_bytes == file_total(segs),
                result.zero_tail_bytes == memory_total(segs) - file_total(segs),
                result.hole_bytes == n - memory_total(segs),
                segs == self.segments@,
            decreases self.member_views@.len() - v,
        {
            let view = self.member_views[v];
            assert(self.wf());
            proof {
                assert(views[v as int] == view);
                lemma_view_readback(segs, src, n as int, view);
                lemma_view_file_total_prefix(views, v + 1);
                assert(views.take(v + 1).drop_last() =~= views.take(v as int));
            }
            // Member memory tails are intentionally not zeroed or compared to
            // zero: only the owning outer mapping determines those contents.
            if view.destination_offset + view.memory_size > n {
                return Err(KcStagingError::ReadbackMismatch);
            }
            let _m = self.source.len();
            let piece = &self.source[view.file_offset..view.file_offset + view.file_size];
            proof {
                assert forall|j: int| 0 <= j < piece@.len() implies destination@[view.destination_offset + j]
                    == #[trigger] piece@[j] by {
                    assert(destination@[view.destination_offset + j] == staged_byte(segs, src, view.destination_offset + j));
                }
            }
            if !matches_source(destination, view.destination_offset, piece) {
                return Err(KcStagingError::ReadbackMismatch);
            }
            if view.is_header {
                if result.member_headers_checked == usize::MAX {
                    return Err(KcStagingError::AddressOverflow);
                }
                result.member_headers_checked = result.member_headers_checked + 1;
            } else {
                if result.member_segment_views_checked == usize::MAX {
                    return Err(KcStagingError::AddressOverflow);
                }
                result.member_segment_views_checked = result.member_segment_views_checked + 1;
            }
            result.member_file_bytes_compared = match result.member_file_bytes_compared.checked_add(view.file_size) {
                Some(t) => t,
                None => return Err(KcStagingError::AddressOverflow),
            };
            v = v + 1;
        }
        proof {
            assert(views.take(views.len() as int) =~= views);
        }
        Ok(result)
    }

    /// Allocate an ordinary owned arena. This does not request executable
    /// memory. All allocations are released normally on errors or on drop.
    pub fn stage(self) -> (r: Result<StagedKc<'a>, KcStagingError>)
        requires
            self.wf(),
        ensures
            r matches Ok(staged) ==> staged.spec_bytes() == self.arena() && staged.spec_plan() == self,
            r matches Err(e) ==> e == KcStagingError::AllocationFailed || self.spec_view_file_total() > usize::MAX,
    {
        let mut bytes: Vec<u8> = Vec::new();
        if bytes.try_reserve(self.arena_size).is_err() {
            return Err(KcStagingError::AllocationFailed);
        }
        let mut bytes = crate::bytes::zeros(self.arena_size);
        let verification = self.stage_into(bytes.as_mut_slice())?;
        Ok(StagedKc { plan: self, bytes, verification })
    }
}

/// Owned, verified bytes plus their source-bound plan. No mutable arena or
/// entry function pointer is exposed; this type carries no execution authority.
#[derive(Debug)]
pub struct StagedKc<'a> {
    plan: KcStagingPlan<'a>,
    bytes: Vec<u8>,
    verification: StagingVerification,
}

impl<'a> StagedKc<'a> {
    pub closed spec fn spec_plan(&self) -> KcStagingPlan<'a> {
        self.plan
    }

    pub closed spec fn spec_bytes(&self) -> Seq<u8> {
        self.bytes@
    }

    pub fn plan(&self) -> (r: &KcStagingPlan<'a>)
        ensures
            *r == self.spec_plan(),
    {
        &self.plan
    }

    pub fn bytes(&self) -> (r: &[u8])
        ensures
            r@ == self.spec_bytes(),
    {
        self.bytes.as_slice()
    }

    pub closed spec fn spec_verification(&self) -> StagingVerification {
        self.verification
    }

    pub fn verification(&self) -> (r: &StagingVerification)
        ensures
            *r == self.spec_verification(),
    {
        &self.verification
    }

    pub fn preparation_ready(&self) -> (r: bool)
        ensures
            !r,
    {
        false
    }
}

fn relative_range(address: u64, size: u64, base: u64, arena: usize) -> (r: Result<usize, KcStagingError>)
    ensures
        r matches Ok(o) ==> o == address - base && o + size <= arena,
        r is Ok <==> base <= address && address - base + size <= arena,
{
    if address < base {
        return Err(KcStagingError::InvalidMapping);
    }
    let start = address - base;
    let end = match start.checked_add(size) {
        Some(e) => e,
        None => return Err(KcStagingError::AddressOverflow),
    };
    if end > arena as u64 {
        return Err(KcStagingError::InvalidMapping);
    }
    Ok(start as usize)
}

fn source_range(source: &[u8], offset: u64, size: u64) -> (r: Result<usize, KcStagingError>)
    ensures
        r matches Ok(o) ==> o == offset && offset + size <= source@.len(),
        r is Ok <==> offset + size <= source@.len(),
{
    let _n = source.len();
    let end = match offset.checked_add(size) {
        Some(e) => e,
        None => return Err(KcStagingError::AddressOverflow),
    };
    if end > source.len() as u64 {
        return Err(KcStagingError::InvalidMapping);
    }
    Ok(offset as usize)
}

#[verifier::loop_isolation(false)]
fn view(
    source: &[u8],
    segments: &Vec<StagingSegment>,
    base: u64,
    arena: usize,
    address: u64,
    memory_size: u64,
    file_offset: u64,
    file_size: u64,
    is_header: bool,
) -> (r: Result<MemberView, KcStagingError>)
    requires
        arena <= MAX_STAGING_SIZE,
        forall|i: int| 0 <= i < segments@.len() ==> (#[trigger] segments@[i]).destination_offset + segments@[i].memory_size <= arena
            && segments@[i].file_offset + segments@[i].file_size <= source@.len(),
    ensures
        r matches Ok(v) ==> {
            &&& v.file_size <= v.memory_size
            &&& v.destination_offset + v.memory_size <= arena
            &&& v.file_offset + v.file_size <= source@.len()
            &&& v.is_header == is_header
            &&& backed(segments@, v)
            &&& v.destination_offset == address - base
            &&& v.memory_size == memory_size
            &&& v.file_offset == file_offset
            &&& v.file_size == file_size
        },
        r is Ok <==> {
            &&& base <= address
            &&& address - base + memory_size <= arena
            &&& file_offset + file_size <= source@.len()
            &&& file_size <= memory_size
            &&& backed(
                segments@,
                (MemberView {
                    destination_offset: (address - base) as usize,
                    memory_size: memory_size as usize,
                    file_offset: file_offset as usize,
                    file_size: file_size as usize,
                    is_header,
                }),
            )
        },
{
    let _n = source.len();
    let destination_offset = relative_range(address, memory_size, base, arena)?;
    let file_offset = source_range(source, file_offset, file_size)?;
    let memory_size = memory_size as usize;
    let file_size = file_size as usize;
    if file_size > memory_size {
        return Err(KcStagingError::InvalidMapping);
    }
    let ghost cand = MemberView { destination_offset, memory_size, file_offset, file_size, is_header };
    let mut i: usize = 0;
    while i < segments.len()
        invariant
            i <= segments@.len(),
            forall|k: int| 0 <= k < i ==> !backed_by(#[trigger] segments@[k], cand),
        decreases segments@.len() - i,
    {
        let outer = segments[i];
        if destination_offset >= outer.destination_offset
            && destination_offset + memory_size <= outer.destination_offset + outer.memory_size
            && (file_size == 0 || (file_offset >= outer.file_offset && file_offset + file_size
            <= outer.file_offset + outer.file_size && destination_offset - outer.destination_offset
            == file_offset - outer.file_offset)) {
            let v = MemberView { destination_offset, memory_size, file_offset, file_size, is_header };
            assert(backed_by(segments@[i as int], v));
            return Ok(v);
        }
        i = i + 1;
    }
    Err(KcStagingError::InvalidMapping)
}

/// The staging segments in ascending order of destination offset.
fn sort_by_destination(segments: Vec<StagingSegment>) -> (r: Vec<StagingSegment>)
    ensures
        r@.len() == segments@.len(),
        forall|a: int, c: int| 0 <= a < c < r@.len() ==> (#[trigger] r@[a]).destination_offset <= (#[trigger] r@[c]).destination_offset,
        forall|a: int| 0 <= a < r@.len() ==> segments@.contains(#[trigger] r@[a]),
{
    let mut sorted: Vec<StagingSegment> = Vec::new();
    let mut i: usize = 0;
    while i < segments.len()
        invariant
            i <= segments@.len(),
            sorted@.len() == i,
            forall|a: int, c: int| 0 <= a < c < sorted@.len() ==> (#[trigger] sorted@[a]).destination_offset <= (#[trigger] sorted@[c]).destination_offset,
            forall|a: int| 0 <= a < sorted@.len() ==> segments@.contains(#[trigger] sorted@[a]),
        decreases segments@.len() - i,
    {
        let x = segments[i];
        let mut at: usize = 0;
        while at < sorted.len() && sorted[at].destination_offset <= x.destination_offset
            invariant
                at <= sorted@.len(),
                forall|a: int| 0 <= a < at ==> (#[trigger] sorted@[a]).destination_offset <= x.destination_offset,
            decreases sorted@.len() - at,
        {
            at = at + 1;
        }
        let ghost before = sorted@;
        sorted.insert(at, x);
        proof {
            assert(sorted@ =~= before.insert(at as int, x));
            assert forall|a: int| 0 <= a < sorted@.len() implies segments@.contains(#[trigger] sorted@[a]) by {
                if a < at {
                    assert(sorted@[a] == before[a]);
                } else if a == at {
                    assert(segments@[i as int] == sorted@[a]);
                } else {
                    assert(sorted@[a] == before[a - 1]);
                }
            }
            assert forall|a: int, c: int| 0 <= a < c < sorted@.len() implies (#[trigger] sorted@[a]).destination_offset <= (#[trigger] sorted@[c]).destination_offset by {
                if at < before.len() {
                    assert(x.destination_offset < before[at as int].destination_offset);
                }
                if a == at && c > at {
                    assert(sorted@[c] == before[c - 1]);
                } else if a < at && c > at {
                    assert(sorted@[c] == before[c - 1]);
                } else if a > at {
                    assert(sorted@[a] == before[a - 1]);
                    assert(sorted@[c] == before[c - 1]);
                }
            }
        }
        i = i + 1;
    }
    sorted
}

/// Whether `bytes[start..end]` are all zero.
fn all_zero(bytes: &[u8], start: usize, end: usize) -> (r: bool)
    requires
        start <= end <= bytes@.len(),
    ensures
        r == forall|j: int| start <= j < end ==> #[trigger] bytes@[j] == 0,
{
    let mut k = start;
    while k < end
        invariant
            start <= k <= end <= bytes@.len(),
            forall|j: int| start <= j < k ==> #[trigger] bytes@[j] == 0,
        decreases end - k,
    {
        if bytes[k] != 0 {
            return false;
        }
        k = k + 1;
    }
    true
}

/// Whether `bytes` holds `expected` at `start`.
fn matches_source(bytes: &[u8], start: usize, expected: &[u8]) -> (r: bool)
    requires
        start + expected@.len() <= bytes@.len(),
    ensures
        r == forall|j: int| 0 <= j < expected@.len() ==> bytes@[start + j] == #[trigger] expected@[j],
{
    let mut k: usize = 0;
    while k < expected.len()
        invariant
            start + expected@.len() <= bytes@.len(),
            k <= expected@.len(),
            forall|j: int| 0 <= j < k ==> bytes@[start + j] == #[trigger] expected@[j],
        decreases expected@.len() - k,
    {
        let _n = bytes.len();
        if bytes[start + k] != expected[k] {
            return false;
        }
        k = k + 1;
    }
    true
}

} // verus!

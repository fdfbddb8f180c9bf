//! Read-only classic/format-11 write-target audit. Never applies a fixup.
use vstd::prelude::*;

use crate::bytes::{le_u16, le_u32, read_u16, read_u32};
use crate::kernel_collection::{
    inspect_kernel_collection, FileRange, FilesetMember, ImageMetadata, KcMetadataError, KcMetadataInspection,
    SegmentMetadata,
};
use crate::ranges::sort_pairs;

verus! {

pub const MAX_AUDIT_RECORDS: usize = 1000000;

pub const MAX_AUDIT_ISSUES: usize = 1000000;

pub const MAX_AUDIT_PAGE_STARTS: usize = 1000000;

#[derive(Clone, Copy, Debug, PartialEq, Eq)]
pub struct AuditLimits {
    pub records: usize,
    pub issues: usize,
    pub page_starts: usize,
}

impl Default for AuditLimits {
    fn default() -> (r: Self)
        ensures
            r.records == MAX_AUDIT_RECORDS,
            r.issues == MAX_AUDIT_ISSUES,
            r.page_starts == MAX_AUDIT_PAGE_STARTS,
    {
        AuditLimits { records: MAX_AUDIT_RECORDS, issues: MAX_AUDIT_ISSUES, page_starts: MAX_AUDIT_PAGE_STARTS }
    }
}

#[derive(Clone, Copy, Debug, PartialEq, Eq, Structural)]
pub enum AuditError {
    Metadata(KcMetadataError),
    InvalidLimits,
    LimitExceeded,
    AllocationFailed,
    InvalidMetadata,
    Overflow,
}

impl AuditError {
    /// The name of each variant, with the name of a wrapped error in brackets.
    pub open spec fn name_text(&self) -> Seq<char> {
        match self {
            AuditError::Metadata(e) => "Metadata("@ + e.name_text() + ")"@,
            AuditError::InvalidLimits => "InvalidLimits"@,
            AuditError::LimitExceeded => "LimitExceeded"@,
            AuditError::AllocationFailed => "AllocationFailed"@,
            AuditError::InvalidMetadata => "InvalidMetadata"@,
            AuditError::Overflow => "Overflow"@,
        }
    }

    /// The variant's name, as a diagnostic would show it.
    pub fn name(&self) -> (r: String)
        ensures
            r@ == self.name_text(),
    {
        match self {
            AuditError::Metadata(e) => String::from_str("Metadata(").concat(e.name()).concat(")"),
            AuditError::InvalidLimits => String::from_str("InvalidLimits"),
            AuditError::LimitExceeded => String::from_str("LimitExceeded"),
            AuditError::AllocationFailed => String::from_str("AllocationFailed"),
            AuditError::InvalidMetadata => String::from_str("InvalidMetadata"),
            AuditError::Overflow => String::from_str("Overflow"),
        }
    }

    /// The diagnostic text of this error.
    pub fn to_string(&self) -> (r: String)
        ensures
            r@ == "KC_FIXUP_AUDIT_"@ + self.name_text(),
    {
        String::from_str("KC_FIXUP_AUDIT_").concat(self.name().as_str())
    }
}

impl From<KcMetadataError> for AuditError {
    fn from(e: KcMetadataError) -> (r: Self) {
        AuditError::Metadata(e)
    }
}

impl vstd::std_specs::convert::FromSpecImpl<KcMetadataError> for AuditError {
    open spec fn obeys_from_spec() -> bool {
        true
    }

    open spec fn from_spec(e: KcMetadataError) -> Self {
        AuditError::Metadata(e)
    }
}

#[derive(Clone, Copy, Debug, PartialEq, Eq, Structural)]
pub enum IssueCode {
    UnsupportedClassicType,
    UnsupportedClassicWidth,
    UnsupportedPcRelative,
    UnsupportedExternal,
    MissingClassicBase,
    NegativeSectionDisplacement,
    WriteOutsideSection,
    WriteOutsideFileMapping,
    WriteAddressOverflow,
    UnsupportedPointerFormat,
    UnsupportedImports,
    UnsupportedCompressedSymbols,
    UnsupportedMultiStartConsumer,
    ChainOutsidePage,
    ChainOutsideFileMapping,
    DuplicateChainVisit,
    MissingCacheBase,
    UnsupportedAuthentication,
    PointerTargetOverflow,
    PointerTargetOutsideMappings,
    SameMechanismWriteOverlap,
    CrossMechanismWriteOverlap,
}

#[derive(Clone, Copy, Debug)]
pub struct AuditIssue {
    pub code: IssueCode,
    pub image_index: usize,
    pub record_index: Option<usize>,
    pub related_record_index: Option<usize>,
}

#[derive(Clone, Copy, Debug, PartialEq, Eq, Structural)]
pub enum ClassicTable {
    LocalDynamic,
    ExternalDynamic,
    Section,
}

#[derive(Clone, Copy, Debug, PartialEq, Eq, Structural)]
pub enum MemberOverlap {
    ExecutableMember,
    KextMember,
    Both,
    OuterOnly,
}

#[derive(Clone, Copy, Debug, PartialEq, Eq)]
pub enum RecordDetail {
    Classic {
        table: ClassicTable,
        displacement: i32,
        symbol_ordinal: u32,
        relocation_type: u8,
        length_exponent: u8,
        pc_relative: bool,
        external: bool,
        /// Raw word evidence only; no final classic pointer interpretation.
        stored_value: Option<u64>,
    },
    Chain11 {
        segment_index: usize,
        page_index: usize,
        target_offset: u32,
        cache_level: u8,
        diversity: u16,
        address_diversity: bool,
        key: u8,
        next: u16,
        authenticated: bool,
        resolved_target: Option<u64>,
        /// Point containment only, not the size/semantics of a pointee object.
        target_in_primary_mapping: bool,
    },
}

#[derive(Clone, Copy, Debug)]
pub struct AuditRecord {
    /// Zero is outer; n+1 is the nth fileset member. This is source provenance.
    pub image_index: usize,
    pub source_record_offset: u64,
    pub write_address: Option<u64>,
    pub write_file_offset: Option<u64>,
    pub width: u8,
    /// Which member mappings intersect this write; not execution ownership.
    pub member_overlap: MemberOverlap,
    pub detail: RecordDetail,
}

#[derive(Clone, Debug, Default)]
pub struct AuditSummary {
    pub classic_records: usize,
    pub classic_negative_displacements: usize,
    pub classic_types: [usize; 16],
    pub classic_width_exponents: [usize; 4],
    pub classic_pc_relative: usize,
    pub classic_external: usize,
    pub chain_records: usize,
    pub chain_starts: usize,
    pub chains_terminated: usize,
    pub chain_page_straddling_words: usize,
    pub page_starts_visited: usize,
    pub multi_start_pages: usize,
    pub chain_cache_levels: [usize; 4],
    pub authenticated_words: usize,
    pub primary_pointer_targets_covered: usize,
    pub file_backed_write_records: usize,
    pub executable_member_write_records: usize,
    pub kext_member_write_records: usize,
    pub both_member_write_records: usize,
    pub outer_only_write_records: usize,
    pub issue_counts: Vec<IssueCount>,
}

#[derive(Clone, Copy, Debug)]
pub struct IssueCount {
    pub code: IssueCode,
    pub count: usize,
}

/// Detailed records contain input-derived addresses; save actual-image details
/// only in isolation.
#[derive(Debug)]
pub struct KcFixupAudit {
    summary: AuditSummary,
    records: Vec<AuditRecord>,
    issues: Vec<AuditIssue>,
    primary_base: u64,
}

impl KcFixupAudit {
    pub closed spec fn spec_summary(&self) -> AuditSummary {
        self.summary
    }

    pub closed spec fn spec_records(&self) -> Seq<AuditRecord> {
        self.records@
    }

    pub closed spec fn spec_issues(&self) -> Seq<AuditIssue> {
        self.issues@
    }

    pub closed spec fn spec_primary_base(&self) -> u64 {
        self.primary_base
    }

    pub fn summary(&self) -> (r: &AuditSummary)
        ensures
            *r == self.spec_summary(),
    {
        &self.summary
    }

    pub fn records(&self) -> (r: &[AuditRecord])
        ensures
            r@ == self.spec_records(),
    {
        self.records.as_slice()
    }

    pub fn issues(&self) -> (r: &[AuditIssue])
        ensures
            r@ == self.spec_issues(),
    {
        self.issues.as_slice()
    }

    pub fn primary_base(&self) -> (r: u64)
        ensures
            r == self.spec_primary_base(),
    {
        self.primary_base
    }

    /// No audited write target or pointer raised an issue.
    pub fn ranges_valid(&self) -> (r: bool)
        ensures
            r == (self.spec_issues().len() == 0),
    {
        self.issues.len() == 0
    }

    pub fn preparation_ready(&self) -> (r: bool)
        ensures
            !r,
    {
        false
    }

    pub fn relocations_applied(&self) -> (r: bool)
        ensures
            !r,
    {
        false
    }

    pub fn ownership_resolved(&self) -> (r: bool)
        ensures
            !r,
    {
        false
    }
}

// ---------------------------------------------------------------------------
// Address mappings of one image.

#[derive(Clone, Copy)]
struct Mapping {
    start: u64,
    end: u64,
    file_end: u64,
    file_offset: u64,
}

spec fn mapping_ok(m: Mapping) -> bool {
    m.start <= m.end && m.start <= m.file_end
}

/// The mapping of one segment.
spec fn mapping_of(s: SegmentMetadata) -> Mapping {
    Mapping {
        start: s.address,
        end: (s.address + s.memory_size) as u64,
        file_end: (s.address + s.file.size) as u64,
        file_offset: s.file.offset,
    }
}

/// The mappings of the segments that occupy memory, in segment order.
spec fn segment_mappings(segs: Seq<SegmentMetadata>) -> Seq<Mapping>
    decreases segs.len(),
{
    if segs.len() == 0 {
        seq![]
    } else if segs.last().memory_size != 0 {
        segment_mappings(segs.drop_last()).push(mapping_of(segs.last()))
    } else {
        segment_mappings(segs.drop_last())
    }
}

/// A segment that occupies memory has memory and file ends in range.
pub open spec fn mappable(s: SegmentMetadata) -> bool {
    s.memory_size != 0 ==> s.address + s.memory_size <= u64::MAX && s.address + s.file.size <= u64::MAX
}

fn mappings(segments: &Vec<SegmentMetadata>) -> (r: Result<Vec<Mapping>, AuditError>)
    ensures
        r matches Ok(v) ==> forall|i: int| 0 <= i < v@.len() ==> mapping_ok(#[trigger] v@[i]),
        r is Ok <==> forall|i: int| 0 <= i < segments@.len() ==> mappable(#[trigger] segments@[i]),
        r matches Ok(v) ==> v@.to_multiset() == segment_mappings(segments@).to_multiset(),
        r matches Ok(v) ==> forall|a: int, b: int| 0 <= a < b < v@.len() ==> (#[trigger] v@[a]).start <= (#[trigger] v@[b]).start,
{
    let mut result: Vec<Mapping> = Vec::new();
    let mut i: usize = 0;
    proof {
        assert(segments@.subrange(0, 0) =~= Seq::<SegmentMetadata>::empty());
    }
    while i < segments.len()
        invariant
            i <= segments@.len(),
            forall|k: int| 0 <= k < result@.len() ==> mapping_ok(#[trigger] result@[k]),
            forall|k: int| 0 <= k < i ==> mappable(#[trigger] segments@[k]),
            result@ == segment_mappings(segments@.subrange(0, i as int)),
        decreases segments@.len() - i,
    {
        let s = &segments[i];
        proof {
            assert(segments@.subrange(0, i + 1).drop_last() =~= segments@.subrange(0, i as int));
            assert(segments@.subrange(0, i + 1).last() == segments@[i as int]);
        }
        if s.memory_size != 0 {
            let end = sum_u64(s.address, s.memory_size)?;
            let file_end = sum_u64(s.address, s.file.size)?;
            result.push(Mapping { start: s.address, end, file_end, file_offset: s.file.offset });
        }
        i = i + 1;
    }
    proof {
        assert(segments@.subrange(0, segments@.len() as int) =~= segments@);
    }
    let sorted = sort_mappings(result);
    Ok(sorted)
}

/// The mappings in ascending order of start.
fn sort_mappings(maps: Vec<Mapping>) -> (r: Vec<Mapping>)
    ensures
        r@.len() == maps@.len(),
        forall|a: int| 0 <= a < r@.len() ==> maps@.contains(#[trigger] r@[a]),
        r@.to_multiset() == maps@.to_multiset(),
        forall|a: int, b: int| 0 <= a < b < r@.len() ==> (#[trigger] r@[a]).start <= (#[trigger] r@[b]).start,
{
    let mut sorted: Vec<Mapping> = Vec::new();
    let mut i: usize = 0;
    proof {
        assert(maps@.subrange(0, 0) =~= Seq::<Mapping>::empty());
    }
    while i < maps.len()
        invariant
            i <= maps@.len(),
            sorted@.len() == i,
            forall|a: int| 0 <= a < sorted@.len() ==> maps@.contains(#[trigger] sorted@[a]),
            sorted@.to_multiset() == maps@.subrange(0, i as int).to_multiset(),
            forall|a: int, b: int| 0 <= a < b < sorted@.len() ==> (#[trigger] sorted@[a]).start <= (#[trigger] sorted@[b]).start,
        decreases maps@.len() - i,
    {
        let x = maps[i];
        let mut at: usize = 0;
        while at < sorted.len() && sorted[at].start <= x.start
            invariant
                at <= sorted@.len(),
                forall|k: int| 0 <= k < at ==> (#[trigger] sorted@[k]).start <= x.start,
            decreases sorted@.len() - at,
        {
            at = at + 1;
        }
        let ghost before = sorted@;
        sorted.insert(at, x);
        proof {
            assert(sorted@ =~= before.insert(at as int, x));
            assert(maps@.subrange(0, i + 1) =~= maps@.subrange(0, i as int).push(x));
            vstd::seq_lib::to_multiset_insert(before, at as int, x);
            vstd::seq_lib::to_multiset_build(maps@.subrange(0, i as int), x);
            assert forall|a: int| 0 <= a < sorted@.len() implies maps@.contains(#[trigger] sorted@[a]) by {
                if a < at {
                    assert(sorted@[a] == before[a]);
                } else if a == at {
                    assert(maps@[i as int] == sorted@[a]);
                } else {
                    assert(sorted@[a] == before[a - 1]);
                }
            }
            assert forall|a: int, b: int| 0 <= a < b < sorted@.len() implies (#[trigger] sorted@[a]).start
                <= (#[trigger] sorted@[b]).start by {
                if b < at {
                    assert(sorted@[a] == before[a] && sorted@[b] == before[b]);
                } else if b == at {
                    assert(sorted@[a] == before[a]);
                } else if a < at {
                    assert(sorted@[a] == before[a] && sorted@[b] == before[b - 1]);
                } else if a == at {
                    assert(sorted@[b] == before[b - 1]);
                    assert(before[at as int].start > x.start);
                    if b - 1 > at {
                        assert(before[at as int].start <= before[b - 1].start);
                    }
                } else {
                    assert(sorted@[a] == before[a - 1] && sorted@[b] == before[b - 1]);
                }
            }
        }
        i = i + 1;
    }
    proof {
        assert(maps@.subrange(0, maps@.len() as int) =~= maps@);
    }
    sorted
}

/// The index past the run of mappings from `i` on that start at or below `address`.
spec fn run_at_or_below(maps: Seq<Mapping>, address: u64, i: int) -> int
    decreases maps.len() - i,
{
    if 0 <= i < maps.len() && maps[i].start <= address {
        run_at_or_below(maps, address, i + 1)
    } else {
        i
    }
}

/// The last mapping of the leading run that starts at or below `address`, if a
/// write of `width` bytes at `address` ends inside it.
spec fn containing_spec(maps: Seq<Mapping>, address: u64, width: u64) -> Option<Mapping> {
    let n = run_at_or_below(maps, address, 0);
    if n <= 0 {
        None
    } else if address + width <= maps[n - 1].end {
        Some(maps[n - 1])
    } else {
        None
    }
}

/// The file offset that the mapping found by `containing_spec` gives a write, if it backs
/// all of the write with file bytes.
spec fn file_location_spec(maps: Seq<Mapping>, address: u64, width: u64) -> Option<u64> {
    match containing_spec(maps, address, width) {
        None => None,
        Some(m) => if address + width <= m.file_end && m.file_offset + (address - m.start) <= u64::MAX {
            Some((m.file_offset + (address - m.start)) as u64)
        } else {
            None
        },
    }
}

/// The last mapping that starts at or below `address`, if the write of
/// `width` bytes ends inside it.
fn containing(maps: &Vec<Mapping>, address: u64, width: u64) -> (r: Option<Mapping>)
    ensures
        r matches Some(m) ==> maps@.contains(m) && m.start <= address && address + width <= m.end,
        r == containing_spec(maps@, address, width),
{
    let mut n: usize = 0;
    while n < maps.len() && maps[n].start <= address
        invariant
            n <= maps@.len(),
            forall|k: int| 0 <= k < n ==> (#[trigger] maps@[k]).start <= address,
            run_at_or_below(maps@, address, 0) == run_at_or_below(maps@, address, n as int),
        decreases maps@.len() - n,
    {
        n = n + 1;
    }
    assert(run_at_or_below(maps@, address, n as int) == n);
    if n == 0 {
        return None;
    }
    let m = maps[n - 1];
    assert(maps@.contains(maps@[n - 1]));
    match address.checked_add(width) {
        Some(end) => if end <= m.end {
            Some(m)
        } else {
            None
        },
        None => None,
    }
}

/// The file offset of a write of `width` bytes at `address`, if its mapping
/// backs all of it with file bytes.
fn file_location(maps: &Vec<Mapping>, address: u64, width: u64) -> (r: Option<u64>)
    requires
        forall|i: int| 0 <= i < maps@.len() ==> mapping_ok(#[trigger] maps@[i]),
    ensures
        r == file_location_spec(maps@, address, width),
{
    let m = containing(maps, address, width)?;
    let end = address.checked_add(width)?;
    if end <= m.file_end {
        m.file_offset.checked_add(address - m.start)
    } else {
        None
    }
}

fn sum_u64(a: u64, b: u64) -> (r: Result<u64, AuditError>)
    ensures
        r matches Ok(v) ==> v == a + b,
        r is Err ==> a + b > u64::MAX,
{
    match a.checked_add(b) {
        Some(v) => Ok(v),
        None => Err(AuditError::Overflow),
    }
}

fn raw(source: &[u8], at: u64, size: usize) -> (r: Result<&[u8], AuditError>)
    ensures
        r matches Ok(s) ==> at + size <= source@.len() && s@ == source@.subrange(at as int, at + size),
        r is Ok <==> at + size <= source@.len(),
{
    let _n = source.len();
    let end = sum_u64(at, size as u64)?;
    if end > source.len() as u64 {
        return Err(AuditError::InvalidMetadata);
    }
    Ok(&source[at as usize..end as usize])
}

fn u16_at(source: &[u8], at: u64) -> (r: Result<u16, AuditError>)
    ensures
        r matches Ok(v) ==> at + 2 <= source@.len() && v == le_u16(source@, at as int),
        r is Ok <==> at + 2 <= source@.len(),
{
    let b = raw(source, at, 2)?;
    let v = read_u16(b, 0);
    assert(v == le_u16(source@, at as int)) by {
        assert(b@[0] == source@[at as int] && b@[1] == source@[at + 1]);
    }
    Ok(v)
}

fn u32_at(source: &[u8], at: u64) -> (r: Result<u32, AuditError>)
    ensures
        r matches Ok(v) ==> at + 4 <= source@.len() && v == le_u32(source@, at as int),
        r is Ok <==> at + 4 <= source@.len(),
{
    let b = raw(source, at, 4)?;
    let v = read_u32(b, 0);
    assert(v == le_u32(source@, at as int)) by {
        assert(b@[0] == source@[at as int] && b@[1] == source@[at + 1]);
        assert(b@[2] == source@[at + 2] && b@[3] == source@[at + 3]);
    }
    Ok(v)
}

/// The little-endian value of the bytes of `b`, lowest first.
pub open spec fn le_value(b: Seq<u8>) -> nat
    decreases b.len(),
{
    if b.len() == 0 {
        0
    } else {
        (b[0] + 256 * le_value(b.drop_first())) as nat
    }
}

/// 256 to the power `n`.
spec fn byte_scale(n: nat) -> nat
    decreases n,
{
    if n == 0 {
        1
    } else {
        256 * byte_scale((n - 1) as nat)
    }
}

/// The little-endian word of `width` bytes at `at`.
fn word_at(source: &[u8], at: u64, width: u8) -> (r: Result<u64, AuditError>)
    requires
        width <= 8,
    ensures
        r matches Ok(v) ==> at + width <= source@.len() && v == le_value(
            source@.subrange(at as int, at + width),
        ),
        r is Ok <==> at + width <= source@.len(),
{
    let b = raw(source, at, width as usize)?;
    let mut value: u64 = 0;
    let mut k: usize = b.len();
    proof {
        assert(b@.subrange(k as int, b@.len() as int) =~= Seq::<u8>::empty());
    }
    while k > 0
        invariant
            k <= b@.len() <= 8,
            value == le_value(b@.subrange(k as int, b@.len() as int)),
            value < byte_scale((b@.len() - k) as nat),
        decreases k,
    {
        proof {
            reveal_with_fuel(byte_scale, 8);
            assert(byte_scale((b@.len() - k) as nat) <= 0x100_0000_0000_0000);
        }
        k = k - 1;
        let x = b[k];
        let v = value;
        assert((v << 8u64) | (x as u64) == v * 256 + x) by (bit_vector)
            requires
                v < 0x100_0000_0000_0000,
        ;
        value = (value << 8u64) | x as u64;
        proof {
            assert(b@.subrange(k as int, b@.len() as int).drop_first() =~= b@.subrange(k + 1, b@.len() as int));
        }
    }
    proof {
        assert(b@.subrange(0, b@.len() as int) =~= b@);
    }
    Ok(value)
}

fn push_bounded<T>(items: &mut Vec<T>, value: T, limit: usize) -> (r: Result<usize, AuditError>)
    ensures
        r matches Ok(i) ==> i == old(items)@.len() && final(items)@ == old(items)@.push(value) && old(items)@.len() < limit,
        r is Err ==> final(items)@ == old(items)@ && old(items)@.len() >= limit,
{
    if items.len() >= limit {
        return Err(AuditError::LimitExceeded);
    }
    let index = items.len();
    items.push(value);
    Ok(index)
}

// ---------------------------------------------------------------------------
// The audit walk.

struct Audit<'a> {
    source: &'a [u8],
    limits: AuditLimits,
    out: KcFixupAudit,
    outer: Vec<Mapping>,
    executable: Vec<(u64, u64)>,
    kext: Vec<(u64, u64)>,
}

/// The summary counts what the records hold: one classic or chain count per
/// record, one member-overlap class per record, page starts within the limit.
pub open spec fn summary_ok(s: AuditSummary, records: int, issues: int, page_limit: int) -> bool {
    &&& s.classic_records + s.chain_records == records
    &&& s.classic_negative_displacements <= s.classic_records
    &&& forall|k: int| 0 <= k < 16 ==> #[trigger] s.classic_types[k] <= s.classic_records
    &&& forall|k: int| 0 <= k < 4 ==> #[trigger] s.classic_width_exponents[k] <= s.classic_records
    &&& s.classic_pc_relative <= s.classic_records
    &&& s.classic_external <= s.classic_records
    &&& s.chain_page_straddling_words <= s.chain_records
    &&& forall|k: int| 0 <= k < 4 ==> #[trigger] s.chain_cache_levels[k] <= s.chain_records
    &&& s.authenticated_words <= s.chain_records
    &&& s.primary_pointer_targets_covered <= s.chain_records
    &&& s.file_backed_write_records <= records
    &&& s.executable_member_write_records + s.kext_member_write_records + s.both_member_write_records
        + s.outer_only_write_records == records
    &&& s.page_starts_visited <= page_limit
    &&& s.chain_starts <= s.page_starts_visited
    &&& s.chains_terminated <= s.chain_starts
    &&& s.multi_start_pages <= s.page_starts_visited
}

impl<'a> Audit<'a> {
    spec fn wf(&self) -> bool {
        &&& self.limits.records <= MAX_AUDIT_RECORDS
        &&& self.limits.issues <= MAX_AUDIT_ISSUES
        &&& self.limits.page_starts <= MAX_AUDIT_PAGE_STARTS
        &&& self.out.records@.len() <= self.limits.records
        &&& self.out.issues@.len() <= self.limits.issues
        &&& summary_ok(self.out.summary, self.out.records@.len() as int, self.out.issues@.len() as int, self.limits.page_starts as int)
        &&& self.out.summary.authenticated_words == authenticated_count(self.out.records@)
        &&& forall|i: int| 0 <= i < self.outer@.len() ==> mapping_ok(#[trigger] self.outer@[i])
        &&& forall|i: int| 0 <= i < self.out.records@.len() ==> record_ok(#[trigger] self.out.records@[i])
    }

    fn issue(&mut self, code: IssueCode, image: usize, record: Option<usize>, related: Option<usize>) -> (r: Result<(), AuditError>)
        requires
            old(self).wf(),
        ensures
            final(self).wf(),
            same_walk(*old(self), *final(self)),
            final(self).out.records == old(self).out.records,
            final(self).out.summary == old(self).out.summary,
            r is Ok <==> old(self).out.issues@.len() < old(self).limits.issues,
            r is Ok ==> final(self).out.issues@ == old(self).out.issues@.push(
                (AuditIssue { code, image_index: image, record_index: record, related_record_index: related }),
            ),
            r is Err ==> final(self).out.issues@ == old(self).out.issues@,
    {
        push_bounded(
            &mut self.out.issues,
            AuditIssue { code, image_index: image, record_index: record, related_record_index: related },
            self.limits.issues,
        )?;
        Ok(())
    }

    fn page_start(&mut self) -> (r: Result<(), AuditError>)
        requires
            old(self).wf(),
        ensures
            final(self).wf(),
            same_walk(*old(self), *final(self)),
            final(self).out.records == old(self).out.records,
            final(self).out.issues == old(self).out.issues,
            r is Ok ==> final(self).out.summary.page_starts_visited == old(self).out.summary.page_starts_visited + 1,
            r is Ok ==> final(self).out.summary.chain_starts == old(self).out.summary.chain_starts,
            r is Ok ==> final(self).out.summary.multi_start_pages == old(self).out.summary.multi_start_pages,
            r is Ok ==> final(self).out.summary == (AuditSummary { page_starts_visited: final(self).out.summary.page_starts_visited, ..old(self).out.summary }),
            r is Ok <==> old(self).out.summary.page_starts_visited < old(self).limits.page_starts,
            r is Err ==> final(self).out.summary == old(self).out.summary,
    {
        if self.out.summary.page_starts_visited >= self.limits.page_starts {
            return Err(AuditError::LimitExceeded);
        }
        self.out.summary.page_starts_visited = self.out.summary.page_starts_visited + 1;
        Ok(())
    }

    fn member_overlap(&self, address: Option<u64>, width: u8) -> (r: MemberOverlap)
        ensures
            r == overlap_class(self.executable@, self.kext@, address, width),
    {
        let start = match address {
            Some(s) => s,
            None => return MemberOverlap::OuterOnly,
        };
        let end = match start.checked_add(width as u64) {
            Some(e) => e,
            None => return MemberOverlap::OuterOnly,
        };
        let in_executable = intersects(&self.executable, start, end);
        let in_kext = intersects(&self.kext, start, end);
        if in_executable && in_kext {
            MemberOverlap::Both
        } else if in_executable {
            MemberOverlap::ExecutableMember
        } else if in_kext {
            MemberOverlap::KextMember
        } else {
            MemberOverlap::OuterOnly
        }
    }

    /// Appends a record and counts it: its mechanism, file backing and
    /// member-overlap class.
    fn record(&mut self, record: AuditRecord) -> (r: Result<usize, AuditError>)
        requires
            old(self).wf(),
            record_ok(record),
        ensures
            final(self).wf(),
            same_walk(*old(self), *final(self)),
            final(self).out.issues == old(self).out.issues,
            kind_counts_unchanged(old(self).out.summary, final(self).out.summary),
            r is Ok ==> final(self).out.summary.authenticated_words == old(self).out.summary.authenticated_words + if authenticated_record(record) {
                1int
            } else {
                0int
            },
            r is Err ==> final(self).out.summary == old(self).out.summary,
            r is Ok <==> old(self).out.records@.len() < old(self).limits.records,
            r is Err ==> final(self).out.records == old(self).out.records,
            r matches Ok(i) ==> {
                &&& i == old(self).out.records@.len()
                &&& final(self).out.records@ == old(self).out.records@.push(record)
                &&& (record.detail is Chain11 ==> final(self).out.summary.chain_records == old(self).out.summary.chain_records + 1
                    && final(self).out.summary.classic_records == old(self).out.summary.classic_records)
                &&& (record.detail is Classic ==> final(self).out.summary.classic_records == old(self).out.summary.classic_records + 1
                    && final(self).out.summary.chain_records == old(self).out.summary.chain_records)
            },
    {
        if self.out.records.len() >= self.limits.records {
            return Err(AuditError::LimitExceeded);
        }
        if record.write_file_offset.is_some() {
            self.out.summary.file_backed_write_records = self.out.summary.file_backed_write_records + 1;
        }
        match record.member_overlap {
            MemberOverlap::ExecutableMember => {
                self.out.summary.executable_member_write_records = self.out.summary.executable_member_write_records + 1;
            },
            MemberOverlap::KextMember => {
                self.out.summary.kext_member_write_records = self.out.summary.kext_member_write_records + 1;
            },
            MemberOverlap::Both => {
                self.out.summary.both_member_write_records = self.out.summary.both_member_write_records + 1;
            },
            MemberOverlap::OuterOnly => {
                self.out.summary.outer_only_write_records = self.out.summary.outer_only_write_records + 1;
            },
        }
        match record.detail {
            RecordDetail::Classic { .. } => {
                self.out.summary.classic_records = self.out.summary.classic_records + 1;
            },
            RecordDetail::Chain11 { authenticated, .. } => {
                self.out.summary.chain_records = self.out.summary.chain_records + 1;
                if authenticated {
                    self.out.summary.authenticated_words = self.out.summary.authenticated_words + 1;
                }
            },
        }
        let index = self.out.records.len();
        let ghost before = self.out.records@;
        self.out.records.push(record);
        assert(self.out.records@.drop_last() =~= before);
        Ok(index)
    }
}

/// A chained-fixup record of an authenticated pointer word (bit 63 set).
pub open spec fn authenticated_record(r: AuditRecord) -> bool {
    r.detail matches RecordDetail::Chain11 { authenticated, .. } && authenticated
}

/// How many of `records` are chained-fixup records of authenticated pointer words.
pub open spec fn authenticated_count(records: Seq<AuditRecord>) -> int
    decreases records.len(),
{
    if records.len() == 0 {
        0
    } else {
        authenticated_count(records.drop_last()) + if authenticated_record(records.last()) {
            1int
        } else {
            0int
        }
    }
}

/// A write of 1, 2, 4 or 8 bytes whose file backing implies an address.
pub open spec fn record_ok(r: AuditRecord) -> bool {
    &&& (r.width == 1 || r.width == 2 || r.width == 4 || r.width == 8)
    &&& (r.write_file_offset is Some ==> r.write_address is Some)
}

/// The walk's inputs are unchanged by a step.
spec fn same_walk(a: Audit, b: Audit) -> bool {
    &&& b.source == a.source
    &&& b.limits == a.limits
    &&& b.outer == a.outer
    &&& b.executable == a.executable
    &&& b.kext == a.kext
    &&& b.out.primary_base == a.out.primary_base
}

/// The counts of classic and chain details, and of page walks, are unchanged.
spec fn kind_counts_unchanged(a: AuditSummary, b: AuditSummary) -> bool {
    &&& b.classic_negative_displacements == a.classic_negative_displacements
    &&& b.classic_types == a.classic_types
    &&& b.classic_width_exponents == a.classic_width_exponents
    &&& b.classic_pc_relative == a.classic_pc_relative
    &&& b.classic_external == a.classic_external
    &&& b.chain_starts == a.chain_starts
    &&& b.chains_terminated == a.chains_terminated
    &&& b.chain_page_straddling_words == a.chain_page_straddling_words
    &&& b.page_starts_visited == a.page_starts_visited
    &&& b.multi_start_pages == a.multi_start_pages
    &&& b.chain_cache_levels == a.chain_cache_levels
    &&& b.primary_pointer_targets_covered == a.primary_pointer_targets_covered
    &&& b.issue_counts == a.issue_counts
}

/// The index past the run of ranges from `i` on that start below `end`.
pub open spec fn run_below(ranges: Seq<(u64, u64)>, end: u64, i: int) -> int
    decreases ranges.len() - i,
{
    if 0 <= i < ranges.len() && ranges[i].0 < end {
        run_below(ranges, end, i + 1)
    } else {
        i
    }
}

/// Whether the last range of the leading run that starts below `end` reaches past `start`.
pub open spec fn meets(ranges: Seq<(u64, u64)>, start: u64, end: u64) -> bool {
    let n = run_below(ranges, end, 0);
    n > 0 && ranges[n - 1].1 > start
}

/// Which members' ranges a write of `width` bytes at `address` meets.
pub open spec fn overlap_class(executable: Seq<(u64, u64)>, kext: Seq<(u64, u64)>, address: Option<u64>, width: u8) -> MemberOverlap {
    match address {
        None => MemberOverlap::OuterOnly,
        Some(s) => if s + width > u64::MAX {
            MemberOverlap::OuterOnly
        } else {
            let x = meets(executable, s, (s + width) as u64);
            let k = meets(kext, s, (s + width) as u64);
            if x && k {
                MemberOverlap::Both
            } else if x {
                MemberOverlap::ExecutableMember
            } else if k {
                MemberOverlap::KextMember
            } else {
                MemberOverlap::OuterOnly
            }
        },
    }
}

/// Whether `[start, end)` meets one of the merged, ascending ranges.
fn intersects(ranges: &Vec<(u64, u64)>, start: u64, end: u64) -> (r: bool)
    ensures
        r == meets(ranges@, start, end),
{
    let mut n: usize = 0;
    while n < ranges.len() && ranges[n].0 < end
        invariant
            n <= ranges@.len(),
            run_below(ranges@, end, 0) == run_below(ranges@, end, n as int),
        decreases ranges@.len() - n,
    {
        n = n + 1;
    }
    assert(run_below(ranges@, end, n as int) == n);
    n != 0 && ranges[n - 1].1 > start
}

/// `base` moved by a signed displacement, if it stays in range.
fn offset_by(base: u64, displacement: i32) -> (r: Option<u64>)
    ensures
        r matches Some(v) ==> v == base + displacement,
        r is None ==> base + displacement < 0 || base + displacement > u64::MAX,
{
    if displacement >= 0 {
        base.checked_add(displacement as u64)
    } else {
        let magnitude = (-(displacement as i64)) as u64;
        base.checked_sub(magnitude)
    }
}

/// The write's end lies outside a section of `size` bytes.
pub open spec fn outside_section(displacement: i32, width: int, size: u64) -> bool {
    displacement < 0 || displacement + width > size
}

/// `code` once where `raised` holds.
pub open spec fn code_if(raised: bool, code: IssueCode) -> Seq<IssueCode> {
    if raised {
        seq![code]
    } else {
        seq![]
    }
}

/// The issues of one classic record, in the audit's order.
pub open spec fn classic_issue_codes(
    kind: u8,
    length: u8,
    pc: bool,
    external: bool,
    table: ClassicTable,
    no_base: bool,
    no_address: bool,
    displacement: i32,
    width: u8,
    section_size: Option<u64>,
    no_file: bool,
) -> Seq<IssueCode> {
    code_if(kind != 0, IssueCode::UnsupportedClassicType) + code_if(length < 2, IssueCode::UnsupportedClassicWidth)
        + code_if(pc, IssueCode::UnsupportedPcRelative) + code_if(
        external || table == ClassicTable::ExternalDynamic,
        IssueCode::UnsupportedExternal,
    ) + code_if(no_base, IssueCode::MissingClassicBase) + code_if(
        !no_base && no_address,
        IssueCode::WriteAddressOverflow,
    ) + code_if(table == ClassicTable::Section && displacement < 0, IssueCode::NegativeSectionDisplacement)
        + code_if(
        section_size matches Some(size) && outside_section(displacement, width as int, size),
        IssueCode::WriteOutsideSection,
    ) + code_if(no_file, IssueCode::WriteOutsideFileMapping)
}

/// The issues raised for record `index` of image `image`, one per code.
pub open spec fn record_issues(codes: Seq<IssueCode>, image: usize, index: usize) -> Seq<AuditIssue> {
    codes.map_values(|c: IssueCode| AuditIssue { code: c, image_index: image, record_index: Some(index), related_record_index: None })
}

/// The issues of two runs of codes, one after the other.
proof fn lemma_record_issues_append(codes: Seq<IssueCode>, more: Seq<IssueCode>, image: usize, index: usize)
    ensures
        record_issues(codes + more, image, index) == record_issues(codes, image, index) + record_issues(
            more,
            image,
            index,
        ),
        record_issues(codes, image, index).len() == codes.len(),
{
    assert(record_issues(codes + more, image, index) =~= record_issues(codes, image, index) + record_issues(
        more,
        image,
        index,
    ));
}

impl<'a> Audit<'a> {
    /// The file offset of a classic write, where both its image's and the
    /// collection's mappings back it at the same offset.
    fn classic_file(&self, maps: &Vec<Mapping>, address: Option<u64>, width: u8) -> (r: Option<u64>)
        requires
            self.wf(),
            forall|i: int| 0 <= i < maps@.len() ==> mapping_ok(#[trigger] maps@[i]),
        ensures
            r is Some ==> address is Some,
            r == match address {
                None => None,
                Some(a) => match (file_location_spec(maps@, a, width as u64), file_location_spec(self.outer@, a, width as u64)) {
                    (Some(x), Some(y)) => if x == y {
                        Some(x)
                    } else {
                        None
                    },
                    _ => None,
                },
            },
    {
        let a = address?;
        let off = file_location(maps, a, width as u64)?;
        let outer_off = file_location(&self.outer, a, width as u64)?;
        if outer_off == off {
            Some(off)
        } else {
            None
        }
    }

    /// Raises `code` for record `index` where `raised` holds.
    fn raise_if(&mut self, raised: bool, code: IssueCode, image_index: usize, index: usize) -> (r: Result<(), AuditError>)
        requires
            old(self).wf(),
        ensures
            final(self).wf(),
            same_walk(*old(self), *final(self)),
            final(self).out.records == old(self).out.records,
            final(self).out.summary == old(self).out.summary,
            r is Ok <==> !raised || old(self).out.issues@.len() < old(self).limits.issues,
            r is Ok ==> final(self).out.issues@ == old(self).out.issues@ + record_issues(code_if(raised, code), image_index, index),
    {
        proof {
            assert(record_issues(code_if(raised, code), image_index, index) =~= if raised {
                seq![AuditIssue { code, image_index, record_index: Some(index), related_record_index: None }]
            } else {
                Seq::<AuditIssue>::empty()
            });
        }
        if raised {
            self.issue(code, image_index, Some(index), None)?;
        }
        proof {
            assert(self.out.issues@ =~= old(self).out.issues@ + record_issues(code_if(raised, code), image_index, index));
        }
        Ok(())
    }

    /// Raises the issues of one classic record, in the audit's order.
    #[verifier::spinoff_prover]
    #[verifier::rlimit(100)]
    fn classic_issues(
        &mut self,
        image_index: usize,
        index: usize,
        kind: u8,
        length: u8,
        pc: bool,
        external: bool,
        table: ClassicTable,
        no_base: bool,
        no_address: bool,
        displacement: i32,
        width: u8,
        section_size: Option<u64>,
        no_file: bool,
    ) -> (r: Result<(), AuditError>)
        requires
            old(self).wf(),
        ensures
            final(self).wf(),
            same_walk(*old(self), *final(self)),
            final(self).out.records == old(self).out.records,
            final(self).out.summary == old(self).out.summary,
            r is Ok <==> old(self).out.issues@.len() + classic_issue_codes(kind, length, pc, external, table,
                no_base, no_address, displacement, width, section_size, no_file).len() <= old(self).limits.issues,
            r is Ok ==> final(self).out.issues@ == old(self).out.issues@ + record_issues(
                classic_issue_codes(kind, length, pc, external, table, no_base, no_address, displacement,
                width, section_size, no_file),
                image_index,
                index,
            ),
    {
        let ghost start = self.out.issues@;
        let outside = match section_size {
            Some(size) => displacement < 0 || match (displacement as u64).checked_add(width as u64) {
                Some(end) => end > size,
                None => true,
            },
            None => false,
        };
        let ghost codes = classic_issue_codes(kind, length, pc, external, table, no_base, no_address,
            displacement, width, section_size, no_file);
        let ghost d1 = code_if(kind != 0, IssueCode::UnsupportedClassicType);
        let ghost d2 = d1 + code_if(length < 2, IssueCode::UnsupportedClassicWidth);
        let ghost d3 = d2 + code_if(pc, IssueCode::UnsupportedPcRelative);
        let ghost d4 = d3 + code_if(external || table == ClassicTable::ExternalDynamic, IssueCode::UnsupportedExternal);
        let ghost d5 = d4 + code_if(no_base, IssueCode::MissingClassicBase);
        let ghost d6 = d5 + code_if(!no_base && no_address, IssueCode::WriteAddressOverflow);
        let ghost d7 = d6 + code_if(table == ClassicTable::Section && displacement < 0, IssueCode::NegativeSectionDisplacement);
        let ghost d8 = d7 + code_if(outside, IssueCode::WriteOutsideSection);
        proof {
            assert(outside == (section_size matches Some(size) && outside_section(displacement, width as int, size)));
            assert(codes == d8 + code_if(no_file, IssueCode::WriteOutsideFileMapping));
            lemma_record_issues_append(Seq::empty(), d1, image_index, index);
            assert(Seq::<IssueCode>::empty() + d1 =~= d1);
            assert(record_issues(Seq::empty(), image_index, index) =~= Seq::<AuditIssue>::empty());
        }
        self.step(Ghost(start), Ghost(Seq::empty()), kind != 0, IssueCode::UnsupportedClassicType, image_index, index)?;
        self.step(Ghost(start), Ghost(d1), length < 2, IssueCode::UnsupportedClassicWidth, image_index, index)?;
        self.step(Ghost(start), Ghost(d2), pc, IssueCode::UnsupportedPcRelative, image_index, index)?;
        self.step(Ghost(start), Ghost(d3), external || table == ClassicTable::ExternalDynamic,
            IssueCode::UnsupportedExternal, image_index, index)?;
        self.step(Ghost(start), Ghost(d4), no_base, IssueCode::MissingClassicBase, image_index, index)?;
        self.step(Ghost(start), Ghost(d5), !no_base && no_address, IssueCode::WriteAddressOverflow, image_index,
            index)?;
        self.step(Ghost(start), Ghost(d6), table == ClassicTable::Section && displacement < 0,
            IssueCode::NegativeSectionDisplacement, image_index, index)?;
        self.step(Ghost(start), Ghost(d7), outside, IssueCode::WriteOutsideSection, image_index, index)?;
        self.step(Ghost(start), Ghost(d8), no_file, IssueCode::WriteOutsideFileMapping, image_index, index)?;
        Ok(())
    }

    /// One more conditional issue after the issues of `done` were raised since `start`.
    fn step(
        &mut self,
        Ghost(start): Ghost<Seq<AuditIssue>>,
        Ghost(done): Ghost<Seq<IssueCode>>,
        raised: bool,
        code: IssueCode,
        image_index: usize,
        index: usize,
    ) -> (r: Result<(), AuditError>)
        requires
            old(self).wf(),
            old(self).out.issues@ == start + record_issues(done, image_index, index),
        ensures
            final(self).wf(),
            same_walk(*old(self), *final(self)),
            final(self).out.records == old(self).out.records,
            final(self).out.summary == old(self).out.summary,
            r is Ok <==> !raised || start.len() + done.len() < old(self).limits.issues,
            r is Ok ==> final(self).out.issues@ == start + record_issues(done + code_if(raised, code), image_index, index),
            (done + code_if(raised, code)).len() == done.len() + (if raised { 1int } else { 0int }),
    {
        proof {
            lemma_record_issues_append(done, code_if(raised, code), image_index, index);
        }
        self.raise_if(raised, code, image_index, index)?;
        proof {
            assert(self.out.issues@ =~= start + record_issues(done + code_if(raised, code), image_index, index));
        }
        Ok(())
    }

    #[verifier::loop_isolation(false)]
    fn classic(
        &mut self,
        image_index: usize,
        section_size: Option<u64>,
        maps: &Vec<Mapping>,
        table: ClassicTable,
        range: &FileRange,
        base: Option<u64>,
    ) -> (r: Result<(), AuditError>)
        requires
            old(self).wf(),
            forall|i: int| 0 <= i < maps@.len() ==> mapping_ok(#[trigger] maps@[i]),
        ensures
            final(self).wf(),
            same_walk(*old(self), *final(self)),
            final(self).out.summary.chain_starts == old(self).out.summary.chain_starts,
            final(self).out.summary.page_starts_visited == old(self).out.summary.page_starts_visited,
            final(self).out.summary.multi_start_pages == old(self).out.summary.multi_start_pages,
            final(self).out.summary.chains_terminated == old(self).out.summary.chains_terminated,
    {
        let mut at: u64 = 0;
        while at < range.size
            invariant
                self.wf(),
                same_walk(*old(self), *self),
                self.out.summary.chain_starts == old(self).out.summary.chain_starts,
                self.out.summary.page_starts_visited == old(self).out.summary.page_starts_visited,
                self.out.summary.multi_start_pages == old(self).out.summary.multi_start_pages,
                self.out.summary.chains_terminated == old(self).out.summary.chains_terminated,
            decreases range.size - at,
        {
            let offset = sum_u64(range.offset, at)?;
            let displacement = u32_at(self.source, offset)? as i32;
            let info = u32_at(self.source, sum_u64(offset, 4)?)?;
            let kind = (info >> 28u32) as u8;
            let length = ((info >> 25u32) & 3) as u8;
            assert((info >> 28u32) < 16 && ((info >> 25u32) & 3) < 4) by (bit_vector);
            let width: u8 = if length == 0 {
                1
            } else if length == 1 {
                2
            } else if length == 2 {
                4
            } else {
                8
            };
            let pc = info & 0x0100_0000 != 0;
            let external = info & 0x0800_0000 != 0;
            let address = match base {
                Some(b) => offset_by(b, displacement),
                None => None,
            };
            let file = self.classic_file(maps, address, width);
            let stored_value = match file {
                Some(off) => Some(word_at(self.source, off, width)?),
                None => None,
            };
            let member_overlap = self.member_overlap(address, width);
            let index = self.record(AuditRecord {
                image_index,
                source_record_offset: offset,
                write_address: address,
                write_file_offset: file,
                width,
                member_overlap,
                detail: RecordDetail::Classic {
                    table,
                    displacement,
                    symbol_ordinal: info & 0xff_ffff,
                    relocation_type: kind,
                    length_exponent: length,
                    pc_relative: pc,
                    external,
                    stored_value,
                },
            })?;
            let k = kind as usize;
            let l = length as usize;
            self.out.summary.classic_types[k] = self.out.summary.classic_types[k] + 1;
            self.out.summary.classic_width_exponents[l] = self.out.summary.classic_width_exponents[l] + 1;
            if displacement < 0 {
                self.out.summary.classic_negative_displacements = self.out.summary.classic_negative_displacements + 1;
            }
            if pc {
                self.out.summary.classic_pc_relative = self.out.summary.classic_pc_relative + 1;
            }
            if external {
                self.out.summary.classic_external = self.out.summary.classic_external + 1;
            }
            self.classic_issues(image_index, index, kind, length, pc, external, table, base.is_none(),
                address.is_none(), displacement, width, section_size, file.is_none())?;
            if range.size - at <= 8 {
                break;
            }
            at = at + 8;
        }
        Ok(())
    }

    #[verifier::loop_isolation(false)]
    fn chain(
        &mut self,
        image_index: usize,
        segment_index: usize,
        page_index: usize,
        segment: &SegmentMetadata,
        page_size: u16,
        start: u16,
    ) -> (r: Result<(), AuditError>)
        requires
            old(self).wf(),
            old(self).out.summary.chain_starts < old(self).out.summary.page_starts_visited,
        ensures
            final(self).wf(),
            same_walk(*old(self), *final(self)),
            final(self).out.summary.page_starts_visited == old(self).out.summary.page_starts_visited,
            final(self).out.summary.multi_start_pages == old(self).out.summary.multi_start_pages,
    {
        self.out.summary.chain_starts = self.out.summary.chain_starts + 1;
        let page_offset = match (page_index as u64).checked_mul(page_size as u64) {
            Some(v) => v,
            None => return Err(AuditError::Overflow),
        };
        let ghost terminated = self.out.summary.chains_terminated;
        let mut in_page: u64 = start as u64;
        loop
            invariant
                self.wf(),
                same_walk(*old(self), *self),
                self.out.summary.page_starts_visited == old(self).out.summary.page_starts_visited,
                self.out.summary.multi_start_pages == old(self).out.summary.multi_start_pages,
                self.out.summary.chains_terminated == terminated,
                terminated < self.out.summary.chain_starts,
                in_page < page_size + 0x10000,
            decreases page_size + 0x10000 - in_page,
        {
            // The public KC producer groups fixup starts by page. A terminal
            // unaligned word may straddle it; its full segment/file bounds
            // remain mandatory below. Next starts cannot leave this page.
            if in_page >= page_size as u64 {
                self.issue(IssueCode::ChainOutsidePage, image_index, None, None)?;
                break;
            }
            let segment_offset = sum_u64(page_offset, in_page)?;
            let outside = match segment_offset.checked_add(8) {
                Some(end) => end > segment.file.size || end > segment.memory_size,
                None => true,
            };
            if outside {
                self.issue(IssueCode::ChainOutsideFileMapping, image_index, None, None)?;
                break;
            }
            let address = sum_u64(segment.address, segment_offset)?;
            let file = sum_u64(segment.file.offset, segment_offset)?;
            if file_location(&self.outer, address, 8) != Some(file) {
                self.issue(IssueCode::ChainOutsideFileMapping, image_index, None, None)?;
                break;
            }
            let word = word_at(self.source, file, 8)?;
            let target = (word & 0x3fff_ffff) as u32;
            let cache = ((word >> 30u64) & 3) as u8;
            let auth = (word >> 63u64) != 0;
            let next = ((word >> 51u64) & 0xfff) as u16;
            assert(((word >> 30u64) & 3) < 4 && ((word >> 51u64) & 0xfff) < 0x1000) by (bit_vector);
            let primary = self.out.primary_base;
            let resolved = if cache == 0 && primary != 0 {
                primary.checked_add(target as u64)
            } else {
                None
            };
            let covered = match resolved {
                Some(a) => containing(&self.outer, a, 1).is_some(),
                None => false,
            };
            let member_overlap = self.member_overlap(Some(address), 8);
            let index = self.record(AuditRecord {
                image_index,
                source_record_offset: file,
                write_address: Some(address),
                write_file_offset: Some(file),
                width: 8,
                member_overlap,
                detail: RecordDetail::Chain11 {
                    segment_index,
                    page_index,
                    target_offset: target,
                    cache_level: cache,
                    diversity: ((word >> 32u64) & 0xffff) as u16,
                    address_diversity: word & 0x0001_0000_0000_0000 != 0,
                    key: ((word >> 49u64) & 3) as u8,
                    next,
                    authenticated: auth,
                    resolved_target: resolved,
                    target_in_primary_mapping: covered,
                },
            })?;
            if in_page + 8 > page_size as u64 {
                self.out.summary.chain_page_straddling_words = self.out.summary.chain_page_straddling_words + 1;
            }
            let c = cache as usize;
            self.out.summary.chain_cache_levels[c] = self.out.summary.chain_cache_levels[c] + 1;
            if covered {
                self.out.summary.primary_pointer_targets_covered = self.out.summary.primary_pointer_targets_covered + 1;
            }
            if cache != 0 || primary == 0 {
                self.issue(IssueCode::MissingCacheBase, image_index, Some(index), None)?;
            } else if resolved.is_none() {
                self.issue(IssueCode::PointerTargetOverflow, image_index, Some(index), None)?;
            } else if !covered {
                self.issue(IssueCode::PointerTargetOutsideMappings, image_index, Some(index), None)?;
            }
            if auth {
                self.issue(IssueCode::UnsupportedAuthentication, image_index, Some(index), None)?;
            }
            if next == 0 {
                self.out.summary.chains_terminated = self.out.summary.chains_terminated + 1;
                break;
            }
            // Byte stride is positive, never scaled by four/eight or wrapped.
            in_page = in_page + next as u64;
        }
        Ok(())
    }

    #[verifier::loop_isolation(false)]
    fn image(&mut self, index: usize, image: &ImageMetadata) -> (r: Result<(), AuditError>)
        requires
            old(self).wf(),
        ensures
            final(self).wf(),
            same_walk(*old(self), *final(self)),
    {
        let maps = mappings(&image.segments)?;
        let base: Option<u64> = if image.file_type == 11 {
            if image.segments.len() > 0 {
                Some(image.segments[0].address)
            } else {
                None
            }
        } else {
            let mut found: Option<u64> = None;
            let mut i: usize = 0;
            while i < image.segments.len()
                decreases image.segments@.len() - i,
            {
                if image.segments[i].initial_protection & 2 != 0 {
                    found = Some(image.segments[i].address);
                    break;
                }
                i = i + 1;
            }
            found
        };
        if let Some(reloc) = &image.relocations {
            self.classic(index, None, &maps, ClassicTable::LocalDynamic, &reloc.local, base)?;
            self.classic(index, None, &maps, ClassicTable::ExternalDynamic, &reloc.external, base)?;
        }
        let mut s: usize = 0;
        while s < image.segments.len()
            invariant
                self.wf(),
                same_walk(*old(self), *self),
            decreases image.segments@.len() - s,
        {
            let sections = &image.segments[s].sections;
            let mut c: usize = 0;
            while c < sections.len()
                invariant
                    self.wf(),
                    same_walk(*old(self), *self),
                decreases sections@.len() - c,
            {
                let section = sections[c];
                self.classic(index, Some(section.size), &maps, ClassicTable::Section, &section.relocations, Some(section.address))?;
                c = c + 1;
            }
            s = s + 1;
        }
        let fixups = match &image.chained_fixups {
            Some(f) => f,
            None => return Ok(()),
        };
        if fixups.imports_count != 0 {
            self.issue(IssueCode::UnsupportedImports, index, None, None)?;
        }
        if fixups.symbols_format != 0 {
            self.issue(IssueCode::UnsupportedCompressedSymbols, index, None, None)?;
        }
        let starts = sum_u64(fixups.file.offset, u32_at(self.source, sum_u64(fixups.file.offset, 4)?)? as u64)?;
        let mut k: usize = 0;
        while k < fixups.segments.len()
            invariant
                self.wf(),
                same_walk(*old(self), *self),
            decreases fixups.segments@.len() - k,
        {
            let seg_info = fixups.segments[k];
            if seg_info.pointer_format != 11 {
                self.issue(IssueCode::UnsupportedPointerFormat, index, None, None)?;
            } else {
                if seg_info.segment_index >= image.segments.len() {
                    return Err(AuditError::InvalidMetadata);
                }
                let segment = &image.segments[seg_info.segment_index];
                // The immutable inspector has checked modulo correspondence. Use
                // the validated absolute segment VA for every chain location.
                if seg_info.segment_offset != segment.address.wrapping_sub(image.header_address) {
                    return Err(AuditError::InvalidMetadata);
                }
                let scaled = match (seg_info.segment_index as u64).checked_mul(4) {
                    Some(v) => v,
                    None => return Err(AuditError::Overflow),
                };
                let slot = sum_u64(starts, sum_u64(4, scaled)?)?;
                let offset = u32_at(self.source, slot)?;
                let info = sum_u64(starts, offset as u64)?;
                let info_end = sum_u64(info, u32_at(self.source, info)? as u64)?;
                let mut page: usize = 0;
                while page < seg_info.page_count as usize
                    invariant
                        self.wf(),
                        same_walk(*old(self), *self),
                        self.out.summary.chain_starts <= self.out.summary.page_starts_visited,
                    decreases seg_info.page_count - page,
                {
                    self.page_start()?;
                    let first = u16_at(self.source, sum_u64(info, 22 + page as u64 * 2)?)?;
                    if first != 0xffff {
                        if first & 0x8000 == 0 {
                            self.chain(index, seg_info.segment_index, page, segment, seg_info.page_size, first)?;
                        } else {
                            self.out.summary.multi_start_pages = self.out.summary.multi_start_pages + 1;
                            self.issue(IssueCode::UnsupportedMultiStartConsumer, index, None, None)?;
                            let mut at = sum_u64(info, 22 + (first & 0x7fff) as u64 * 2)?;
                            loop
                                invariant
                                    self.wf(),
                                    same_walk(*old(self), *self),
                                decreases self.limits.page_starts - self.out.summary.page_starts_visited,
                            {
                                self.page_start()?;
                                if sum_u64(at, 2)? > info_end {
                                    return Err(AuditError::InvalidMetadata);
                                }
                                let start = u16_at(self.source, at)?;
                                self.chain(index, seg_info.segment_index, page, segment, seg_info.page_size, start & 0x7fff)?;
                                if start & 0x8000 != 0 {
                                    break;
                                }
                                at = sum_u64(at, 2)?;
                            }
                        }
                    }
                    page = page + 1;
                }
            }
            k = k + 1;
        }
        Ok(())
    }

    #[verifier::loop_isolation(false)]
    fn overlaps(&mut self) -> (r: Result<(), AuditError>)
        requires
            old(self).wf(),
        ensures
            final(self).wf(),
            same_walk(*old(self), *final(self)),
    {
        let mut ordered: Vec<(u64, u64)> = Vec::new();
        let n = self.out.records.len();
        let mut i: usize = 0;
        while i < n
            invariant
                n == self.out.records@.len(),
                forall|k: int| 0 <= k < ordered@.len() ==> (#[trigger] ordered@[k]).1 < n,
            decreases n - i,
        {
            let r = self.out.records[i];
            if r.write_file_offset.is_some() {
                if let Some(address) = r.write_address {
                    ordered.push((address, i as u64));
                }
            }
            i = i + 1;
        }
        let ghost unsorted = ordered@;
        let ordered = sort_pairs(ordered);
        let mut furthest_classic: Option<(u64, usize)> = None;
        let mut furthest_chain: Option<(u64, usize)> = None;
        let mut last_chain: Option<(u64, usize)> = None;
        let mut p: usize = 0;
        while p < ordered.len()
            invariant
                self.wf(),
                same_walk(*old(self), *self),
                n == self.out.records@.len(),
                forall|k: int| 0 <= k < ordered@.len() ==> unsorted.contains(#[trigger] ordered@[k]),
                forall|k: int| 0 <= k < unsorted.len() ==> (#[trigger] unsorted[k]).1 < n,
            decreases ordered@.len() - p,
        {
            let (address, index64) = ordered[p];
            assert(unsorted.contains(ordered@[p as int]));
            let index = index64 as usize;
            let r = self.out.records[index];
            let end = sum_u64(address, r.width as u64)?;
            let image = r.image_index;
            let is_chain = match r.detail {
                RecordDetail::Chain11 { .. } => true,
                RecordDetail::Classic { .. } => false,
            };
            if is_chain {
                if let Some((prior, other)) = last_chain {
                    if prior == address {
                        self.issue(IssueCode::DuplicateChainVisit, image, Some(index), Some(other))?;
                    }
                }
                last_chain = Some((address, index));
            }
            if let Some((prior_end, other)) = furthest_classic {
                if prior_end > address {
                    let code = if is_chain {
                        IssueCode::CrossMechanismWriteOverlap
                    } else {
                        IssueCode::SameMechanismWriteOverlap
                    };
                    self.issue(code, image, Some(index), Some(other))?;
                }
            }
            if let Some((prior_end, other)) = furthest_chain {
                if prior_end > address {
                    let code = if is_chain {
                        IssueCode::SameMechanismWriteOverlap
                    } else {
                        IssueCode::CrossMechanismWriteOverlap
                    };
                    self.issue(code, image, Some(index), Some(other))?;
                }
            }
            if is_chain {
                let replace = match furthest_chain {
                    None => true,
                    Some((prior_end, _)) => end > prior_end,
                };
                if replace {
                    furthest_chain = Some((end, index));
                }
            } else {
                let replace = match furthest_classic {
                    None => true,
                    Some((prior_end, _)) => end > prior_end,
                };
                if replace {
                    furthest_classic = Some((end, index));
                }
            }
            p = p + 1;
        }
        // Counts are conflicting-record events with one earlier witness per
        // mechanism, not a potentially quadratic count of every overlap pair.
        let mut counts: Vec<IssueCount> = Vec::new();
        let mut q: usize = 0;
        while q < self.out.issues.len()
            invariant
                self.wf(),
                q <= self.out.issues@.len(),
                forall|k: int| 0 <= k < counts@.len() ==> (#[trigger] counts@[k]).count <= q,
            decreases self.out.issues@.len() - q,
        {
            let code = self.out.issues[q].code;
            let mut c: usize = 0;
            while c < counts.len() && counts[c].code != code
                invariant
                    c <= counts@.len(),
                decreases counts@.len() - c,
            {
                c = c + 1;
            }
            if c < counts.len() {
                let updated = IssueCount { code, count: counts[c].count + 1 };
                counts.set(c, updated);
            } else {
                counts.push(IssueCount { code, count: 1 });
            }
            q = q + 1;
        }
        self.out.summary.issue_counts = counts;
        Ok(())
    }
}

/// The memory spans `[address, address + size)` of the segments that occupy memory.
pub open spec fn image_spans(segs: Seq<SegmentMetadata>) -> Seq<(u64, u64)>
    decreases segs.len(),
{
    if segs.len() == 0 {
        seq![]
    } else if segs.last().memory_size != 0 {
        image_spans(segs.drop_last()).push((segs.last().address, (segs.last().address + segs.last().memory_size) as u64))
    } else {
        image_spans(segs.drop_last())
    }
}

/// The memory spans of the members of file type `file_type`, member by member.
pub open spec fn member_spans(members: Seq<FilesetMember>, file_type: u32) -> Seq<(u64, u64)>
    decreases members.len(),
{
    if members.len() == 0 {
        seq![]
    } else if members.last().image.file_type == file_type {
        member_spans(members.drop_last(), file_type) + image_spans(members.last().image.segments@)
    } else {
        member_spans(members.drop_last(), file_type)
    }
}

/// Every segment of such a member that occupies memory ends in range.
pub open spec fn member_spans_fit(members: Seq<FilesetMember>, file_type: u32) -> bool {
    forall|m: int, k: int|
        0 <= m < members.len() && members[m].image.file_type == file_type && 0 <= k
            < members[m].image.segments@.len() && (#[trigger] members[m].image.segments@[k]).memory_size != 0
            ==> members[m].image.segments@[k].address + members[m].image.segments@[k].memory_size <= u64::MAX
}

/// Some span holds address `a`.
pub open spec fn covered(spans: Seq<(u64, u64)>, a: int) -> bool {
    exists|k: int| 0 <= k < spans.len() && (#[trigger] spans[k]).0 <= a < spans[k].1
}

proof fn lemma_image_spans_prefix(segs: Seq<SegmentMetadata>, k: int)
    requires
        0 <= k <= segs.len(),
    ensures
        image_spans(segs.subrange(0, k)).len() <= image_spans(segs).len(),
    decreases segs.len(),
{
    if k < segs.len() {
        assert(segs.drop_last().subrange(0, k) =~= segs.subrange(0, k));
        lemma_image_spans_prefix(segs.drop_last(), k);
    } else {
        assert(segs.subrange(0, k) =~= segs);
    }
}

proof fn lemma_member_spans_prefix(members: Seq<FilesetMember>, file_type: u32, m: int)
    requires
        0 <= m <= members.len(),
    ensures
        member_spans(members.subrange(0, m), file_type).len() <= member_spans(members, file_type).len(),
    decreases members.len(),
{
    if m < members.len() {
        assert(members.drop_last().subrange(0, m) =~= members.subrange(0, m));
        lemma_member_spans_prefix(members.drop_last(), file_type, m);
    } else {
        assert(members.subrange(0, m) =~= members);
    }
}

/// The merged, ascending address ranges of the members of one file type.
#[verifier::loop_isolation(false)]
#[verifier::spinoff_prover]
fn member_ranges(inspection: &KcMetadataInspection, file_type: u32) -> (r: Result<Vec<(u64, u64)>, AuditError>)
    ensures
        r is Ok <==> member_spans_fit(inspection.members@, file_type) && member_spans(inspection.members@, file_type).len()
            <= 4096,
        r matches Ok(v) ==> forall|a: int| covered(v@, a) <==> covered(member_spans(inspection.members@, file_type), a),
        r matches Ok(v) ==> forall|k: int| 0 <= k < v@.len() ==> (#[trigger] v@[k]).0 < v@[k].1,
        r matches Ok(v) ==> forall|k: int, l: int| 0 <= k < l < v@.len() ==> (#[trigger] v@[k]).1 < (#[trigger] v@[l]).0,
{
    let ghost members = inspection.members@;
    let mut ranges: Vec<(u64, u64)> = Vec::new();
    let mut m: usize = 0;
    proof {
        assert(members.subrange(0, 0) =~= Seq::<FilesetMember>::empty());
    }
    while m < inspection.members.len()
        invariant
            members == inspection.members@,
            m <= members.len(),
            ranges@ == member_spans(members.subrange(0, m as int), file_type),
            ranges@.len() <= 4096,
            forall|mm: int, k: int|
                0 <= mm < m && members[mm].image.file_type == file_type && 0 <= k < members[mm].image.segments@.len()
                    && (#[trigger] members[mm].image.segments@[k]).memory_size != 0 ==> members[mm].image.segments@[k].address
                    + members[mm].image.segments@[k].memory_size <= u64::MAX,
        decreases inspection.members@.len() - m,
    {
        let image = &inspection.members[m].image;
        let ghost base = ranges@;
        proof {
            assert(members.subrange(0, m + 1).drop_last() =~= members.subrange(0, m as int));
            assert(members.subrange(0, m + 1).last() == members[m as int]);
            lemma_member_spans_prefix(members, file_type, m + 1);
            lemma_image_spans_prefix(members[m as int].image.segments@, members[m as int].image.segments@.len() as int);
        }
        if image.file_type == file_type {
            let mut s: usize = 0;
            proof {
                assert(image.segments@.subrange(0, 0) =~= Seq::<SegmentMetadata>::empty());
                assert(base + image_spans(image.segments@.subrange(0, 0)) =~= base);
            }
            while s < image.segments.len()
                invariant
                    s <= image.segments@.len(),
                    ranges@ == base + image_spans(image.segments@.subrange(0, s as int)),
                    ranges@.len() <= 4096,
                    forall|k: int| 0 <= k < s && (#[trigger] image.segments@[k]).memory_size != 0 ==> image.segments@[k].address
                        + image.segments@[k].memory_size <= u64::MAX,
                decreases image.segments@.len() - s,
            {
                let seg = &image.segments[s];
                proof {
                    assert(image.segments@.subrange(0, s + 1).drop_last() =~= image.segments@.subrange(0, s as int));
                    assert(image.segments@.subrange(0, s + 1).last() == image.segments@[s as int]);
                    assert(image.segments@.subrange(0, image.segments@.len() as int) =~= image.segments@);
                    lemma_image_spans_prefix(image.segments@, s + 1);
                    assert(members[m as int].image.segments@[s as int] == image.segments@[s as int]);
                }
                if seg.memory_size != 0 {
                    let end = sum_u64(seg.address, seg.memory_size)?;
                    push_bounded(&mut ranges, (seg.address, end), 4096)?;
                }
                proof {
                    assert(ranges@ =~= base + image_spans(image.segments@.subrange(0, s + 1)));
                }
                s = s + 1;
            }
            proof {
                assert(image.segments@.subrange(0, s as int) =~= image.segments@);
            }
        }
        m = m + 1;
    }
    proof {
        assert(members.subrange(0, members.len() as int) =~= members);
        assert(member_spans_fit(members, file_type));
    }
    let ghost unsorted = ranges@;
    proof {
        assert forall|k: int| 0 <= k < unsorted.len() implies (#[trigger] unsorted[k]).0 < unsorted[k].1 by {
            lemma_spans_nonempty(members, file_type, k);
        }
    }
    let ranges = sort_pairs(ranges);
    let ghost place = choose|place: Seq<int>| crate::ranges::places(place, unsorted, ranges@);
    let ghost from = choose|from: Seq<int>| crate::ranges::places(from, ranges@, unsorted);
    proof {
        assert forall|a: int| covered(ranges@, a) <==> covered(unsorted, a) by {
            if covered(ranges@, a) {
                let k = choose|k: int| 0 <= k < ranges@.len() && (#[trigger] ranges@[k]).0 <= a < ranges@[k].1;
                assert(unsorted[from[k]] == ranges@[k]);
            }
            if covered(unsorted, a) {
                let k = choose|k: int| 0 <= k < unsorted.len() && (#[trigger] unsorted[k]).0 <= a < unsorted[k].1;
                assert(ranges@[place[k]] == unsorted[k]);
            }
        }
        assert forall|k: int| 0 <= k < ranges@.len() implies (#[trigger] ranges@[k]).0 < ranges@[k].1 by {
            assert(unsorted[from[k]] == ranges@[k]);
        }
    }
    let mut merged: Vec<(u64, u64)> = Vec::new();
    let mut k: usize = 0;
    while k < ranges.len()
        invariant
            k <= ranges@.len(),
            forall|a: int| covered(merged@, a) <==> covered(ranges@.subrange(0, k as int), a),
            forall|x: int| 0 <= x < merged@.len() ==> (#[trigger] merged@[x]).0 < merged@[x].1,
            forall|x: int, y: int| 0 <= x < y < merged@.len() ==> (#[trigger] merged@[x]).1 < (#[trigger] merged@[y]).0,
            merged@.len() > 0 ==> forall|j: int| k <= j < ranges@.len() ==> merged@.last().0 <= #[trigger] ranges@[j].0,
            merged@.len() == 0 ==> k == 0,
        decreases ranges@.len() - k,
    {
        let (start, end) = ranges[k];
        let n = merged.len();
        let ghost before = merged@;
        let ghost done = ranges@.subrange(0, k as int);
        proof {
            assert(forall|a: int| covered(before, a) <==> covered(done, a));
            assert(ranges@.subrange(0, k + 1) =~= done.push((start, end)));
        }
        if n > 0 && start <= merged[n - 1].1 {
            let last = merged[n - 1];
            let wider = if end > last.1 {
                end
            } else {
                last.1
            };
            merged.set(n - 1, (last.0, wider));
            proof {
                assert forall|a: int| covered(merged@, a) <==> covered(ranges@.subrange(0, k + 1), a) by {
                    let now = ranges@.subrange(0, k + 1);
                    if covered(merged@, a) {
                        let x = choose|x: int| 0 <= x < merged@.len() && (#[trigger] merged@[x]).0 <= a < merged@[x].1;
                        if x < n - 1 {
                            assert(before[x] == merged@[x]);
                            assert(covered(before, a));
                            let j = choose|j: int| 0 <= j < done.len() && (#[trigger] done[j]).0 <= a < done[j].1;
                            assert(now[j] == done[j]);
                        } else if a < last.1 {
                            assert(before[n - 1] == last);
                            assert(covered(before, a));
                            let j = choose|j: int| 0 <= j < done.len() && (#[trigger] done[j]).0 <= a < done[j].1;
                            assert(now[j] == done[j]);
                        } else {
                            assert(now[k as int] == (start, end));
                        }
                    }
                    if covered(now, a) {
                        let j = choose|j: int| 0 <= j < now.len() && (#[trigger] now[j]).0 <= a < now[j].1;
                        if j < k {
                            assert(done[j] == now[j]);
                            assert(covered(done, a));
                            assert(covered(before, a));
                            let x = choose|x: int| 0 <= x < before.len() && (#[trigger] before[x]).0 <= a < before[x].1;
                            if x < n - 1 {
                                assert(merged@[x] == before[x]);
                            } else {
                                assert(merged@[n - 1] == (last.0, wider));
                            }
                        } else {
                            assert(merged@[n - 1] == (last.0, wider));
                        }
                    }
                }
            }
        } else {
            merged.push((start, end));
            proof {
                assert forall|a: int| covered(merged@, a) <==> covered(ranges@.subrange(0, k + 1), a) by {
                    let now = ranges@.subrange(0, k + 1);
                    if covered(merged@, a) {
                        let x = choose|x: int| 0 <= x < merged@.len() && (#[trigger] merged@[x]).0 <= a < merged@[x].1;
                        if x < n {
                            assert(before[x] == merged@[x]);
                            assert(covered(before, a));
                            let j = choose|j: int| 0 <= j < done.len() && (#[trigger] done[j]).0 <= a < done[j].1;
                            assert(now[j] == done[j]);
                        } else {
                            assert(now[k as int] == (start, end));
                        }
                    }
                    if covered(now, a) {
                        let j = choose|j: int| 0 <= j < now.len() && (#[trigger] now[j]).0 <= a < now[j].1;
                        if j < k {
                            assert(done[j] == now[j]);
                            assert(covered(done, a));
                            assert(covered(before, a));
                            let x = choose|x: int| 0 <= x < before.len() && (#[trigger] before[x]).0 <= a < before[x].1;
                            assert(merged@[x] == before[x]);
                        } else {
                            assert(merged@[n as int] == (start, end));
                        }
                    }
                }
            }
        }
        k = k + 1;
    }
    proof {
        assert(ranges@.subrange(0, ranges@.len() as int) =~= ranges@);
    }
    Ok(merged)
}

/// Every span of a member occupies at least one address.
proof fn lemma_spans_nonempty(members: Seq<FilesetMember>, file_type: u32, k: int)
    requires
        member_spans_fit(members, file_type),
        0 <= k < member_spans(members, file_type).len(),
    ensures
        member_spans(members, file_type)[k].0 < member_spans(members, file_type)[k].1,
    decreases members.len(),
{
    let rest = members.drop_last();
    assert(member_spans_fit(rest, file_type)) by {
        assert forall|m: int, j: int|
            0 <= m < rest.len() && rest[m].image.file_type == file_type && 0 <= j < rest[m].image.segments@.len()
                && (#[trigger] rest[m].image.segments@[j]).memory_size != 0 implies rest[m].image.segments@[j].address
            + rest[m].image.segments@[j].memory_size <= u64::MAX by {
            assert(rest[m] == members[m]);
        }
    }
    if members.last().image.file_type == file_type && k >= member_spans(rest, file_type).len() {
        lemma_image_spans_nonempty(members.last().image.segments@, k - member_spans(rest, file_type).len());
    } else if k < member_spans(rest, file_type).len() {
        lemma_spans_nonempty(rest, file_type, k);
    }
}

proof fn lemma_image_spans_nonempty(segs: Seq<SegmentMetadata>, k: int)
    requires
        forall|j: int| 0 <= j < segs.len() && (#[trigger] segs[j]).memory_size != 0 ==> segs[j].address + segs[j].memory_size <= u64::MAX,
        0 <= k < image_spans(segs).len(),
    ensures
        image_spans(segs)[k].0 < image_spans(segs)[k].1,
    decreases segs.len(),
{
    let rest = segs.drop_last();
    if k < image_spans(rest).len() {
        lemma_image_spans_nonempty(rest, k);
    }
}

/// Limits that only tighten the public maxima.
pub open spec fn limits_ok(limits: AuditLimits) -> bool {
    &&& 0 < limits.records <= MAX_AUDIT_RECORDS
    &&& 0 < limits.issues <= MAX_AUDIT_ISSUES
    &&& 0 < limits.page_starts <= MAX_AUDIT_PAGE_STARTS
}

/// What every audit satisfies: its records and issues within the limits,
/// one summary count per record, and well-formed writes.
pub open spec fn audit_ok(a: KcFixupAudit, limits: AuditLimits) -> bool {
    &&& a.spec_records().len() <= limits.records
    &&& a.spec_issues().len() <= limits.issues
    &&& summary_ok(a.spec_summary(), a.spec_records().len() as int, a.spec_issues().len() as int, limits.page_starts as int)
    &&& forall|i: int| 0 <= i < a.spec_records().len() ==> record_ok(#[trigger] a.spec_records()[i])
    &&& a.spec_summary().authenticated_words == authenticated_count(a.spec_records())
}

/// Audit a single primary KC in its linked (unslid) address space. No source
/// write or arena allocation occurs. Missing external caches remain issues.
pub fn audit_kernel_collection(source: &[u8]) -> (r: Result<KcFixupAudit, AuditError>)
    ensures
        r matches Ok(a) ==> audit_ok(a, AuditLimits { records: MAX_AUDIT_RECORDS, issues: MAX_AUDIT_ISSUES, page_starts: MAX_AUDIT_PAGE_STARTS }),
        source@.len() <= crate::kernel_collection::MAX_INPUT_SIZE ==> (crate::kernel_collection::header_error(
            source@,
            0,
            true,
            false,
        ) matches Some(e) ==> r == Err::<KcFixupAudit, AuditError>(AuditError::Metadata(e))),
        source@.len() > crate::kernel_collection::MAX_INPUT_SIZE ==> r == Err::<KcFixupAudit, AuditError>(
            AuditError::Metadata(KcMetadataError::InputTooLarge),
        ),
{
    audit_kernel_collection_with_limits(source, AuditLimits::default())
}

/// Limits may only tighten the public maxima. A resource error never returns a
/// partial-success audit, and all temporary/record allocations are dropped.
pub fn audit_kernel_collection_with_limits(source: &[u8], limits: AuditLimits) -> (r: Result<KcFixupAudit, AuditError>)
    ensures
        !limits_ok(limits) ==> r == Err::<KcFixupAudit, AuditError>(AuditError::InvalidLimits),
        r matches Ok(a) ==> audit_ok(a, limits),
        limits_ok(limits) && source@.len() <= crate::kernel_collection::MAX_INPUT_SIZE ==> (
        crate::kernel_collection::header_error(source@, 0, true, false) matches Some(e) ==> r == Err::<
            KcFixupAudit,
            AuditError,
        >(AuditError::Metadata(e))),
        limits_ok(limits) && source@.len() > crate::kernel_collection::MAX_INPUT_SIZE ==> r == Err::<
            KcFixupAudit,
            AuditError,
        >(AuditError::Metadata(KcMetadataError::InputTooLarge)),
{
    if limits.records == 0 || limits.records > MAX_AUDIT_RECORDS || limits.issues == 0 || limits.issues
        > MAX_AUDIT_ISSUES || limits.page_starts == 0 || limits.page_starts > MAX_AUDIT_PAGE_STARTS {
        return Err(AuditError::InvalidLimits);
    }
    let inspection = match inspect_kernel_collection(source) {
        Ok(i) => i,
        Err(e) => return Err(AuditError::Metadata(e)),
    };
    audit_inspection(source, limits, &inspection)
}

/// Audits the fixups of an inspected collection: its own image, then each member,
/// then the overlaps between writes.
fn audit_inspection(source: &[u8], limits: AuditLimits, inspection: &KcMetadataInspection) -> (r: Result<
    KcFixupAudit,
    AuditError,
>)
    requires
        limits_ok(limits),
    ensures
        r matches Ok(a) ==> audit_ok(a, limits),
{
    let segments = &inspection.collection.segments;
    if segments.len() == 0 {
        return Err(AuditError::InvalidMetadata);
    }
    let mut primary_base = segments[0].address;
    let mut i: usize = 1;
    while i < segments.len()
        decreases segments@.len() - i,
    {
        if segments[i].address < primary_base {
            primary_base = segments[i].address;
        }
        i = i + 1;
    }
    let outer = mappings(segments)?;
    let executable = member_ranges(inspection, 2)?;
    let kext = member_ranges(inspection, 11)?;
    let mut audit = Audit {
        source,
        limits,
        outer,
        executable,
        kext,
        out: KcFixupAudit {
            summary: AuditSummary {
                classic_records: 0,
                classic_negative_displacements: 0,
                classic_types: [0; 16],
                classic_width_exponents: [0; 4],
                classic_pc_relative: 0,
                classic_external: 0,
                chain_records: 0,
                chain_starts: 0,
                chains_terminated: 0,
                chain_page_straddling_words: 0,
                page_starts_visited: 0,
                multi_start_pages: 0,
                chain_cache_levels: [0; 4],
                authenticated_words: 0,
                primary_pointer_targets_covered: 0,
                file_backed_write_records: 0,
                executable_member_write_records: 0,
                kext_member_write_records: 0,
                both_member_write_records: 0,
                outer_only_write_records: 0,
                issue_counts: Vec::new(),
            },
            records: Vec::new(),
            issues: Vec::new(),
            primary_base,
        },
    };
    audit.image(0, &inspection.collection)?;
    let mut m: usize = 0;
    while m < inspection.members.len()
        invariant
            audit.wf(),
            audit.limits == limits,
            limits_ok(limits),
        decreases inspection.members@.len() - m,
    {
        audit.image(m + 1, &inspection.members[m].image)?;
        m = m + 1;
    }
    audit.overlaps()?;
    Ok(audit.out)
}

} // verus!

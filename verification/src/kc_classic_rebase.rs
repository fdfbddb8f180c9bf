//! Kernel-proper classic relocations in an owned host arena, never XNU entry.
use vstd::prelude::*;

use crate::bytes::{copy_into, le_u32, le_u64, lemma_u32_bytes, lemma_u64_bytes, u32_bytes, u64_bytes, u64_le, zeros};
use crate::kc_fixup_audit::{
    audit_kernel_collection, AuditError, ClassicTable, MemberOverlap, RecordDetail,
};
use crate::kc_staging::{KcStagingError, KcStagingPlan, StagingVerification};
use crate::kernel_collection::{FilesetMember, ImageMetadata, KcMetadataInspection, SegmentMetadata};

verus! {

#[derive(Clone, Copy, Debug, PartialEq, Eq, Structural)]
pub enum ClassicRebaseError {
    Staging(KcStagingError),
    Audit(AuditError),
    AuditIssues,
    ExecutableMemberCount,
    EmptyClassicTable,
    UnsupportedClassicProfile,
    OutsideKernelFileMapping,
    HeaderWrite,
    AddressOverflow,
    /// Outside this conservative subset, not necessarily malformed Mach-O.
    ValueOverflow,
    AllocationFailed,
    DestinationSize,
    ReadbackMismatch,
}

impl ClassicRebaseError {
    /// The name of each variant, with the name of a wrapped error in brackets.
    pub open spec fn name_text(&self) -> Seq<char> {
        match self {
            ClassicRebaseError::Staging(e) => "Staging("@ + e.name_text() + ")"@,
            ClassicRebaseError::Audit(e) => "Audit("@ + e.name_text() + ")"@,
            ClassicRebaseError::AuditIssues => "AuditIssues"@,
            ClassicRebaseError::ExecutableMemberCount => "ExecutableMemberCount"@,
            ClassicRebaseError::EmptyClassicTable => "EmptyClassicTable"@,
            ClassicRebaseError::UnsupportedClassicProfile => "UnsupportedClassicProfile"@,
            ClassicRebaseError::OutsideKernelFileMapping => "OutsideKernelFileMapping"@,
            ClassicRebaseError::HeaderWrite => "HeaderWrite"@,
            ClassicRebaseError::AddressOverflow => "AddressOverflow"@,
            ClassicRebaseError::ValueOverflow => "ValueOverflow"@,
            ClassicRebaseError::AllocationFailed => "AllocationFailed"@,
            ClassicRebaseError::DestinationSize => "DestinationSize"@,
            ClassicRebaseError::ReadbackMismatch => "ReadbackMismatch"@,
        }
    }

    /// The diagnostic text of this error.
    pub fn to_string(&self) -> (r: String)
        ensures
            r@ == "KC_CLASSIC_REBASE_"@ + self.name_text(),
    {
        let prefix = String::from_str("KC_CLASSIC_REBASE_");
        match self {
            ClassicRebaseError::Staging(e) => prefix.concat("Staging(").concat(e.name().as_str()).concat(")"),
            ClassicRebaseError::Audit(e) => prefix.concat("Audit(").concat(e.name().as_str()).concat(")"),
            ClassicRebaseError::AuditIssues => prefix.concat("AuditIssues"),
            ClassicRebaseError::ExecutableMemberCount => prefix.concat("ExecutableMemberCount"),
            ClassicRebaseError::EmptyClassicTable => prefix.concat("EmptyClassicTable"),
            ClassicRebaseError::UnsupportedClassicProfile => prefix.concat("UnsupportedClassicProfile"),
            ClassicRebaseError::OutsideKernelFileMapping => prefix.concat("OutsideKernelFileMapping"),
            ClassicRebaseError::HeaderWrite => prefix.concat("HeaderWrite"),
            ClassicRebaseError::AddressOverflow => prefix.concat("AddressOverflow"),
            ClassicRebaseError::ValueOverflow => prefix.concat("ValueOverflow"),
            ClassicRebaseError::AllocationFailed => prefix.concat("AllocationFailed"),
            ClassicRebaseError::DestinationSize => prefix.concat("DestinationSize"),
            ClassicRebaseError::ReadbackMismatch => prefix.concat("ReadbackMismatch"),
        }
    }
}

impl From<KcStagingError> for ClassicRebaseError {
    fn from(e: KcStagingError) -> (r: Self) {
        ClassicRebaseError::Staging(e)
    }
}

impl vstd::std_specs::convert::FromSpecImpl<KcStagingError> for ClassicRebaseError {
    open spec fn obeys_from_spec() -> bool {
        true
    }

    open spec fn from_spec(e: KcStagingError) -> Self {
        ClassicRebaseError::Staging(e)
    }
}

impl From<AuditError> for ClassicRebaseError {
    fn from(e: AuditError) -> (r: Self) {
        ClassicRebaseError::Audit(e)
    }
}

impl vstd::std_specs::convert::FromSpecImpl<AuditError> for ClassicRebaseError {
    open spec fn obeys_from_spec() -> bool {
        true
    }

    open spec fn from_spec(e: AuditError) -> Self {
        ClassicRebaseError::Audit(e)
    }
}

#[derive(Clone, Copy, Debug, PartialEq, Eq)]
pub struct ClassicRebaseVerification {
    pub slide: u32,
    pub arena_bytes: usize,
    pub classic_words: usize,
    pub width4_words: usize,
    pub width8_words: usize,
    pub write_bytes_verified: usize,
    pub non_target_bytes_verified: usize,
    pub changed_bytes: usize,
    pub chain_words_preserved: usize,
    pub header_ranges_preserved: usize,
}

/// One rebased word: its arena offset, its width, its new bytes and the offset
/// in the source of the bytes it replaces.
#[derive(Clone, Copy, Debug)]
struct Word {
    offset: usize,
    width: usize,
    after: [u8; 8],
    source_offset: usize,
}

/// Private fields bind all decisions to the immutable source. Runtime slide
/// selection and virtual/physical placement are deliberately not inferred.
#[derive(Debug)]
pub struct KcClassicRebasePlan<'a> {
    source: &'a [u8],
    staging: KcStagingPlan<'a>,
    words: Vec<Word>,
    verification: ClassicRebaseVerification,
}

/// The rebased byte at `k`: a word's new byte where a word covers it, else
/// the staged byte.
spec fn rebased_byte(words: Seq<Word>, arena: Seq<u8>, k: int) -> u8 {
    if exists|i: int| 0 <= i < words.len() && covers(#[trigger] words[i], k) {
        let i = choose|i: int| 0 <= i < words.len() && covers(#[trigger] words[i], k);
        words[i].after[k - words[i].offset]
    } else {
        arena[k]
    }
}

spec fn covers(w: Word, k: int) -> bool {
    w.offset <= k < w.offset + w.width
}

/// The little-endian value of the `width` (four or eight) bytes at `i`.
spec fn le_word(s: Seq<u8>, i: int, width: int) -> int {
    if width == 4 {
        le_u32(s, i)
    } else {
        le_u64(s, i)
    }
}

/// A word's new value is the value of the source bytes it replaces plus the slide.
spec fn word_slid(source: Seq<u8>, w: Word, slide: u32) -> bool {
    &&& w.source_offset + w.width <= source.len()
    &&& le_word(w.after@, 0, w.width as int) == le_word(source, w.source_offset as int, w.width as int) + slide
}

/// The low four bytes of an eight-byte encoding read back as the low 32 bits.
proof fn lemma_low_word(x: u64)
    ensures
        le_u32(u64_bytes(x), 0) == x % 0x1_0000_0000,
        le_u64(u64_bytes(x), 0) == x,
{
    lemma_u64_bytes(x);
    lemma_u32_bytes((x % 0x1_0000_0000) as u32);
    assert(u64_bytes(x).subrange(0, 4) =~= u32_bytes((x % 0x1_0000_0000) as u32));
    assert(le_u32(u64_bytes(x), 0) == le_u32(u32_bytes((x % 0x1_0000_0000) as u32), 0));
}

/// Source bytes that encode `before`, slid to `after`, give a slid word.
proof fn lemma_word_slid(source: Seq<u8>, start: int, width: int, before: u64, after: u64, slide: u32)
    requires
        width == 4 || width == 8,
        0 <= start,
        start + width <= source.len(),
        forall|j: int| 0 <= j < width ==> source[start + j] == #[trigger] u64_bytes(before)[j],
        after == before + slide,
        width == 4 ==> after <= 0xffff_ffff,
    ensures
        le_word(u64_bytes(after), 0, width) == le_word(source, start, width) + slide,
{
    lemma_low_word(before);
    lemma_low_word(after);
    let b = u64_bytes(before);
    assert(source[start] == b[0] && source[start + 1] == b[1] && source[start + 2] == b[2] && source[start + 3] == b[3]);
    if width == 8 {
        assert(source[start + 4] == b[4] && source[start + 5] == b[5] && source[start + 6] == b[6] && source[start + 7] == b[7]);
    }
}

/// Words of four or eight bytes, inside the arena, in ascending order and
/// without sharing a byte.
spec fn words_ok(words: Seq<Word>, arena: int) -> bool {
    &&& forall|i: int| 0 <= i < words.len() ==> (#[trigger] words[i]).offset + words[i].width <= arena
        && (words[i].width == 4 || words[i].width == 8)
    &&& forall|i: int, j: int| 0 <= i < j < words.len() ==> (#[trigger] words[i]).offset + words[i].width
        <= (#[trigger] words[j]).offset
}

impl<'a> KcClassicRebasePlan<'a> {
    /// The plan's invariant: a valid staging plan of the same source, disjoint
    /// classic words inside its arena, and every word's new value the value of the
    /// source bytes it replaces plus the slide.
    pub closed spec fn wf(&self) -> bool {
        &&& self.staging.wf()
        &&& self.staging.spec_source() == self.source@
        &&& words_ok(self.words@, self.staging.spec_arena_size() as int)
        &&& self.verification.arena_bytes == self.staging.spec_arena_size()
        &&& forall|k: int| 0 <= k < self.words@.len() ==> word_slid(self.source@, #[trigger] self.words@[k], self.verification.slide)
    }

    pub closed spec fn spec_staging(&self) -> KcStagingPlan<'a> {
        self.staging
    }

    pub closed spec fn spec_verification(&self) -> ClassicRebaseVerification {
        self.verification
    }

    /// The arena after the classic writes: the staged arena with every
    /// planned word replaced by its slid value.
    pub closed spec fn rebased(&self) -> Seq<u8> {
        Seq::new(
            self.staging.spec_arena_size() as nat,
            |k: int| rebased_byte(self.words@, self.staging.arena(), k),
        )
    }

    /// The rebased arena is as long as the staging arena.
    pub proof fn lemma_rebased_len(&self)
        ensures
            self.rebased().len() == self.spec_staging().spec_arena_size(),
    {
    }

    #[verifier::loop_isolation(false)]
    #[verifier::spinoff_prover]
    #[verifier::rlimit(60)]
    pub fn new(source: &'a [u8], slide: u32) -> (r: Result<Self, ClassicRebaseError>)
        ensures
            r matches Ok(p) ==> p.wf() && p.spec_staging().spec_source() == source@ && p.spec_verification().slide == slide,
            r matches Ok(p) ==> one_executable(p.spec_staging().spec_inspection().members@),
            source@.len() <= crate::kernel_collection::MAX_INPUT_SIZE ==> (crate::kernel_collection::header_error(
                source@,
                0,
                true,
                false,
            ) matches Some(e) ==> r == Err::<Self, ClassicRebaseError>(
                ClassicRebaseError::Staging(KcStagingError::Metadata(e)),
            )),
    {
        let staging = match KcStagingPlan::new(source) {
            Ok(p) => p,
            Err(e) => return Err(ClassicRebaseError::Staging(e)),
        };
        let inspection = staging.inspection();
        let mut kernel_index: Option<usize> = None;
        let mut m: usize = 0;
        while m < inspection.members.len()
            invariant
                kernel_index matches Some(k) ==> k < m && inspection.members@[k as int].image.file_type == 2,
                forall|j: int| 0 <= j < m && (kernel_index matches Some(k) ==> j != k) ==> (#[trigger] inspection.members@[j]).image.file_type != 2,
                m <= inspection.members@.len(),
            decreases inspection.members@.len() - m,
        {
            if inspection.members[m].image.file_type == 2 {
                if kernel_index.is_some() {
                    return Err(ClassicRebaseError::ExecutableMemberCount);
                }
                kernel_index = Some(m);
            }
            m = m + 1;
        }
        let kernel = match kernel_index {
            Some(k) => &inspection.members[k].image,
            None => return Err(ClassicRebaseError::ExecutableMemberCount),
        };
        let audit = match audit_kernel_collection(source) {
            Ok(a) => a,
            Err(e) => return Err(ClassicRebaseError::Audit(e)),
        };
        if !audit.ranges_valid() {
            return Err(ClassicRebaseError::AuditIssues);
        }
        if audit.summary().classic_records == 0 {
            return Err(ClassicRebaseError::EmptyClassicTable);
        }
        let records = audit.records();
        let members_len = inspection.members.len();
        let mut verification = ClassicRebaseVerification {
            slide,
            arena_bytes: staging.arena_size(),
            classic_words: 0,
            width4_words: 0,
            width8_words: 0,
            write_bytes_verified: 0,
            non_target_bytes_verified: 0,
            changed_bytes: 0,
            chain_words_preserved: audit.summary().chain_records,
            header_ranges_preserved: members_len + 1,
        };
        let mut words: Vec<Word> = Vec::new();
        let arena = staging.arena_size();
        let minimum = staging.minimum_virtual_address();
        let _n = source.len();
        let mut i: usize = 0;
        while i < records.len()
            invariant
                records@.len() <= crate::kc_fixup_audit::MAX_AUDIT_RECORDS,
                i <= records@.len(),
                words@.len() == verification.classic_words,
                verification.classic_words <= i,
                verification.width4_words + verification.width8_words == verification.classic_words,
                verification.write_bytes_verified <= 8 * verification.classic_words,
                verification.changed_bytes <= verification.write_bytes_verified,
                verification.arena_bytes == arena,
                verification.slide == slide,
                forall|k: int| 0 <= k < words@.len() ==> (#[trigger] words@[k]).offset + words@[k].width <= arena
                    && (words@[k].width == 4 || words@[k].width == 8),
                forall|k: int| 0 <= k < words@.len() ==> word_slid(source@, #[trigger] words@[k], slide),
            decreases records@.len() - i,
        {
            let record = records[i];
            if let RecordDetail::Classic {
                table,
                symbol_ordinal,
                relocation_type,
                length_exponent,
                pc_relative,
                external,
                stored_value,
                ..
            } = record.detail {
                if record.image_index != 0 || table != ClassicTable::LocalDynamic || symbol_ordinal != 0
                    || relocation_type != 0 || pc_relative || external || !(length_exponent == 2
                    || length_exponent == 3) || record.member_overlap != MemberOverlap::ExecutableMember {
                    return Err(ClassicRebaseError::UnsupportedClassicProfile);
                }
                let expected_width: u8 = if length_exponent == 2 {
                    4
                } else {
                    8
                };
                if record.width != expected_width {
                    return Err(ClassicRebaseError::UnsupportedClassicProfile);
                }
                let address = match record.write_address {
                    Some(a) => a,
                    None => return Err(ClassicRebaseError::OutsideKernelFileMapping),
                };
                let file = match record.write_file_offset {
                    Some(f) => f,
                    None => return Err(ClassicRebaseError::OutsideKernelFileMapping),
                };
                let width: usize = record.width as usize;
                if !file_mapping_matches(kernel, address, file, width as u64)? {
                    return Err(ClassicRebaseError::OutsideKernelFileMapping);
                }
                check_headers(&staging, address, file, width as u64)?;
                let before = match stored_value {
                    Some(v) => v,
                    None => return Err(ClassicRebaseError::OutsideKernelFileMapping),
                };
                let after = match before.checked_add(slide as u64) {
                    Some(v) => v,
                    None => return Err(ClassicRebaseError::ValueOverflow),
                };
                if width == 4 && after > 0xffff_ffff {
                    return Err(ClassicRebaseError::ValueOverflow);
                }
                if address < minimum {
                    return Err(ClassicRebaseError::AddressOverflow);
                }
                let relative = address - minimum;
                if relative > usize::MAX as u64 {
                    return Err(ClassicRebaseError::AddressOverflow);
                }
                let offset = relative as usize;
                let end = match offset.checked_add(width) {
                    Some(e) => e,
                    None => return Err(ClassicRebaseError::AddressOverflow),
                };
                if end > arena {
                    return Err(ClassicRebaseError::OutsideKernelFileMapping);
                }
                if file > usize::MAX as u64 {
                    return Err(ClassicRebaseError::AddressOverflow);
                }
                let source_start = file as usize;
                let source_end = match source_start.checked_add(width) {
                    Some(e) => e,
                    None => return Err(ClassicRebaseError::AddressOverflow),
                };
                if source_end > source.len() {
                    return Err(ClassicRebaseError::OutsideKernelFileMapping);
                }
                let before_bytes = u64_le(before);
                let after_bytes = u64_le(after);
                let mut changed: usize = 0;
                let mut k: usize = 0;
                while k < width
                    invariant
                        width == 4 || width == 8,
                        source_start + width <= source@.len(),
                        k <= width,
                        changed <= k,
                        forall|j: int| 0 <= j < k ==> source@[source_start + j] == before_bytes@[j],
                    decreases width - k,
                {
                    if source[source_start + k] != before_bytes[k] {
                        return Err(ClassicRebaseError::UnsupportedClassicProfile);
                    }
                    if source[source_start + k] != after_bytes[k] {
                        changed = changed + 1;
                    }
                    k = k + 1;
                }
                verification.changed_bytes = verification.changed_bytes + changed;
                verification.classic_words = verification.classic_words + 1;
                verification.write_bytes_verified = verification.write_bytes_verified + width;
                if width == 4 {
                    verification.width4_words = verification.width4_words + 1;
                } else {
                    verification.width8_words = verification.width8_words + 1;
                }
                let word = Word { offset, width, after: after_bytes, source_offset: source_start };
                assert(word_slid(source@, word, slide)) by {
                    lemma_word_slid(source@, source_start as int, width as int, before, after, slide);
                }
                let ghost prior = words@;
                words.push(word);
                assert forall|k: int| 0 <= k < words@.len() implies word_slid(source@, #[trigger] words@[k], slide) by {
                    if k < prior.len() {
                        assert(words@[k] == prior[k]);
                    }
                }
            }
            i = i + 1;
        }
        let ghost unsorted = words@;
        let words = sort_words(words);
        assert forall|k: int| 0 <= k < words@.len() implies word_slid(source@, #[trigger] words@[k], slide) by {
            assert(unsorted.contains(words@[k]));
            let j = choose|j: int| 0 <= j < unsorted.len() && unsorted[j] == words@[k];
            assert(word_slid(source@, unsorted[j], slide));
        }
        let count = words.len();
        let mut p: usize = 1;
        while p < count
            invariant
                1 <= p,
                count == words@.len(),
                forall|a: int, c: int| 0 <= a < c < p && c < count ==> (#[trigger] words@[a]).offset
                    + words@[a].width <= (#[trigger] words@[c]).offset,
            decreases count - p,
        {
            if words[p - 1].offset + words[p - 1].width > words[p].offset {
                return Err(ClassicRebaseError::AuditIssues);
            }
            proof {
                assert forall|a: int, c: int| 0 <= a < c < p + 1 && c < count implies (#[trigger] words@[a]).offset
                    + words@[a].width <= (#[trigger] words@[c]).offset by {
                    if c == p && a < p - 1 {
                        assert(words@[a].offset + words@[a].width <= words@[p - 1].offset);
                    }
                }
            }
            p = p + 1;
        }
        if verification.write_bytes_verified > verification.arena_bytes {
            return Err(ClassicRebaseError::AddressOverflow);
        }
        verification.non_target_bytes_verified = verification.arena_bytes - verification.write_bytes_verified;
        let plan = KcClassicRebasePlan { source, staging, words, verification };
        proof {
            assert forall|a: int, c: int| 0 <= a < c < plan.words@.len() implies (#[trigger] plan.words@[a]).offset
                + plan.words@[a].width <= (#[trigger] plan.words@[c]).offset by {
                assert(0 <= a < c < p && c < count);
            }
        }
        Ok(plan)
    }

    pub fn planned_summary(&self) -> (r: &ClassicRebaseVerification)
        ensures
            *r == self.spec_verification(),
    {
        &self.verification
    }

    pub fn preparation_ready(&self) -> (r: bool)
        ensures
            !r,
    {
        false
    }

    /// Writes every planned word over a staged arena.
    fn write_words(&self, bytes: &mut Vec<u8>)
        requires
            self.wf(),
            old(bytes)@ == self.staging.arena(),
        ensures
            final(bytes)@ == self.rebased(),
    {
        let ghost words = self.words@;
        let ghost arena = self.staging.arena();
        let n = bytes.len();
        let mut i: usize = 0;
        while i < self.words.len()
            invariant
                self.wf(),
                words == self.words@,
                arena == self.staging.arena(),
                n == bytes@.len() == arena.len() == self.staging.spec_arena_size(),
                i <= words.len(),
                forall|j: int| 0 <= j < n ==> #[trigger] bytes@[j] == (if exists|x: int| 0 <= x < i && covers(#[trigger] words[x], j) {
                    rebased_byte(words, arena, j)
                } else {
                    arena[j]
                }),
            decreases words.len() - i,
        {
            let w = self.words[i];
            assert(words[i as int] == w);
            let four: [u8; 4] = [w.after[0], w.after[1], w.after[2], w.after[3]];
            let piece: &[u8] = if w.width == 4 {
                four.as_slice()
            } else {
                w.after.as_slice()
            };
            assert(piece@.len() == w.width);
            assert(forall|k: int| 0 <= k < w.width ==> piece@[k] == w.after[k]);
            let ghost before = bytes@;
            copy_into(bytes.as_mut_slice(), w.offset, piece);
            proof {
                assert forall|j: int| 0 <= j < n implies #[trigger] bytes@[j] == (if exists|x: int| 0 <= x < i + 1 && covers(#[trigger] words[x], j) {
                    rebased_byte(words, arena, j)
                } else {
                    arena[j]
                }) by {
                    if covers(w, j) {
                        assert forall|y: int| 0 <= y < words.len() && covers(#[trigger] words[y], j) implies y == i by {
                            if y < i {
                                assert(words[y].offset + words[y].width <= w.offset);
                            } else if y > i {
                                assert(w.offset + w.width <= words[y].offset);
                            }
                        }
                        assert(covers(words[i as int], j));
                    } else {
                        assert(bytes@[j] == before[j]);
                        if exists|x: int| 0 <= x < i + 1 && covers(#[trigger] words[x], j) {
                            let x = choose|x: int| 0 <= x < i + 1 && covers(#[trigger] words[x], j);
                            assert(x != i);
                        }
                    }
                }
            }
            i = i + 1;
        }
        proof {
            assert(bytes@ =~= self.rebased());
        }
    }

    /// The post-rebase image this plan promises.
    fn expected(&self) -> (r: Vec<u8>)
        requires
            self.wf(),
        ensures
            r@ == self.rebased(),
    {
        let mut bytes = zeros(self.staging.arena_size());
        let _ = self.staging.stage_into(bytes.as_mut_slice());
        self.write_words(&mut bytes);
        bytes
    }

    /// Allocate only after the complete plan has passed. Stage_into performs
    /// full source-equivalence readback before any of the classic writes.
    pub fn apply(self) -> (r: Result<RebasedKc<'a>, ClassicRebaseError>)
        requires
            self.wf(),
        ensures
            r matches Ok(k) ==> k.spec_bytes() == self.rebased() && k.spec_plan() == self,
            r matches Ok(k) ==> k.spec_original_staging().arena_bytes == self.spec_staging().spec_arena_size(),
            r matches Err(e) ==> e == ClassicRebaseError::AllocationFailed
                || self.spec_staging().spec_view_file_total() > usize::MAX,
    {
        let mut bytes: Vec<u8> = Vec::new();
        if bytes.try_reserve(self.staging.arena_size()).is_err() {
            return Err(ClassicRebaseError::AllocationFailed);
        }
        let mut bytes = zeros(self.staging.arena_size());
        let original_staging = match self.staging.stage_into(bytes.as_mut_slice()) {
            Ok(v) => v,
            Err(e) => return Err(ClassicRebaseError::Staging(e)),
        };
        self.write_words(&mut bytes);
        self.verify(bytes.as_slice())?;
        Ok(RebasedKc { plan: self, bytes, original_staging })
    }

    /// Read-only comparison against this plan's exact post-rebase image. This
    /// accepts a slice for corruption detection, never for in-place application.
    pub fn verify(&self, bytes: &[u8]) -> (r: Result<ClassicRebaseVerification, ClassicRebaseError>)
        requires
            self.wf(),
        ensures
            bytes@.len() != self.spec_staging().spec_arena_size() ==> r == Err::<ClassicRebaseVerification, ClassicRebaseError>(
                ClassicRebaseError::DestinationSize,
            ),
            bytes@.len() == self.spec_staging().spec_arena_size() ==> (r is Ok <==> bytes@ == self.rebased()),
            r matches Ok(v) ==> v == self.spec_verification(),
            bytes@.len() == self.spec_staging().spec_arena_size() && bytes@ != self.rebased() ==> r
                == Err::<ClassicRebaseVerification, ClassicRebaseError>(ClassicRebaseError::ReadbackMismatch),
    {
        if bytes.len() != self.staging.arena_size() {
            return Err(ClassicRebaseError::DestinationSize);
        }
        let expected = self.expected();
        if !crate::bytes::bytes_eq(bytes, expected.as_slice()) {
            return Err(ClassicRebaseError::ReadbackMismatch);
        }
        Ok(self.verification)
    }
}

/// Owns ordinary initialized memory. No mutable bytes, raw entry, or native
/// handoff capability is exposed. The original immutable input stays borrowed.
#[derive(Debug)]
pub struct RebasedKc<'a> {
    plan: KcClassicRebasePlan<'a>,
    bytes: Vec<u8>,
    original_staging: StagingVerification,
}

impl<'a> RebasedKc<'a> {
    pub closed spec fn spec_bytes(&self) -> Seq<u8> {
        self.bytes@
    }

    pub closed spec fn spec_plan(&self) -> KcClassicRebasePlan<'a> {
        self.plan
    }

    pub closed spec fn spec_original_staging(&self) -> StagingVerification {
        self.original_staging
    }

    pub fn bytes(&self) -> (r: &[u8])
        ensures
            r@ == self.spec_bytes(),
    {
        self.bytes.as_slice()
    }

    pub fn plan(&self) -> (r: &KcClassicRebasePlan<'a>)
        ensures
            *r == self.spec_plan(),
    {
        &self.plan
    }

    pub fn verification(&self) -> (r: &ClassicRebaseVerification)
        ensures
            *r == self.spec_plan().spec_verification(),
    {
        &self.plan.verification
    }

    pub fn original_staging(&self) -> (r: &StagingVerification)
        ensures
            *r == self.spec_original_staging(),
    {
        &self.original_staging
    }

    pub fn classic_relocations_applied(&self) -> (r: bool)
        ensures
            r,
    {
        true
    }

    pub fn preparation_ready(&self) -> (r: bool)
        ensures
            !r,
    {
        false
    }
}

/// The answer of the segments from `i` on: the first whose file-backed span holds the
/// write decides whether it maps the write to file offset `file`.
pub open spec fn mapping_match(segs: Seq<SegmentMetadata>, address: u64, file: u64, width: u64, i: int) -> Result<
    bool,
    ClassicRebaseError,
>
    decreases segs.len() - i,
{
    if i < 0 || i >= segs.len() {
        Ok(false)
    } else if segs[i].address + segs[i].file.size > u64::MAX {
        Err(ClassicRebaseError::AddressOverflow)
    } else if address >= segs[i].address && address + width <= segs[i].address + segs[i].file.size {
        if segs[i].file.offset + (address - segs[i].address) > u64::MAX {
            Err(ClassicRebaseError::AddressOverflow)
        } else {
            Ok(segs[i].file.offset + (address - segs[i].address) == file)
        }
    } else {
        mapping_match(segs, address, file, width, i + 1)
    }
}

/// Exactly one member is an executable (MH_EXECUTE) image.
pub open spec fn one_executable(members: Seq<FilesetMember>) -> bool {
    exists|k: int|
        0 <= k < members.len() && (#[trigger] members[k]).image.file_type == 2 && forall|j: int|
            0 <= j < members.len() && j != k ==> (#[trigger] members[j]).image.file_type != 2
}

/// Whether a write at `address` of `width` bytes lies in a file-backed
/// mapping of the kernel image at file offset `file`.
fn file_mapping_matches(image: &ImageMetadata, address: u64, file: u64, width: u64) -> (r: Result<bool, ClassicRebaseError>)
    ensures
        r == (if address + width > u64::MAX {
            Err(ClassicRebaseError::AddressOverflow)
        } else {
            mapping_match(image.segments@, address, file, width, 0)
        }),
{
    let end = match address.checked_add(width) {
        Some(e) => e,
        None => return Err(ClassicRebaseError::AddressOverflow),
    };
    let mut i: usize = 0;
    while i < image.segments.len()
        invariant
            i <= image.segments@.len(),
            end == address + width,
            mapping_match(image.segments@, address, file, width, 0) == mapping_match(
                image.segments@,
                address,
                file,
                width,
                i as int,
            ),
        decreases image.segments@.len() - i,
    {
        let segment = &image.segments[i];
        let file_end = match segment.address.checked_add(segment.file.size) {
            Some(e) => e,
            None => return Err(ClassicRebaseError::AddressOverflow),
        };
        if address >= segment.address && end <= file_end {
            return match segment.file.offset.checked_add(address - segment.address) {
                Some(at) => Ok(at == file),
                None => Err(ClassicRebaseError::AddressOverflow),
            };
        }
        i = i + 1;
    }
    Ok(false)
}

/// Whether `[a, a + alen)` meets `[b, b + blen)`, both ends in range.
fn overlaps(a: u64, alen: u64, b: u64, blen: u64) -> (r: Result<bool, ClassicRebaseError>)
    ensures
        r == (if b + blen > u64::MAX || a + alen > u64::MAX {
            Err(ClassicRebaseError::AddressOverflow)
        } else {
            Ok(a < b + blen && b < a + alen)
        }),
{
    let b_end = match b.checked_add(blen) {
        Some(e) => e,
        None => return Err(ClassicRebaseError::AddressOverflow),
    };
    let a_end = match a.checked_add(alen) {
        Some(e) => e,
        None => return Err(ClassicRebaseError::AddressOverflow),
    };
    Ok(a < b_end && b < a_end)
}

/// Whether a write meets a header of `size` bytes at file offset `hfile` and address
/// `haddr`, its file span tested first.
pub open spec fn header_touch(address: u64, file: u64, width: u64, hfile: u64, haddr: u64, size: int) -> Result<
    bool,
    ClassicRebaseError,
> {
    if hfile + size > u64::MAX || file + width > u64::MAX {
        Err(ClassicRebaseError::AddressOverflow)
    } else if file < hfile + size && hfile < file + width {
        Ok(true)
    } else if haddr + size > u64::MAX || address + width > u64::MAX {
        Err(ClassicRebaseError::AddressOverflow)
    } else {
        Ok(address < haddr + size && haddr < address + width)
    }
}

/// The header test of one image: its Mach header and load commands.
pub open spec fn image_touch(image: ImageMetadata, address: u64, file: u64, width: u64) -> Result<bool, ClassicRebaseError> {
    header_touch(address, file, width, image.header_file_offset, image.header_address, 32 + image.command_bytes)
}

/// The header test of the members from `m` on, in order.
pub open spec fn members_touch(members: Seq<FilesetMember>, address: u64, file: u64, width: u64, m: int) -> Result<
    (),
    ClassicRebaseError,
>
    decreases members.len() - m,
{
    if m < 0 || m >= members.len() {
        Ok(())
    } else {
        match image_touch(members[m].image, address, file, width) {
            Err(e) => Err(e),
            Ok(true) => Err(ClassicRebaseError::HeaderWrite),
            Ok(false) => members_touch(members, address, file, width, m + 1),
        }
    }
}

/// The header test of a write against the collection's and every member's header.
pub open spec fn headers_check(inspection: KcMetadataInspection, address: u64, file: u64, width: u64) -> Result<
    (),
    ClassicRebaseError,
> {
    match image_touch(inspection.collection, address, file, width) {
        Err(e) => Err(e),
        Ok(true) => Err(ClassicRebaseError::HeaderWrite),
        Ok(false) => members_touch(inspection.members@, address, file, width, 0),
    }
}

/// Refuses a write that touches a Mach header of the collection or a member.
fn check_headers(staging: &KcStagingPlan, address: u64, file: u64, width: u64) -> (r: Result<(), ClassicRebaseError>)
    ensures
        r == headers_check(staging.spec_inspection(), address, file, width),
{
    let inspection = staging.inspection();
    let outer = &inspection.collection;
    let header_size = 32 + outer.command_bytes as u64;
    if overlaps(file, width, outer.header_file_offset, header_size)? || overlaps(address, width, outer.header_address, header_size)? {
        return Err(ClassicRebaseError::HeaderWrite);
    }
    let mut m: usize = 0;
    while m < inspection.members.len()
        invariant
            m <= inspection.members@.len(),
            *inspection == staging.spec_inspection(),
            headers_check(*inspection, address, file, width) == members_touch(
                inspection.members@,
                address,
                file,
                width,
                m as int,
            ),
        decreases inspection.members@.len() - m,
    {
        let image = &inspection.members[m].image;
        let header_size = 32 + image.command_bytes as u64;
        if overlaps(file, width, image.header_file_offset, header_size)? || overlaps(address, width, image.header_address, header_size)? {
            return Err(ClassicRebaseError::HeaderWrite);
        }
        m = m + 1;
    }
    Ok(())
}

/// The words in ascending order of arena offset.
fn sort_words(words: Vec<Word>) -> (r: Vec<Word>)
    ensures
        r@.len() == words@.len(),
        forall|a: int| 0 <= a < r@.len() ==> words@.contains(#[trigger] r@[a]),
        r@.to_multiset() == words@.to_multiset(),
        forall|a: int, b: int| 0 <= a < b < r@.len() ==> (#[trigger] r@[a]).offset <= (#[trigger] r@[b]).offset,
{
    let mut sorted: Vec<Word> = Vec::new();
    let mut i: usize = 0;
    proof {
        assert(words@.subrange(0, 0) =~= Seq::<Word>::empty());
    }
    while i < words.len()
        invariant
            i <= words@.len(),
            sorted@.len() == i,
            forall|a: int| 0 <= a < sorted@.len() ==> words@.contains(#[trigger] sorted@[a]),
            sorted@.to_multiset() == words@.subrange(0, i as int).to_multiset(),
            forall|a: int, b: int| 0 <= a < b < sorted@.len() ==> (#[trigger] sorted@[a]).offset <= (#[trigger] sorted@[b]).offset,
        decreases words@.len() - i,
    {
        let x = words[i];
        let mut at: usize = 0;
        while at < sorted.len() && sorted[at].offset <= x.offset
            invariant
                at <= sorted@.len(),
                forall|k: int| 0 <= k < at ==> (#[trigger] sorted@[k]).offset <= x.offset,
            decreases sorted@.len() - at,
        {
            at = at + 1;
        }
        let ghost before = sorted@;
        sorted.insert(at, x);
        proof {
            assert(sorted@ =~= before.insert(at as int, x));
            assert(words@.subrange(0, i + 1) =~= words@.subrange(0, i as int).push(x));
            vstd::seq_lib::to_multiset_insert(before, at as int, x);
            vstd::seq_lib::to_multiset_build(words@.subrange(0, i as int), x);
            assert forall|a: int| 0 <= a < sorted@.len() implies words@.contains(#[trigger] sorted@[a]) by {
                if a < at {
                    assert(sorted@[a] == before[a]);
                } else if a == at {
                    assert(words@[i as int] == sorted@[a]);
                } else {
                    assert(sorted@[a] == before[a - 1]);
                }
            }
            assert forall|a: int, b: int| 0 <= a < b < sorted@.len() implies (#[trigger] sorted@[a]).offset
                <= (#[trigger] sorted@[b]).offset by {
                if b < at {
                    assert(sorted@[a] == before[a] && sorted@[b] == before[b]);
                } else if b == at {
                    assert(sorted@[a] == before[a]);
                } else if a < at {
                    assert(sorted@[a] == before[a] && sorted@[b] == before[b - 1]);
                } else if a == at {
                    assert(sorted@[b] == before[b - 1]);
                    assert(before[at as int].offset > x.offset);
                    if b - 1 > at {
                        assert(before[at as int].offset <= before[b - 1].offset);
                    }
                } else {
                    assert(sorted@[a] == before[a - 1] && sorted@[b] == before[b - 1]);
                }
            }
        }
        i = i + 1;
    }
    proof {
        assert(words@.subrange(0, words@.len() as int) =~= words@);
    }
    sorted
}

} // verus!

//! Header, segments and entry offset of a thin Mach-O image, as goblin reads them.
use vstd::prelude::*;
use vstd::utf8::{decode_utf8, valid_utf8};
use goblin::mach::load_command::CommandVariant;
use goblin::mach::Mach;
use crate::bytes::{le_u32, le_u64, utf8_str};
use crate::error::CoreError;
use crate::string_map::{chars_of, string_of};

verus! {

#[derive(Debug, Clone)]
pub struct MachOHeader {
    pub magic: u32,
    pub filetype: u32,
    pub cpu_type: u32,
    pub cpu_subtype: u32,
    pub ncmds: usize,
    pub sizeofcmds: u32,
    pub entry_offset: u64,
    pub segments: Vec<MachOSegment>,
}

#[derive(Debug, Clone)]
pub struct MachOSegment {
    pub name: String,
    pub vmaddr: u64,
    pub vmsize: u64,
    pub fileoff: u64,
    pub filesize: u64,
}

pub struct MachOLoader;

/// One segment command as goblin reads it.
#[derive(Debug, Clone, Copy)]
pub struct ParsedSegment {
    pub segname: [u8; 16],
    pub vmaddr: u64,
    pub vmsize: u64,
    pub fileoff: u64,
    pub filesize: u64,
}

/// What goblin reports of a thin image: its header fields, its segment commands, and per
/// load command the entry offset where it is an LC_MAIN.
#[derive(Debug)]
pub struct ParsedMachO {
    pub magic: u32,
    pub filetype: u32,
    pub cpu_type: u32,
    pub cpu_subtype: u32,
    pub ncmds: usize,
    pub sizeofcmds: u32,
    pub segments: Vec<ParsedSegment>,
    pub main_entries: Vec<Option<u64>>,
}

/// What `goblin::mach::Mach::parse` makes of `data`: a thin image, `None` for a fat
/// container, or the display text of its error.
pub uninterp spec fn goblin_mach(data: Seq<u8>) -> Result<Option<ParsedMachO>, Seq<char>>;

/// A 32-bit word at `at` in the image's byte order.
pub open spec fn word32(b: Seq<u8>, at: int, little: bool) -> int {
    if little {
        le_u32(b, at)
    } else {
        b[at] * 16777216 + b[at + 1] * 65536 + b[at + 2] * 256 + b[at + 3]
    }
}

/// A 64-bit word at `at` in the image's byte order.
pub open spec fn word64(b: Seq<u8>, at: int, little: bool) -> int {
    if little {
        le_u64(b, at)
    } else {
        word32(b, at, false) * 4294967296 + word32(b, at + 4, false)
    }
}

/// A thin image's byte order and word size by its magic, read big-endian:
/// `Some((little_endian, wide))`, or `None` for anything else.
pub open spec fn thin_kind(b: Seq<u8>) -> Option<(bool, bool)> {
    if b.len() < 4 {
        None
    } else {
        let m = word32(b, 0, false);
        if m == 0xfeed_face {
            Some((false, false))
        } else if m == 0xcefa_edfe {
            Some((true, false))
        } else if m == 0xfeed_facf {
            Some((false, true))
        } else if m == 0xcffa_edfe {
            Some((true, true))
        } else {
            None
        }
    }
}

/// Where load command `i` starts: the first at `first`, each next one `cmdsize`
/// bytes after the one before.
pub open spec fn command_start(b: Seq<u8>, little: bool, first: int, i: nat) -> int
    decreases i,
{
    if i == 0 {
        first
    } else {
        let p = command_start(b, little, first, (i - 1) as nat);
        p + word32(b, p + 4, little)
    }
}

/// An LC_MAIN command whose fields lie inside the image.
pub open spec fn main_at(b: Seq<u8>, little: bool, at: int) -> bool {
    0 <= at && at + 24 <= b.len() && word32(b, at, little) == 0x8000_0028
}

/// A segment command, either width, whose fields lie inside the image and whose
/// name begins `__TEXT` and a NUL.
pub open spec fn text_at(b: Seq<u8>, little: bool, at: int) -> bool {
    let cmd = word32(b, at, little);
    &&& 0 <= at
    &&& (cmd == 0x19 && at + 72 <= b.len()) || (cmd == 0x1 && at + 56 <= b.len())
    &&& b.subrange(at + 8, at + 15) == seq![0x5fu8, 0x5f, 0x54, 0x45, 0x58, 0x54, 0]
}

/// A `__TEXT` segment's address less its file offset, as whole numbers.
pub open spec fn text_base(b: Seq<u8>, little: bool, at: int) -> int {
    if word32(b, at, little) == 0x19 {
        word64(b, at + 24, little) - word64(b, at + 40, little)
    } else {
        word32(b, at + 24, little) - word32(b, at + 32, little)
    }
}

/// A thin image whose first LC_MAIN maps through its first `__TEXT` segment to an
/// address outside 0..2^64: that segment's file offset exceeds its address, or the
/// address less the offset plus the entry offset passes `u64::MAX`. goblin computes
/// that address with unchecked arithmetic.
pub open spec fn entry_wraps(b: Seq<u8>) -> bool {
    match thin_kind(b) {
        None => false,
        Some((little, wide)) => {
            let first = if wide { 32int } else { 28int };
            let n = word32(b, 16, little);
            &&& b.len() >= first
            &&& n <= word32(b, 20, little) / 8
            &&& word32(b, 20, little) <= b.len()
            &&& exists|i: int, j: int|
                #![trigger command_start(b, little, first, i as nat), command_start(b, little, first, j as nat)]
                0 <= i < n && 0 <= j < n && main_at(b, little, command_start(b, little, first, i as nat))
                    && (forall|k: int| 0 <= k < i ==> !main_at(b, little, #[trigger] command_start(b, little, first, k as nat)))
                    && text_at(b, little, command_start(b, little, first, j as nat))
                    && (forall|k: int| 0 <= k < j ==> !text_at(b, little, #[trigger] command_start(b, little, first, k as nat)))
                    && {
                    let base = text_base(b, little, command_start(b, little, first, j as nat));
                    base < 0 || base + word64(b, command_start(b, little, first, i as nat) + 8, little) > u64::MAX
                }
        },
    }
}

/// `goblin::mach::Mach::parse`, its result read into plain values field by field; the
/// result is a function of the bytes alone. goblin maps the first LC_MAIN offset through
/// the first `__TEXT` segment by subtraction and addition without overflow checks, which
/// panic where overflow checks are on, so such images (`entry_wraps`) are left out. An image
/// that goblin would refuse for another reason before that step is left out with them.
#[verifier::external_body]
fn parse_mach(data: &[u8]) -> (r: Result<Option<ParsedMachO>, String>)
    requires
        !entry_wraps(data@),
    ensures
        match r {
            Ok(p) => goblin_mach(data@) == Ok::<Option<ParsedMachO>, Seq<char>>(p),
            Err(m) => goblin_mach(data@) == Err::<Option<ParsedMachO>, Seq<char>>(m@),
        },
{
    match Mach::parse(data) {
        Err(e) => Err(format!("{e}")),
        Ok(Mach::Fat(_)) => Ok(None),
        Ok(Mach::Binary(m)) => { let h = m.header; Ok(Some(ParsedMachO {
            magic: h.magic, filetype: h.filetype, cpu_type: h.cputype,
            cpu_subtype: h.cpusubtype, ncmds: h.ncmds, sizeofcmds: h.sizeofcmds,
            segments: m.segments.iter().map(|s| ParsedSegment { segname: s.segname, vmaddr: s.vmaddr,
                vmsize: s.vmsize, fileoff: s.fileoff, filesize: s.filesize }).collect(),
            main_entries: m.load_commands.iter().map(|c| match c.command {
                CommandVariant::Main(x) => Some(x.entryoff), _ => None }).collect(),
        })) },
    }
}

/// `s` without its trailing NULs.
pub open spec fn trim_trailing_nul(s: Seq<char>) -> Seq<char>
    decreases s.len(),
{
    if s.len() > 0 && s.last() == '\0' {
        trim_trailing_nul(s.drop_last())
    } else {
        s
    }
}

/// A segment name: its sixteen bytes as UTF-8 (empty when they are not), trailing NULs
/// removed.
pub open spec fn segment_name(raw: Seq<u8>) -> Seq<char> {
    trim_trailing_nul(
        if valid_utf8(raw) {
            decode_utf8(raw)
        } else {
            seq![]
        },
    )
}

/// The entry offset of the first LC_MAIN, or 0.
pub open spec fn first_entry(es: Seq<Option<u64>>) -> u64
    decreases es.len(),
{
    if es.len() == 0 {
        0
    } else if es[0] is Some {
        es[0]->0
    } else {
        first_entry(es.drop_first())
    }
}

/// `h` is the header goblin's report `p` describes.
pub open spec fn header_of(p: ParsedMachO, h: MachOHeader) -> bool {
    &&& h.magic == p.magic
    &&& h.filetype == p.filetype
    &&& h.cpu_type == p.cpu_type
    &&& h.cpu_subtype == p.cpu_subtype
    &&& h.ncmds == p.ncmds
    &&& h.sizeofcmds == p.sizeofcmds
    &&& h.entry_offset == first_entry(p.main_entries@)
    &&& h.segments@.len() == p.segments@.len()
    &&& forall|i: int|
        0 <= i < h.segments@.len() ==> {
            let s = #[trigger] h.segments@[i];
            let q = p.segments@[i];
            &&& s.name@ == segment_name(q.segname@)
            &&& s.vmaddr == q.vmaddr
            &&& s.vmsize == q.vmsize
            &&& s.fileoff == q.fileoff
            &&& s.filesize == q.filesize
        }
}

fn segment_name_text(raw: &[u8; 16]) -> (r: String)
    ensures
        r@ == segment_name(raw@),
{
    let bytes: &[u8] = raw;
    let mut chars = match utf8_str(bytes) {
        Some(text) => {
            proof {
                vstd::utf8::encode_utf8_decode_utf8(text@);
            }
            chars_of(text)
        },
        None => Vec::new(),
    };
    let ghost whole = chars@;
    assert(segment_name(raw@) == trim_trailing_nul(whole));
    while chars.len() > 0 && chars[chars.len() - 1] == '\0'
        invariant
            trim_trailing_nul(whole) == trim_trailing_nul(chars@),
        decreases chars@.len(),
    {
        chars.pop();
    }
    string_of(chars.as_slice())
}

fn entry_offset_of(entries: &Vec<Option<u64>>) -> (r: u64)
    ensures
        r == first_entry(entries@),
{
    let mut k: usize = 0;
    assert(entries@.subrange(0, entries@.len() as int) =~= entries@);
    while k < entries.len()
        invariant
            k <= entries@.len(),
            first_entry(entries@) == first_entry(entries@.subrange(k as int, entries@.len() as int)),
        decreases entries@.len() - k,
    {
        let ghost rest = entries@.subrange(k as int, entries@.len() as int);
        assert(rest.drop_first() =~= entries@.subrange(k + 1, entries@.len() as int));
        if let Some(offset) = entries[k] {
            return offset;
        }
        k = k + 1;
    }
    0
}

impl MachOLoader {
    /// The header goblin's report of a thin image describes.
    pub fn header_from_parse(parsed: &ParsedMachO) -> (r: MachOHeader)
        ensures
            header_of(*parsed, r),
    {
        let mut segments: Vec<MachOSegment> = Vec::new();
        let mut i: usize = 0;
        while i < parsed.segments.len()
            invariant
                i <= parsed.segments@.len(),
                segments@.len() == i,
                forall|j: int|
                    0 <= j < i ==> {
                        let s = #[trigger] segments@[j];
                        let q = parsed.segments@[j];
                        &&& s.name@ == segment_name(q.segname@)
                        &&& s.vmaddr == q.vmaddr
                        &&& s.vmsize == q.vmsize
                        &&& s.fileoff == q.fileoff
                        &&& s.filesize == q.filesize
                    },
            decreases parsed.segments@.len() - i,
        {
            let seg = &parsed.segments[i];
            segments.push(
                MachOSegment {
                    name: segment_name_text(&seg.segname),
                    vmaddr: seg.vmaddr,
                    vmsize: seg.vmsize,
                    fileoff: seg.fileoff,
                    filesize: seg.filesize,
                },
            );
            i = i + 1;
        }
        MachOHeader {
            magic: parsed.magic,
            filetype: parsed.filetype,
            cpu_type: parsed.cpu_type,
            cpu_subtype: parsed.cpu_subtype,
            ncmds: parsed.ncmds,
            sizeofcmds: parsed.sizeofcmds,
            entry_offset: entry_offset_of(&parsed.main_entries),
            segments,
        }
    }

    pub fn parse_header(data: &[u8]) -> (r: Result<MachOHeader, CoreError>)
        requires
            !entry_wraps(data@),
        ensures
            match goblin_mach(data@) {
                Err(m) => r matches Err(CoreError::MachO(s)) && s@ == "goblin parse failed: "@ + m,
                Ok(None) => r matches Err(CoreError::MachO(s)) && s@
                    == "fat binaries not supported, extract first"@,
                Ok(Some(p)) => r matches Ok(h) && header_of(p, h),
            },
    {
        match parse_mach(data) {
            Err(message) => {
                let mut text = String::from_str("goblin parse failed: ");
                text.append(message.as_str());
                Err(CoreError::MachO(text))
            },
            Ok(None) => Err(
                CoreError::MachO(String::from_str("fat binaries not supported, extract first")),
            ),
            Ok(Some(parsed)) => Ok(Self::header_from_parse(&parsed)),
        }
    }
}

/// The lowest segment address, or 0 without segments.
pub open spec fn lowest_vmaddr(segs: Seq<MachOSegment>) -> u64
    decreases segs.len(),
{
    if segs.len() == 0 {
        0
    } else if segs.len() == 1 {
        segs[0].vmaddr
    } else {
        let rest = lowest_vmaddr(segs.drop_last());
        if segs.last().vmaddr < rest {
            segs.last().vmaddr
        } else {
            rest
        }
    }
}

/// The entry's address: the lowest segment address plus the entry offset, wrapping.
pub fn calculate_entry_address(header: &MachOHeader) -> (r: Result<u64, CoreError>)
    ensures
        r matches Ok(a) && a == ((lowest_vmaddr(header.segments@) + header.entry_offset)
            % 0x1_0000_0000_0000_0000) as u64,
{
    let segs = &header.segments;
    let mut base: u64 = 0;
    let mut i: usize = 0;
    while i < segs.len()
        invariant
            i <= segs@.len(),
            base == lowest_vmaddr(segs@.take(i as int)),
        decreases segs@.len() - i,
    {
        assert(segs@.take(i as int + 1).drop_last() =~= segs@.take(i as int));
        let v = segs[i].vmaddr;
        if i == 0 || v < base {
            base = v;
        }
        i = i + 1;
    }
    assert(segs@.take(i as int) =~= segs@);
    let sum = base as u128 + header.entry_offset as u128;
    Ok((sum % 0x1_0000_0000_0000_0000u128) as u64)
}

} // verus!

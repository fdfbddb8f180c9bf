//! The boot-argument handoff record: a fixed header, the memory map, the
//! command line and an optional device tree, in one little-endian buffer.
use vstd::prelude::*;
use vstd::utf8::{decode_utf8, encode_utf8, valid_utf8};

use crate::bytes::{le_u32, le_u64, lossy_string, push_slice, push_u32, push_u64, read_u32, read_u64, u32_bytes, u64_bytes, utf8_lossy};
use crate::error::CoreError;
use crate::flat_dt::str_bytes;

verus! {

pub const BOOT_ARGS_MAGIC: u32 = 0x4D656D41;

/// The packed header: magic, version, flags, memory-map, kernel, command-line
/// and device-tree words.
pub const HEADER_SIZE: usize = 56;

/// One memory-map entry on the wire: base, size and kind.
pub const ENTRY_SIZE: usize = 20;

#[derive(Debug, Clone)]
pub struct BootArgs {
    pub magic: u32,
    pub version: u32,
    pub flags: u64,
    pub memory_map: MemoryMap,
    pub kernel_base: u64,
    pub kernel_size: u64,
    pub command_line: String,
    pub device_tree: Option<DeviceTreeBuf>,
}

#[derive(Debug, Clone)]
pub struct MemoryMap {
    pub entries: Vec<MemoryEntry>,
    pub total_size: u64,
}

#[derive(Debug, Clone, Copy, PartialEq, Eq)]
pub struct MemoryEntry {
    pub base: u64,
    pub size: u64,
    pub kind: MemoryKind,
}

#[derive(Debug, Clone, Copy, PartialEq, Eq, Structural)]
pub enum MemoryKind {
    EfiReserved,
    EfiLoaderCode,
    EfiLoaderData,
    EfiBootServicesCode,
    EfiBootServicesData,
    EfiRuntimeServicesCode,
    EfiRuntimeServicesData,
    EfiConventional,
    EfiUnusable,
    EfiACPIReclaim,
    EfiACPINVS,
    EfiMemoryMap,
    EfiPersistent,
}

/// The EFI memory type code of a kind.
pub open spec fn kind_code(k: MemoryKind) -> u32 {
    match k {
        MemoryKind::EfiReserved => 0,
        MemoryKind::EfiLoaderCode => 1,
        MemoryKind::EfiLoaderData => 2,
        MemoryKind::EfiBootServicesCode => 3,
        MemoryKind::EfiBootServicesData => 4,
        MemoryKind::EfiRuntimeServicesCode => 5,
        MemoryKind::EfiRuntimeServicesData => 6,
        MemoryKind::EfiConventional => 7,
        MemoryKind::EfiUnusable => 8,
        MemoryKind::EfiACPIReclaim => 9,
        MemoryKind::EfiACPINVS => 10,
        MemoryKind::EfiMemoryMap => 11,
        MemoryKind::EfiPersistent => 12,
    }
}

/// The kind with code `v`, if there is one.
pub open spec fn kind_of(v: u32) -> Option<MemoryKind> {
    if v == 0 {
        Some(MemoryKind::EfiReserved)
    } else if v == 1 {
        Some(MemoryKind::EfiLoaderCode)
    } else if v == 2 {
        Some(MemoryKind::EfiLoaderData)
    } else if v == 3 {
        Some(MemoryKind::EfiBootServicesCode)
    } else if v == 4 {
        Some(MemoryKind::EfiBootServicesData)
    } else if v == 5 {
        Some(MemoryKind::EfiRuntimeServicesCode)
    } else if v == 6 {
        Some(MemoryKind::EfiRuntimeServicesData)
    } else if v == 7 {
        Some(MemoryKind::EfiConventional)
    } else if v == 8 {
        Some(MemoryKind::EfiUnusable)
    } else if v == 9 {
        Some(MemoryKind::EfiACPIReclaim)
    } else if v == 10 {
        Some(MemoryKind::EfiACPINVS)
    } else if v == 11 {
        Some(MemoryKind::EfiMemoryMap)
    } else if v == 12 {
        Some(MemoryKind::EfiPersistent)
    } else {
        None
    }
}

impl MemoryKind {
    pub fn from_u32(v: u32) -> (r: Option<Self>)
        ensures
            r == kind_of(v),
    {
        match v {
            0 => Some(MemoryKind::EfiReserved),
            1 => Some(MemoryKind::EfiLoaderCode),
            2 => Some(MemoryKind::EfiLoaderData),
            3 => Some(MemoryKind::EfiBootServicesCode),
            4 => Some(MemoryKind::EfiBootServicesData),
            5 => Some(MemoryKind::EfiRuntimeServicesCode),
            6 => Some(MemoryKind::EfiRuntimeServicesData),
            7 => Some(MemoryKind::EfiConventional),
            8 => Some(MemoryKind::EfiUnusable),
            9 => Some(MemoryKind::EfiACPIReclaim),
            10 => Some(MemoryKind::EfiACPINVS),
            11 => Some(MemoryKind::EfiMemoryMap),
            12 => Some(MemoryKind::EfiPersistent),
            _ => None,
        }
    }

    /// The EFI memory type code of this kind.
    pub fn as_u32(&self) -> (r: u32)
        ensures
            r == kind_code(*self),
    {
        match self {
            MemoryKind::EfiReserved => 0,
            MemoryKind::EfiLoaderCode => 1,
            MemoryKind::EfiLoaderData => 2,
            MemoryKind::EfiBootServicesCode => 3,
            MemoryKind::EfiBootServicesData => 4,
            MemoryKind::EfiRuntimeServicesCode => 5,
            MemoryKind::EfiRuntimeServicesData => 6,
            MemoryKind::EfiConventional => 7,
            MemoryKind::EfiUnusable => 8,
            MemoryKind::EfiACPIReclaim => 9,
            MemoryKind::EfiACPINVS => 10,
            MemoryKind::EfiMemoryMap => 11,
            MemoryKind::EfiPersistent => 12,
        }
    }
}

/// Every kind's code decodes back to the kind.
pub proof fn lemma_kind_code_roundtrip(k: MemoryKind)
    ensures
        kind_of(kind_code(k)) == Some(k),
{
}

#[derive(Debug, Clone)]
pub struct DeviceTreeBuf {
    pub data: Vec<u8>,
}

// ---------------------------------------------------------------------------
// The wire form.

#[verifier::opaque]
pub open spec fn entry_wire(e: MemoryEntry) -> Seq<u8> {
    u64_bytes(e.base) + u64_bytes(e.size) + u32_bytes(kind_code(e.kind))
}

pub open spec fn entries_wire(es: Seq<MemoryEntry>) -> Seq<u8>
    decreases es.len(),
{
    if es.len() == 0 {
        Seq::empty()
    } else {
        entries_wire(es.drop_last()) + entry_wire(es.last())
    }
}

pub open spec fn command_bytes(a: BootArgs) -> Seq<u8> {
    str_bytes(a.command_line)
}

pub open spec fn tree_bytes(a: BootArgs) -> Seq<u8> {
    match a.device_tree {
        Some(d) => d.data@,
        None => Seq::empty(),
    }
}

#[verifier::opaque]
pub open spec fn header_wire(a: BootArgs) -> Seq<u8> {
    let n = a.memory_map.entries@.len();
    let map_size = (ENTRY_SIZE * n) as u32;
    let cmd = command_bytes(a).len();
    u32_bytes(a.magic) + u32_bytes(a.version) + u64_bytes(a.flags) + u32_bytes(HEADER_SIZE as u32)
        + u32_bytes(map_size) + u64_bytes(a.kernel_base) + u64_bytes(a.kernel_size) + u32_bytes(
        (HEADER_SIZE + ENTRY_SIZE * n) as u32,
    ) + u32_bytes(cmd as u32) + u32_bytes((HEADER_SIZE + ENTRY_SIZE * n + cmd) as u32) + u32_bytes(
        tree_bytes(a).len() as u32,
    )
}

/// The serialized record: header, entries, command line, device tree.
pub open spec fn wire_boot_args(a: BootArgs) -> Seq<u8> {
    header_wire(a) + entries_wire(a.memory_map.entries@) + command_bytes(a) + tree_bytes(a)
}

/// The offsets the header computes fit its 32-bit words.
pub open spec fn serializable(a: BootArgs) -> bool {
    HEADER_SIZE + ENTRY_SIZE * a.memory_map.entries@.len() + command_bytes(a).len() <= u32::MAX
}

pub proof fn lemma_entries_wire_len(es: Seq<MemoryEntry>)
    ensures
        entries_wire(es).len() == ENTRY_SIZE * es.len(),
    decreases es.len(),
{
    if es.len() > 0 {
        lemma_entries_wire_len(es.drop_last());
        reveal(entry_wire);
        lemma_u64_len(es.last().base);
        lemma_u64_len(es.last().size);
    }
}

proof fn lemma_u64_len(x: u64)
    ensures
        u64_bytes(x).len() == 8,
{
}

/// Entry `i` occupies bytes `20 i .. 20 i + 20` of the entries' wire form.
pub proof fn lemma_entries_wire_at(es: Seq<MemoryEntry>, i: int)
    requires
        0 <= i < es.len(),
    ensures
        entries_wire(es).subrange(ENTRY_SIZE * i, ENTRY_SIZE * i + ENTRY_SIZE) == entry_wire(es[i]),
    decreases es.len(),
{
    lemma_entries_wire_len(es.drop_last());
    let prefix = entries_wire(es.drop_last());
    assert(entry_wire(es.last()).len() == ENTRY_SIZE) by {
        reveal(entry_wire);
    }
    if i == es.len() - 1 {
        assert(entries_wire(es).subrange(ENTRY_SIZE * i, ENTRY_SIZE * i + ENTRY_SIZE) =~= entry_wire(es.last()));
    } else {
        lemma_entries_wire_at(es.drop_last(), i);
        assert(entries_wire(es).subrange(ENTRY_SIZE * i, ENTRY_SIZE * i + ENTRY_SIZE) =~= prefix.subrange(
            ENTRY_SIZE * i,
            ENTRY_SIZE * i + ENTRY_SIZE,
        ));
    }
}

/// The little-endian word at `k` is the one written there.
proof fn lemma_le_u32_at(s: Seq<u8>, k: int, x: u32)
    requires
        0 <= k,
        k + 4 <= s.len(),
        s.subrange(k, k + 4) == u32_bytes(x),
    ensures
        le_u32(s, k) == x,
{
    crate::bytes::lemma_u32_bytes(x);
    let t = s.subrange(k, k + 4);
    assert(t[0] == s[k] && t[1] == s[k + 1] && t[2] == s[k + 2] && t[3] == s[k + 3]);
}

proof fn lemma_le_u64_at(s: Seq<u8>, k: int, x: u64)
    requires
        0 <= k,
        k + 8 <= s.len(),
        s.subrange(k, k + 8) == u64_bytes(x),
    ensures
        le_u64(s, k) == x,
{
    crate::bytes::lemma_u64_bytes(x);
    let t = s.subrange(k, k + 8);
    assert(t[0] == s[k] && t[1] == s[k + 1] && t[2] == s[k + 2] && t[3] == s[k + 3]);
    assert(t[4] == s[k + 4] && t[5] == s[k + 5] && t[6] == s[k + 6] && t[7] == s[k + 7]);
}

// ---------------------------------------------------------------------------
// Serialization.

fn entries_bytes(entries: &Vec<MemoryEntry>) -> (r: Vec<u8>)
    ensures
        r@ == entries_wire(entries@),
{
    let mut buf: Vec<u8> = Vec::new();
    let mut i: usize = 0;
    while i < entries.len()
        invariant
            i <= entries@.len(),
            buf@ == entries_wire(entries@.take(i as int)),
        decreases entries@.len() - i,
    {
        let e = entries[i];
        let ghost before = buf@;
        push_u64(&mut buf, e.base);
        push_u64(&mut buf, e.size);
        push_u32(&mut buf, e.kind.as_u32());
        proof {
            let t = entries@.take(i + 1);
            assert(t.drop_last() =~= entries@.take(i as int));
            assert(t.last() == e);
            reveal(entry_wire);
            assert(buf@ =~= before + entry_wire(e));
        }
        i = i + 1;
    }
    assert(entries@.take(i as int) =~= entries@);
    buf
}

pub fn serialize_boot_args(args: &BootArgs) -> (r: Result<Vec<u8>, CoreError>)
    requires
        serializable(*args),
    ensures
        (r matches Ok(b) && b@ == wire_boot_args(*args)),
{
    let entries = entries_bytes(&args.memory_map.entries);
    proof {
        lemma_entries_wire_len(args.memory_map.entries@);
    }
    let cmd_bytes = crate::flat_dt::string_bytes(&args.command_line);
    let empty: Vec<u8> = Vec::new();
    let dt_bytes: &[u8] = match &args.device_tree {
        Some(dt) => dt.data.as_slice(),
        None => empty.as_slice(),
    };
    let memory_map_offset: u32 = HEADER_SIZE as u32;
    let memory_map_size = entries.len() as u32;
    let command_line_offset = memory_map_offset + memory_map_size;
    let command_line_size = cmd_bytes.len() as u32;
    let device_tree_offset = command_line_offset + command_line_size;
    let device_tree_size = dt_bytes.len() as u32;
    let mut buf: Vec<u8> = Vec::new();
    push_u32(&mut buf, args.magic);
    push_u32(&mut buf, args.version);
    push_u64(&mut buf, args.flags);
    push_u32(&mut buf, memory_map_offset);
    push_u32(&mut buf, memory_map_size);
    push_u64(&mut buf, args.kernel_base);
    push_u64(&mut buf, args.kernel_size);
    push_u32(&mut buf, command_line_offset);
    push_u32(&mut buf, command_line_size);
    push_u32(&mut buf, device_tree_offset);
    push_u32(&mut buf, device_tree_size);
    assert(buf@ =~= header_wire(*args)) by {
        reveal(header_wire);
    }
    push_slice(&mut buf, entries.as_slice());
    push_slice(&mut buf, cmd_bytes);
    push_slice(&mut buf, dt_bytes);
    assert(buf@ =~= wire_boot_args(*args));
    Ok(buf)
}

// ---------------------------------------------------------------------------
// Deserialization.

/// The memory-map words of a header.
pub open spec fn map_offset(d: Seq<u8>) -> int {
    le_u32(d, 16)
}

pub open spec fn map_count(d: Seq<u8>) -> int {
    le_u32(d, 20) / (ENTRY_SIZE as int)
}

/// How many memory-map entries the parse reads before the data ends.
pub open spec fn parsed_entries(d: Seq<u8>) -> int {
    let fit = if map_offset(d) > d.len() {
        0
    } else {
        (d.len() - map_offset(d)) / (ENTRY_SIZE as int)
    };
    if map_count(d) < fit {
        map_count(d)
    } else {
        fit
    }
}

pub open spec fn entry_at(d: Seq<u8>, i: int) -> int {
    map_offset(d) + ENTRY_SIZE * i
}

/// The sum of the first `k` parsed entry sizes.
pub open spec fn sizes_sum(d: Seq<u8>, k: nat) -> int
    decreases k,
{
    if k == 0 {
        0
    } else {
        sizes_sum(d, (k - 1) as nat) + le_u64(d, entry_at(d, k - 1) + 8)
    }
}

/// Every parsed entry carries a known kind.
pub open spec fn kinds_known(d: Seq<u8>) -> bool {
    forall|i: int| 0 <= i < parsed_entries(d) ==> (#[trigger] kind_of(le_u32(d, entry_at(d, i) + 16) as u32)) is Some
}

/// The total of the parsed entry sizes overflows: the one input that makes
/// the original total computation trap.
pub open spec fn total_overflows(d: Seq<u8>) -> bool {
    &&& d.len() >= HEADER_SIZE
    &&& le_u32(d, 0) == BOOT_ARGS_MAGIC
    &&& kinds_known(d)
    &&& sizes_sum(d, parsed_entries(d) as nat) > u64::MAX
}

/// The sum of the entry sizes of a memory map.
pub open spec fn entry_sizes(es: Seq<MemoryEntry>) -> int
    decreases es.len(),
{
    if es.len() == 0 {
        0
    } else {
        entry_sizes(es.drop_last()) + es.last().size
    }
}

/// Records the round trip reproduces: serializable, with the magic, a device
/// tree that is absent or nonempty and fits its word, and sizes whose total
/// fits.
pub open spec fn roundtrips(a: BootArgs) -> bool {
    &&& serializable(a)
    &&& a.magic == BOOT_ARGS_MAGIC
    &&& tree_bytes(a).len() <= u32::MAX
    &&& (a.device_tree matches Some(t) ==> t.data@.len() > 0)
    &&& entry_sizes(a.memory_map.entries@) <= u64::MAX
}

/// `b` holds every field of `a`, with the total of its entry sizes.
pub open spec fn same_args(b: BootArgs, a: BootArgs) -> bool {
    &&& b.magic == a.magic
    &&& b.version == a.version
    &&& b.flags == a.flags
    &&& b.kernel_base == a.kernel_base
    &&& b.kernel_size == a.kernel_size
    &&& b.memory_map.entries@ == a.memory_map.entries@
    &&& b.memory_map.total_size == entry_sizes(a.memory_map.entries@)
    &&& b.command_line@ == a.command_line@
    &&& match (b.device_tree, a.device_tree) {
        (Some(x), Some(y)) => x.data@ == y.data@,
        (None, None) => true,
        _ => false,
    }
}

fn handoff_error(message: &str) -> (r: CoreError)
    ensures
        r is Handoff,
{
    CoreError::Handoff(String::from_str(message))
}

fn read32(data: &[u8], at: u64) -> (r: u32)
    requires
        at + 4 <= data@.len(),
    ensures
        r == le_u32(data@, at as int),
{
    let _n = data.len();
    read_u32(data, at as usize)
}

fn read64(data: &[u8], at: u64) -> (r: u64)
    requires
        at + 8 <= data@.len(),
    ensures
        r == le_u64(data@, at as int),
{
    let _n = data.len();
    read_u64(data, at as usize)
}

/// The entry the parse reads at index `i`.
pub open spec fn parsed_entry(d: Seq<u8>, i: int) -> MemoryEntry {
    MemoryEntry {
        base: le_u64(d, entry_at(d, i)) as u64,
        size: le_u64(d, entry_at(d, i) + 8) as u64,
        kind: kind_of(le_u32(d, entry_at(d, i) + 16) as u32).unwrap(),
    }
}

/// The command-line bytes the header points at.
pub open spec fn command_range(d: Seq<u8>) -> Seq<u8> {
    d.subrange(le_u32(d, 40), le_u32(d, 40) + le_u32(d, 44))
}

/// The device-tree bytes the header points at.
pub open spec fn tree_range(d: Seq<u8>) -> Seq<u8> {
    d.subrange(le_u32(d, 48), le_u32(d, 48) + le_u32(d, 52))
}

/// What a successful parse of `d` holds.
pub open spec fn parsed_from(b: BootArgs, d: Seq<u8>) -> bool {
    &&& d.len() >= HEADER_SIZE
    &&& b.magic == BOOT_ARGS_MAGIC
    &&& b.magic == le_u32(d, 0)
    &&& b.version == le_u32(d, 4)
    &&& b.flags == le_u64(d, 8)
    &&& b.kernel_base == le_u64(d, 24)
    &&& b.kernel_size == le_u64(d, 32)
    &&& b.memory_map.entries@.len() == parsed_entries(d)
    &&& forall|k: int| 0 <= k < parsed_entries(d) ==> #[trigger] b.memory_map.entries@[k] == parsed_entry(d, k)
    &&& b.memory_map.total_size == sizes_sum(d, parsed_entries(d) as nat)
    &&& le_u32(d, 40) + le_u32(d, 44) <= d.len()
    &&& b.command_line@ == utf8_lossy(command_range(d))
    &&& (valid_utf8(command_range(d)) ==> b.command_line@ == decode_utf8(command_range(d)))
    &&& (le_u32(d, 52) == 0 ==> b.device_tree is None)
    &&& (le_u32(d, 52) > 0 ==> (b.device_tree matches Some(t) && le_u32(d, 48) + le_u32(d, 52) <= d.len()
        && t.data@ == tree_range(d)))
}

#[verifier::loop_isolation(false)]
fn parse_boot_args(data: &[u8]) -> (r: Result<BootArgs, CoreError>)
    requires
        !total_overflows(data@),
    ensures
        r matches Ok(b) ==> parsed_from(b, data@),
        r is Err ==> data@.len() < HEADER_SIZE || le_u32(data@, 0) != BOOT_ARGS_MAGIC || !kinds_known(data@)
            || le_u32(data@, 40) + le_u32(data@, 44) > data@.len() || (le_u32(data@, 52) > 0 && le_u32(data@, 48)
            + le_u32(data@, 52) > data@.len()),
        data@.len() < HEADER_SIZE ==> r matches Err(CoreError::Handoff(_)),
        data@.len() >= HEADER_SIZE && le_u32(data@, 0) != BOOT_ARGS_MAGIC ==> (r matches Err(
            CoreError::InvalidMagic { expected, got },
        ) && expected == BOOT_ARGS_MAGIC && got == le_u32(data@, 0)),
        r matches Ok(b) ==> {
            &&& data@.len() >= HEADER_SIZE
            &&& b.magic == BOOT_ARGS_MAGIC
            &&& b.version == le_u32(data@, 4)
            &&& b.flags == le_u64(data@, 8)
            &&& b.kernel_base == le_u64(data@, 24)
            &&& b.kernel_size == le_u64(data@, 32)
            &&& b.memory_map.entries@.len() == parsed_entries(data@)
            &&& b.memory_map.total_size == sizes_sum(data@, parsed_entries(data@) as nat)
        },
{
    let _n = data.len();
    if data.len() < HEADER_SIZE {
        let message = String::from_str("buffer too short: need 56 bytes, have ").concat(
            data.len().to_string().as_str(),
        );
        return Err(CoreError::Handoff(message));
    }
    let magic = read_u32(data, 0);
    if magic != BOOT_ARGS_MAGIC {
        return Err(CoreError::InvalidMagic { expected: BOOT_ARGS_MAGIC, got: magic });
    }
    let version = read_u32(data, 4);
    let flags = read_u64(data, 8);
    let memory_map_offset = read_u32(data, 16) as u64;
    let memory_map_size = read_u32(data, 20) as u64;
    let kernel_base = read_u64(data, 24);
    let kernel_size = read_u64(data, 32);
    let command_line_offset = read_u32(data, 40) as u64;
    let command_line_size = read_u32(data, 44) as u64;
    let device_tree_offset = read_u32(data, 48) as u64;
    let device_tree_size = read_u32(data, 52) as u64;
    let len = data.len() as u64;
    let mut entries: Vec<MemoryEntry> = Vec::new();
    let entry_count = memory_map_size / 20;
    let mut i: u64 = 0;
    while i < entry_count
        invariant
            entries@.len() == i,
            i <= entry_count == map_count(data@),
            memory_map_offset == map_offset(data@),
            i <= parsed_entries(data@),
            forall|k: int| 0 <= k < i ==> (#[trigger] entries@[k]).size == le_u64(data@, entry_at(data@, k) + 8),
            forall|k: int| 0 <= k < i ==> #[trigger] entries@[k] == parsed_entry(data@, k),
            forall|k: int| 0 <= k < i ==> (#[trigger] kind_of(le_u32(data@, entry_at(data@, k) + 16) as u32)) is Some,
        decreases entry_count - i,
    {
        let base_off = memory_map_offset + i * 20;
        if base_off + 20 > len {
            assert(i == parsed_entries(data@));
            break;
        }
        let base = read64(data, base_off);
        let size = read64(data, base_off + 8);
        let kind_raw = read32(data, base_off + 16);
        let kind = match MemoryKind::from_u32(kind_raw) {
            Some(k) => k,
            None => {
                assert(!kinds_known(data@)) by {
                    assert(kind_of(le_u32(data@, entry_at(data@, i as int) + 16) as u32) is None);
                }
                let message = String::from_str("unknown memory kind: ").concat(kind_raw.to_string().as_str());
                return Err(CoreError::Handoff(message));
            },
        };
        entries.push(MemoryEntry { base, size, kind });
        i = i + 1;
    }
    assert(entries@.len() == parsed_entries(data@));
    let mut total: u64 = 0;
    let mut k: usize = 0;
    while k < entries.len()
        invariant
            k <= entries@.len() == parsed_entries(data@),
            !total_overflows(data@),
            le_u32(data@, 0) == BOOT_ARGS_MAGIC,
            data@.len() >= HEADER_SIZE,
            kinds_known(data@),
            total == sizes_sum(data@, k as nat),
            forall|j: int| 0 <= j < entries@.len() ==> (#[trigger] entries@[j]).size == le_u64(data@, entry_at(data@, j) + 8),
        decreases entries@.len() - k,
    {
        proof {
            lemma_sizes_sum_monotone(data@, (k + 1) as nat, parsed_entries(data@) as nat);
        }
        total = total + entries[k].size;
        k = k + 1;
    }
    let command_line_end = command_line_offset + command_line_size;
    if command_line_end > len {
        return Err(handoff_error("command line extends beyond data"));
    }
    let command_text = &data[command_line_offset as usize..command_line_end as usize];
    assert(command_text@ == command_range(data@));
    let command_line = lossy_string(command_text);
    let device_tree = if device_tree_size > 0 {
        let dt_end = device_tree_offset + device_tree_size;
        if dt_end > len {
            return Err(handoff_error("device tree extends beyond data"));
        }
        Some(DeviceTreeBuf { data: crate::bytes::sub_vec(data, device_tree_offset as usize, dt_end as usize) })
    } else {
        None
    };
    Ok(BootArgs {
        magic,
        version,
        flags,
        memory_map: MemoryMap { entries, total_size: total },
        kernel_base,
        kernel_size,
        command_line,
        device_tree,
    })
}

/// Parse a boot-argument record.
///
/// A record that `serialize_boot_args` wrote is read back whole: every field,
/// the memory map and the command line as they were, the total of the entry
/// sizes, and the device tree unless it was present but empty.
pub fn deserialize_boot_args(data: &[u8]) -> (r: Result<BootArgs, CoreError>)
    requires
        !total_overflows(data@),
    ensures
        data@.len() < HEADER_SIZE ==> r matches Err(CoreError::Handoff(_)),
        data@.len() >= HEADER_SIZE && le_u32(data@, 0) != BOOT_ARGS_MAGIC ==> (r matches Err(
            CoreError::InvalidMagic { expected, got },
        ) && expected == BOOT_ARGS_MAGIC && got == le_u32(data@, 0)),
        r matches Ok(b) ==> parsed_from(b, data@),
        r is Err ==> data@.len() < HEADER_SIZE || le_u32(data@, 0) != BOOT_ARGS_MAGIC || !kinds_known(data@)
            || le_u32(data@, 40) + le_u32(data@, 44) > data@.len() || (le_u32(data@, 52) > 0 && le_u32(data@, 48)
            + le_u32(data@, 52) > data@.len()),
        forall|a: BootArgs| #[trigger] wire_boot_args(a) == data@ && roundtrips(a) ==> (r matches Ok(b) && same_args(b, a)),
{
    let r = parse_boot_args(data);
    proof {
        assert forall|a: BootArgs| #[trigger] wire_boot_args(a) == data@ && roundtrips(a) implies (r matches Ok(b) && same_args(b, a)) by {
            lemma_wire_layout(a);
            lemma_roundtrip_fields(a, data@);
            if let Ok(b) = r {
                assert(b.memory_map.entries@ =~= a.memory_map.entries@);
            }
        }
    }
    r
}

/// The header words, read back from the header alone.
#[verifier::rlimit(40)]
proof fn lemma_header_words(a: BootArgs)
    requires
        serializable(a),
        tree_bytes(a).len() <= u32::MAX,
    ensures
        ({
            let h = header_wire(a);
            let n = a.memory_map.entries@.len();
            let c = command_bytes(a).len();
            &&& h.len() == HEADER_SIZE
            &&& le_u32(h, 0) == a.magic
            &&& le_u32(h, 4) == a.version
            &&& le_u64(h, 8) == a.flags
            &&& le_u32(h, 16) == HEADER_SIZE
            &&& le_u32(h, 20) == ENTRY_SIZE * n
            &&& le_u64(h, 24) == a.kernel_base
            &&& le_u64(h, 32) == a.kernel_size
            &&& le_u32(h, 40) == HEADER_SIZE + ENTRY_SIZE * n
            &&& le_u32(h, 44) == c
            &&& le_u32(h, 48) == HEADER_SIZE + ENTRY_SIZE * n + c
            &&& le_u32(h, 52) == tree_bytes(a).len()
        }),
{
    reveal(header_wire);
    let h = header_wire(a);
    let n = a.memory_map.entries@.len();
    let c = command_bytes(a).len();
    let map_size = (ENTRY_SIZE * n) as u32;
    assert(h.subrange(0, 4) =~= u32_bytes(a.magic));
    assert(h.subrange(4, 8) =~= u32_bytes(a.version));
    assert(h.subrange(8, 16) =~= u64_bytes(a.flags));
    assert(h.subrange(16, 20) =~= u32_bytes(HEADER_SIZE as u32));
    assert(h.subrange(20, 24) =~= u32_bytes(map_size));
    assert(h.subrange(24, 32) =~= u64_bytes(a.kernel_base));
    assert(h.subrange(32, 40) =~= u64_bytes(a.kernel_size));
    assert(h.subrange(40, 44) =~= u32_bytes((HEADER_SIZE + ENTRY_SIZE * n) as u32));
    assert(h.subrange(44, 48) =~= u32_bytes(c as u32));
    assert(h.subrange(48, 52) =~= u32_bytes((HEADER_SIZE + ENTRY_SIZE * n + c) as u32));
    assert(h.subrange(52, 56) =~= u32_bytes(tree_bytes(a).len() as u32));
    lemma_le_u32_at(h, 0, a.magic);
    lemma_le_u32_at(h, 4, a.version);
    lemma_le_u64_at(h, 8, a.flags);
    lemma_le_u32_at(h, 16, HEADER_SIZE as u32);
    lemma_le_u32_at(h, 20, map_size);
    lemma_le_u64_at(h, 24, a.kernel_base);
    lemma_le_u64_at(h, 32, a.kernel_size);
    lemma_le_u32_at(h, 40, (HEADER_SIZE + ENTRY_SIZE * n) as u32);
    lemma_le_u32_at(h, 44, c as u32);
    lemma_le_u32_at(h, 48, (HEADER_SIZE + ENTRY_SIZE * n + c) as u32);
    lemma_le_u32_at(h, 52, tree_bytes(a).len() as u32);
}

/// Words inside a prefix read the same in the whole sequence.
proof fn lemma_prefix_words(d: Seq<u8>, h: Seq<u8>)
    requires
        h.len() <= d.len(),
        d.subrange(0, h.len() as int) == h,
    ensures
        forall|k: int| 0 <= k && k + 4 <= h.len() ==> #[trigger] le_u32(d, k) == le_u32(h, k),
        forall|k: int| 0 <= k && k + 8 <= h.len() ==> #[trigger] le_u64(d, k) == le_u64(h, k),
{
    assert forall|k: int| 0 <= k && k + 4 <= h.len() implies #[trigger] le_u32(d, k) == le_u32(h, k) by {
        assert(d[k] == h[k] && d[k + 1] == h[k + 1] && d[k + 2] == h[k + 2] && d[k + 3] == h[k + 3]);
    }
    assert forall|k: int| 0 <= k && k + 8 <= h.len() implies #[trigger] le_u64(d, k) == le_u64(h, k) by {
        assert(d[k] == h[k] && d[k + 1] == h[k + 1] && d[k + 2] == h[k + 2] && d[k + 3] == h[k + 3]);
        assert(d[k + 4] == h[k + 4] && d[k + 5] == h[k + 5] && d[k + 6] == h[k + 6] && d[k + 7] == h[k + 7]);
    }
}

/// Words inside a window of a sequence read as in the window alone.
proof fn lemma_window_words(s: Seq<u8>, at: int, w: Seq<u8>)
    requires
        0 <= at,
        at + w.len() <= s.len(),
        s.subrange(at, at + w.len()) == w,
    ensures
        forall|k: int| 0 <= k && k + 4 <= w.len() ==> #[trigger] le_u32(s, at + k) == le_u32(w, k),
        forall|k: int| 0 <= k && k + 8 <= w.len() ==> #[trigger] le_u64(s, at + k) == le_u64(w, k),
{
    assert forall|k: int| 0 <= k && k + 4 <= w.len() implies #[trigger] le_u32(s, at + k) == le_u32(w, k) by {
        assert(s[at + k] == w[k] && s[at + k + 1] == w[k + 1] && s[at + k + 2] == w[k + 2] && s[at + k + 3] == w[k + 3]);
    }
    assert forall|k: int| 0 <= k && k + 8 <= w.len() implies #[trigger] le_u64(s, at + k) == le_u64(w, k) by {
        assert(s[at + k] == w[k] && s[at + k + 1] == w[k + 1] && s[at + k + 2] == w[k + 2] && s[at + k + 3] == w[k + 3]);
        assert(s[at + k + 4] == w[k + 4] && s[at + k + 5] == w[k + 5] && s[at + k + 6] == w[k + 6] && s[at + k + 7] == w[k + 7]);
    }
}

/// The words of one entry's wire form.
proof fn lemma_entry_words(e: MemoryEntry)
    ensures
        entry_wire(e).len() == ENTRY_SIZE,
        le_u64(entry_wire(e), 0) == e.base,
        le_u64(entry_wire(e), 8) == e.size,
        le_u32(entry_wire(e), 16) == kind_code(e.kind),
{
    reveal(entry_wire);
    let w = entry_wire(e);
    assert(w.subrange(0, 8) =~= u64_bytes(e.base));
    assert(w.subrange(8, 16) =~= u64_bytes(e.size));
    assert(w.subrange(16, 20) =~= u32_bytes(kind_code(e.kind)));
    lemma_le_u64_at(w, 0, e.base);
    lemma_le_u64_at(w, 8, e.size);
    lemma_le_u32_at(w, 16, kind_code(e.kind));
}

/// Entry `i` of the entries that follow a 56-byte header reads back as
/// written.
proof fn lemma_entry_read_back(h: Seq<u8>, es: Seq<MemoryEntry>, rest: Seq<u8>, i: int)
    requires
        0 <= i < es.len(),
        h.len() == HEADER_SIZE,
    ensures
        ({
            let d = h + entries_wire(es) + rest;
            let at = HEADER_SIZE + ENTRY_SIZE * i;
            &&& le_u64(d, at) == es[i].base
            &&& le_u64(d, at + 8) == es[i].size
            &&& le_u32(d, at + 16) == kind_code(es[i].kind)
        }),
{
    let d = h + entries_wire(es) + rest;
    lemma_entries_wire_len(es);
    lemma_entries_wire_at(es, i);
    let at = HEADER_SIZE + ENTRY_SIZE * i;
    let ew = entry_wire(es[i]);
    lemma_entry_words(es[i]);
    assert(d.subrange(at, at + 20) =~= entries_wire(es).subrange(ENTRY_SIZE * i, ENTRY_SIZE * i + ENTRY_SIZE));
    lemma_window_words(d, at, ew);
    assert(le_u64(d, at + 0) == le_u64(ew, 0));
    assert(le_u64(d, at + 8) == le_u64(ew, 8));
    assert(le_u32(d, at + 16) == le_u32(ew, 16));
}

/// The words and ranges of a serialized record, read back.
proof fn lemma_wire_layout(a: BootArgs)
    requires
        serializable(a),
        tree_bytes(a).len() <= u32::MAX,
    ensures
        ({
            let d = wire_boot_args(a);
            let n = a.memory_map.entries@.len();
            let c = command_bytes(a).len();
            &&& d.len() == HEADER_SIZE + ENTRY_SIZE * n + c + tree_bytes(a).len()
            &&& le_u32(d, 0) == a.magic
            &&& le_u32(d, 4) == a.version
            &&& le_u64(d, 8) == a.flags
            &&& le_u32(d, 16) == HEADER_SIZE
            &&& le_u32(d, 20) == ENTRY_SIZE * n
            &&& le_u64(d, 24) == a.kernel_base
            &&& le_u64(d, 32) == a.kernel_size
            &&& le_u32(d, 40) == HEADER_SIZE + ENTRY_SIZE * n
            &&& le_u32(d, 44) == c
            &&& le_u32(d, 48) == HEADER_SIZE + ENTRY_SIZE * n + c
            &&& le_u32(d, 52) == tree_bytes(a).len()
            &&& d.subrange(HEADER_SIZE + ENTRY_SIZE * n, HEADER_SIZE + ENTRY_SIZE * n + c) == command_bytes(a)
            &&& d.subrange(HEADER_SIZE + ENTRY_SIZE * n + c, d.len() as int) == tree_bytes(a)
            &&& forall|i: int| 0 <= i < n ==> entry_words_at(d, i, #[trigger] a.memory_map.entries@[i])
        }),
{
    let d = wire_boot_args(a);
    let es = a.memory_map.entries@;
    let n = es.len();
    let c = command_bytes(a).len();
    let h = header_wire(a);
    lemma_entries_wire_len(es);
    lemma_header_words(a);
    let body = entries_wire(es) + command_bytes(a) + tree_bytes(a);
    assert(d =~= h + body);
    assert(d.subrange(0, HEADER_SIZE as int) =~= h);
    lemma_prefix_words(d, h);
    assert(le_u32(d, 0) == le_u32(h, 0));
    assert(le_u32(d, 4) == le_u32(h, 4));
    assert(le_u64(d, 8) == le_u64(h, 8));
    assert(le_u32(d, 16) == le_u32(h, 16));
    assert(le_u32(d, 20) == le_u32(h, 20));
    assert(le_u64(d, 24) == le_u64(h, 24));
    assert(le_u64(d, 32) == le_u64(h, 32));
    assert(le_u32(d, 40) == le_u32(h, 40));
    assert(le_u32(d, 44) == le_u32(h, 44));
    assert(le_u32(d, 48) == le_u32(h, 48));
    assert(le_u32(d, 52) == le_u32(h, 52));
    assert(d.subrange(HEADER_SIZE + ENTRY_SIZE * n, HEADER_SIZE + ENTRY_SIZE * n + c) =~= command_bytes(a));
    assert(d.subrange(HEADER_SIZE + ENTRY_SIZE * n + c, d.len() as int) =~= tree_bytes(a));
    let rest = command_bytes(a) + tree_bytes(a);
    assert(d =~= h + entries_wire(es) + rest);
    assert forall|i: int| 0 <= i < n implies entry_words_at(d, i, #[trigger] a.memory_map.entries@[i]) by {
        lemma_entry_read_back(h, es, rest, i);
    }
}

/// Entry `e` is written at index `i` of a record whose map follows the header.
pub open spec fn entry_words_at(d: Seq<u8>, i: int, e: MemoryEntry) -> bool {
    &&& le_u64(d, HEADER_SIZE + ENTRY_SIZE * i) == e.base
    &&& le_u64(d, HEADER_SIZE + ENTRY_SIZE * i + 8) == e.size
    &&& le_u32(d, HEADER_SIZE + ENTRY_SIZE * i + 16) == kind_code(e.kind)
}

/// The parse of a serialized record succeeds and reads back its fields.
proof fn lemma_roundtrip_fields(a: BootArgs, d: Seq<u8>)
    requires
        d == wire_boot_args(a),
        roundtrips(a),
        ({
            let n = a.memory_map.entries@.len();
            let c = command_bytes(a).len();
            &&& d.len() == HEADER_SIZE + ENTRY_SIZE * n + c + tree_bytes(a).len()
            &&& le_u32(d, 16) == HEADER_SIZE
            &&& le_u32(d, 20) == ENTRY_SIZE * n
            &&& forall|i: int| 0 <= i < n ==> entry_words_at(d, i, #[trigger] a.memory_map.entries@[i])
        }),
    ensures
        parsed_entries(d) == a.memory_map.entries@.len(),
        forall|i: int| 0 <= i < a.memory_map.entries@.len() ==> #[trigger] parsed_entry(d, i) == a.memory_map.entries@[i],
        kinds_known(d),
        sizes_sum(d, parsed_entries(d) as nat) == entry_sizes(a.memory_map.entries@),
        valid_utf8(command_bytes(a)),
        decode_utf8(command_bytes(a)) == a.command_line@,
{
    let es = a.memory_map.entries@;
    let n = es.len();
    lemma_parsed_count(d, n);
    assert forall|i: int| 0 <= i < n implies #[trigger] parsed_entry(d, i) == es[i] by {
        assert(entry_words_at(d, i, es[i]));
        lemma_kind_code_roundtrip(es[i].kind);
        assert(entry_at(d, i) == HEADER_SIZE + ENTRY_SIZE * i);
    }
    lemma_kinds_known(d, es);
    lemma_sizes_sum_entries(d, es, n as nat);
    assert(es.take(n as int) =~= es);
    vstd::utf8::encode_utf8_valid_utf8(a.command_line@);
    vstd::utf8::encode_utf8_decode_utf8(a.command_line@);
}

proof fn lemma_parsed_count(d: Seq<u8>, n: nat)
    requires
        le_u32(d, 16) == HEADER_SIZE,
        le_u32(d, 20) == ENTRY_SIZE * n,
        d.len() >= HEADER_SIZE + ENTRY_SIZE * n,
    ensures
        parsed_entries(d) == n,
{
    assert(map_count(d) == n);
    assert((d.len() - HEADER_SIZE) / (ENTRY_SIZE as int) >= n);
}

proof fn lemma_kinds_known(d: Seq<u8>, es: Seq<MemoryEntry>)
    requires
        parsed_entries(d) == es.len(),
        le_u32(d, 16) == HEADER_SIZE,
        forall|i: int| 0 <= i < es.len() ==> entry_words_at(d, i, #[trigger] es[i]),
    ensures
        kinds_known(d),
{
    assert forall|i: int| 0 <= i < parsed_entries(d) implies (#[trigger] kind_of(le_u32(d, entry_at(d, i) + 16) as u32)) is Some by {
        assert(entry_words_at(d, i, es[i]));
        assert(entry_at(d, i) == HEADER_SIZE + ENTRY_SIZE * i);
        lemma_kind_code_roundtrip(es[i].kind);
    }
}

proof fn lemma_sizes_sum_entries(d: Seq<u8>, es: Seq<MemoryEntry>, k: nat)
    requires
        k <= es.len(),
        le_u32(d, 16) == HEADER_SIZE,
        forall|i: int| 0 <= i < es.len() ==> entry_words_at(d, i, #[trigger] es[i]),
    ensures
        sizes_sum(d, k) == entry_sizes(es.take(k as int)),
    decreases k,
{
    if k > 0 {
        lemma_sizes_sum_entries(d, es, (k - 1) as nat);
        assert(es.take(k as int).drop_last() =~= es.take(k - 1));
        assert(entry_words_at(d, k - 1, es[k - 1]));
        assert(entry_at(d, k - 1) == HEADER_SIZE + ENTRY_SIZE * (k - 1));
    }
    if k == es.len() {
        assert(es.take(k as int) =~= es);
    }
}

proof fn lemma_sizes_sum_monotone(d: Seq<u8>, k: nat, n: nat)
    requires
        k <= n,
    ensures
        sizes_sum(d, k) <= sizes_sum(d, n),
    decreases n - k,
{
    if k < n {
        lemma_sizes_sum_monotone(d, k, (n - 1) as nat);
    }
}

} // verus!

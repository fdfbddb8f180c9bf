//! Independent ARM64 boot-argument byte codec; it does not enter a kernel.
//!
//! Public profile: xnu-12377.121.6, revision 2/version 2, LP64.
//! The entry consumes x0 as a PA, but this codec encodes the DT's initial KVA.
//! The caller must copy and reserve both objects at their declared PAs. Encoding
//! does not validate a kernel's entry, bootstrap mappings, CPU, devices or trust.
use vstd::prelude::*;
use vstd::string::{is_ascii, StringSliceAdditionalSpecFns};

use crate::bytes::{le_u32, le_u64, lemma_u64_bytes, read_u32, read_u64, u16_bytes, u32_bytes, u64_bytes, u32_le, u64_le};
use crate::flat_dt;
use crate::flat_dt::name_key;
use crate::xnu_boot_args::{lemma_dword_kept, lemma_dword_written, lemma_put_reads, put};

verus! {

pub const ARM64_BOOT_ARGS_SIZE: usize = 1152;

pub const ARM64_COMMAND_LINE_MAX: usize = 1023;

pub const VMAPPLE_PAGE_SIZE: u64 = 16384;

pub const ARM64_DARK_BOOT: u64 = 1;

/// Public video words only. Supplying them does not validate their backing or
/// display operation; all zeroes likewise do not prove headless boot support.
#[derive(Clone, Copy, Debug, Default, PartialEq, Eq)]
pub struct Arm64BootVideo {
    pub base_address: u64,
    pub display: u64,
    pub row_bytes: u64,
    pub width: u64,
    pub height: u64,
    pub depth: u64,
}

#[derive(Clone, Copy, Debug)]
pub struct Arm64BootArgsInput<'a> {
    /// Kernel-managed physical RAM window, not just the kernel image.
    pub physical_base: u64,
    pub virtual_base: u64,
    pub memory_size: u64,
    /// Actual DRAM bytes; must match /chosen/dram-size in the supplied DT.
    pub actual_memory_size: u64,
    /// End of occupied boot storage. Later kernel allocations begin here.
    pub top_of_kernel_data: u64,
    /// Complete occupied kernel range, including its zero-fill and holes.
    pub kernel_phys: u64,
    pub kernel_size: u64,
    pub boot_args_phys: u64,
    pub device_tree_phys: u64,
    /// Actual bytes to preserve at device_tree_phys, in XNU's flat DT format.
    pub device_tree: &'a [u8],
    pub command_line: &'a str,
    pub machine_type: u32,
    pub boot_flags: u64,
    pub video: Arm64BootVideo,
}

#[derive(Clone, Copy, Debug, PartialEq, Eq, Structural)]
pub enum Arm64BootArgsError {
    InvalidCommandLine,
    UnsupportedBootFlags,
    InvalidMemoryRange,
    InvalidVirtualRange,
    InvalidKernelRange,
    InvalidOccupiedTop,
    InvalidArgumentRange,
    InvalidDeviceTree,
    MissingDramProperties,
    InvalidDramProperties,
    HandoffOutsideOccupiedMemory,
    OverlappingHandoff,
}

impl Arm64BootArgsError {
    /// The name of each variant.
    pub open spec fn name_text(&self) -> Seq<char> {
        match self {
            Arm64BootArgsError::InvalidCommandLine => "InvalidCommandLine"@,
            Arm64BootArgsError::UnsupportedBootFlags => "UnsupportedBootFlags"@,
            Arm64BootArgsError::InvalidMemoryRange => "InvalidMemoryRange"@,
            Arm64BootArgsError::InvalidVirtualRange => "InvalidVirtualRange"@,
            Arm64BootArgsError::InvalidKernelRange => "InvalidKernelRange"@,
            Arm64BootArgsError::InvalidOccupiedTop => "InvalidOccupiedTop"@,
            Arm64BootArgsError::InvalidArgumentRange => "InvalidArgumentRange"@,
            Arm64BootArgsError::InvalidDeviceTree => "InvalidDeviceTree"@,
            Arm64BootArgsError::MissingDramProperties => "MissingDramProperties"@,
            Arm64BootArgsError::InvalidDramProperties => "InvalidDramProperties"@,
            Arm64BootArgsError::HandoffOutsideOccupiedMemory => "HandoffOutsideOccupiedMemory"@,
            Arm64BootArgsError::OverlappingHandoff => "OverlappingHandoff"@,
        }
    }

    /// The variant's name.
    pub fn name(&self) -> (r: &'static str)
        ensures
            r@ == self.name_text(),
    {
        match self {
            Arm64BootArgsError::InvalidCommandLine => "InvalidCommandLine",
            Arm64BootArgsError::UnsupportedBootFlags => "UnsupportedBootFlags",
            Arm64BootArgsError::InvalidMemoryRange => "InvalidMemoryRange",
            Arm64BootArgsError::InvalidVirtualRange => "InvalidVirtualRange",
            Arm64BootArgsError::InvalidKernelRange => "InvalidKernelRange",
            Arm64BootArgsError::InvalidOccupiedTop => "InvalidOccupiedTop",
            Arm64BootArgsError::InvalidArgumentRange => "InvalidArgumentRange",
            Arm64BootArgsError::InvalidDeviceTree => "InvalidDeviceTree",
            Arm64BootArgsError::MissingDramProperties => "MissingDramProperties",
            Arm64BootArgsError::InvalidDramProperties => "InvalidDramProperties",
            Arm64BootArgsError::HandoffOutsideOccupiedMemory => "HandoffOutsideOccupiedMemory",
            Arm64BootArgsError::OverlappingHandoff => "OverlappingHandoff",
        }
    }

    /// The fixed token of each variant.
    pub open spec fn token_text(&self) -> Seq<char> {
        match self {
            Arm64BootArgsError::InvalidCommandLine => "ARM64_INVALID_COMMAND_LINE"@,
            Arm64BootArgsError::UnsupportedBootFlags => "ARM64_UNSUPPORTED_BOOT_FLAGS"@,
            Arm64BootArgsError::InvalidMemoryRange => "ARM64_INVALID_MEMORY_RANGE"@,
            Arm64BootArgsError::InvalidVirtualRange => "ARM64_INVALID_VIRTUAL_RANGE"@,
            Arm64BootArgsError::InvalidKernelRange => "ARM64_INVALID_KERNEL_RANGE"@,
            Arm64BootArgsError::InvalidOccupiedTop => "ARM64_INVALID_OCCUPIED_TOP"@,
            Arm64BootArgsError::InvalidArgumentRange => "ARM64_INVALID_ARGUMENT_RANGE"@,
            Arm64BootArgsError::InvalidDeviceTree => "ARM64_INVALID_DEVICE_TREE"@,
            Arm64BootArgsError::MissingDramProperties => "ARM64_MISSING_DRAM_PROPERTIES"@,
            Arm64BootArgsError::InvalidDramProperties => "ARM64_INVALID_DRAM_PROPERTIES"@,
            Arm64BootArgsError::HandoffOutsideOccupiedMemory => "ARM64_HANDOFF_OUTSIDE_OCCUPIED_MEMORY"@,
            Arm64BootArgsError::OverlappingHandoff => "ARM64_OVERLAPPING_HANDOFF"@,
        }
    }

    /// The fixed diagnostic token of this error.
    pub fn token(&self) -> (r: &'static str)
        ensures
            r@ == self.token_text(),
    {
        match self {
            Arm64BootArgsError::InvalidCommandLine => "ARM64_INVALID_COMMAND_LINE",
            Arm64BootArgsError::UnsupportedBootFlags => "ARM64_UNSUPPORTED_BOOT_FLAGS",
            Arm64BootArgsError::InvalidMemoryRange => "ARM64_INVALID_MEMORY_RANGE",
            Arm64BootArgsError::InvalidVirtualRange => "ARM64_INVALID_VIRTUAL_RANGE",
            Arm64BootArgsError::InvalidKernelRange => "ARM64_INVALID_KERNEL_RANGE",
            Arm64BootArgsError::InvalidOccupiedTop => "ARM64_INVALID_OCCUPIED_TOP",
            Arm64BootArgsError::InvalidArgumentRange => "ARM64_INVALID_ARGUMENT_RANGE",
            Arm64BootArgsError::InvalidDeviceTree => "ARM64_INVALID_DEVICE_TREE",
            Arm64BootArgsError::MissingDramProperties => "ARM64_MISSING_DRAM_PROPERTIES",
            Arm64BootArgsError::InvalidDramProperties => "ARM64_INVALID_DRAM_PROPERTIES",
            Arm64BootArgsError::HandoffOutsideOccupiedMemory => "ARM64_HANDOFF_OUTSIDE_OCCUPIED_MEMORY",
            Arm64BootArgsError::OverlappingHandoff => "ARM64_OVERLAPPING_HANDOFF",
        }
    }

    /// The diagnostic text of this error.
    pub fn to_string(&self) -> (r: String)
        ensures
            r@ == self.token_text(),
    {
        String::from_str(self.token())
    }
}

/// Encoded bytes and declared addresses, without any allocation or entry right.
#[derive(Clone, Debug, PartialEq, Eq)]
pub struct Arm64BootArgsEncoding {
    bytes: [u8; ARM64_BOOT_ARGS_SIZE],
    physical_address: u64,
    device_tree_virtual_address: u64,
}

impl Arm64BootArgsEncoding {
    pub closed spec fn spec_bytes(&self) -> Seq<u8> {
        self.bytes@
    }

    pub closed spec fn spec_physical_address(&self) -> u64 {
        self.physical_address
    }

    pub closed spec fn spec_device_tree_virtual_address(&self) -> u64 {
        self.device_tree_virtual_address
    }

    pub proof fn lemma_size(&self)
        ensures
            self.spec_bytes().len() == ARM64_BOOT_ARGS_SIZE,
    {
    }

    pub fn as_bytes(&self) -> (r: &[u8; ARM64_BOOT_ARGS_SIZE])
        ensures
            r@ == self.spec_bytes(),
    {
        &self.bytes
    }

    /// The PA a future entry adapter would place in x0 after copying the bytes.
    pub fn physical_address(&self) -> (r: u64)
        ensures
            r == self.spec_physical_address(),
    {
        self.physical_address
    }

    pub fn device_tree_virtual_address(&self) -> (r: u64)
        ensures
            r == self.spec_device_tree_virtual_address(),
    {
        self.device_tree_virtual_address
    }

    /// A codec cannot establish a live CPU, loaded kernel or platform contract.
    pub fn execution_ready(&self) -> (r: bool)
        ensures
            !r,
    {
        false
    }
}

/// A half-open physical window `[start, end)`.
#[derive(Clone, Copy)]
struct Range {
    start: u64,
    end: u64,
}

/// The window of `size` bytes at `start`, if it is nonempty and does not wrap.
pub open spec fn window(start: u64, size: u64) -> Option<(u64, u64)> {
    if size == 0 || start + size > u64::MAX {
        None
    } else {
        Some((start, (start + size) as u64))
    }
}

pub open spec fn within(outer: (u64, u64), inner: (u64, u64)) -> bool {
    outer.0 <= inner.0 && inner.1 <= outer.1
}

pub open spec fn overlap(a: (u64, u64), b: (u64, u64)) -> bool {
    a.0 < b.1 && b.0 < a.1
}

impl Range {
    spec fn pair(self) -> (u64, u64) {
        (self.start, self.end)
    }

    fn new(start: u64, size: u64, error: Arm64BootArgsError) -> (r: Result<Range, Arm64BootArgsError>)
        ensures
            r matches Ok(x) ==> window(start, size) == Some(x.pair()),
            r matches Err(e) ==> window(start, size) is None && e == error,
    {
        if size == 0 {
            return Err(error);
        }
        match start.checked_add(size) {
            Some(end) => Ok(Range { start, end }),
            None => Err(error),
        }
    }

    fn contains(self, other: Range) -> (r: bool)
        ensures
            r == within(self.pair(), other.pair()),
    {
        self.start <= other.start && other.end <= self.end
    }

    fn overlaps(self, other: Range) -> (r: bool)
        ensures
            r == overlap(self.pair(), other.pair()),
    {
        self.start < other.end && other.start < self.end
    }
}

/// The bytes of the key "dram-base".
pub open spec fn dram_base_key() -> Seq<u8> {
    seq![100u8, 114u8, 97u8, 109u8, 45u8, 98u8, 97u8, 115u8, 101u8]
}

/// The bytes of the key "dram-size".
pub open spec fn dram_size_key() -> Seq<u8> {
    seq![100u8, 114u8, 97u8, 109u8, 45u8, 115u8, 105u8, 122u8, 101u8]
}

/// The NUL-terminated node name "chosen".
pub open spec fn chosen_value() -> Seq<u8> {
    seq![99u8, 104u8, 111u8, 115u8, 101u8, 110u8, 0u8]
}

/// A 32-byte wire name whose text before the first NUL is `key` (a key with
/// no NUL, shorter than the field).
pub open spec fn wire_name_is(raw: Seq<u8>, key: Seq<u8>) -> bool {
    raw.subrange(0, key.len() as int) == key && raw[key.len() as int] == 0
}

/// What the scan of one node's properties has seen: whether the node is
/// /chosen, and its dram-base and dram-size values.
pub type ChosenSeen = (bool, Option<Seq<u8>>, Option<Seq<u8>>);

/// `o` with `k` more bytes consumed.
pub open spec fn shift_props(o: Option<(nat, ChosenSeen)>, k: int) -> Option<(nat, ChosenSeen)> {
    match o {
        None => None,
        Some((c, s)) => Some(((c + k) as nat, s)),
    }
}

/// Scans `rem` properties at `off` of a node at `depth`: the bytes consumed
/// and what was seen, or `None` where the bytes end early.
pub open spec fn props_scan(b: Seq<u8>, off: int, rem: nat, depth: int, st: ChosenSeen) -> Option<
    (nat, ChosenSeen),
>
    decreases rem,
{
    if rem == 0 {
        Some((0, st))
    } else if off + 36 > b.len() {
        None
    } else {
        let raw = b.subrange(off, off + 32);
        let len = le_u32(b, off + 32);
        let vend = off + 36 + len;
        let pend = vend + (4 - len % 4) % 4;
        if pend > b.len() {
            None
        } else {
            let value = b.subrange(off + 36, vend);
            let st2: ChosenSeen = if wire_name_is(raw, name_key()) {
                (depth == 1 && value == chosen_value(), st.1, st.2)
            } else if depth == 1 && wire_name_is(raw, dram_base_key()) {
                (st.0, Some(value), st.2)
            } else if depth == 1 && wire_name_is(raw, dram_size_key()) {
                (st.0, st.1, Some(value))
            } else {
                st
            };
            shift_props(props_scan(b, pend, (rem - 1) as nat, depth, st2), pend - off)
        }
    }
}

/// The DRAM window that a node's properties declare, if the node is /chosen.
pub open spec fn chosen_update(st: ChosenSeen, dram: Option<(u64, u64)>) -> Result<
    Option<(u64, u64)>,
    Arm64BootArgsError,
> {
    if !st.0 {
        Ok(dram)
    } else if st.1 is None || st.2 is None {
        Err(Arm64BootArgsError::MissingDramProperties)
    } else if st.1.unwrap().len() != 8 || st.2.unwrap().len() != 8 {
        Err(Arm64BootArgsError::InvalidDramProperties)
    } else {
        let base = le_u64(st.1.unwrap(), 0) as u64;
        let size = le_u64(st.2.unwrap(), 0) as u64;
        match window(base, size) {
            None => Err(Arm64BootArgsError::InvalidDramProperties),
            Some(w) => Ok(Some(w)),
        }
    }
}

/// Bytes left after `off`.
pub open spec fn room(b: Seq<u8>, off: int) -> nat {
    if off < b.len() {
        (b.len() - off) as nat
    } else {
        0
    }
}

pub type DramScan = Result<(nat, Option<(u64, u64)>), Arm64BootArgsError>;

pub open spec fn shift_scan(r: DramScan, k: int) -> DramScan {
    match r {
        Err(e) => Err(e),
        Ok((c, d)) => Ok(((c + k) as nat, d)),
    }
}

/// Scans the node at `off`: the bytes it spans and the DRAM window after it.
pub open spec fn node_scan(b: Seq<u8>, off: int, depth: int, dram: Option<(u64, u64)>) -> DramScan
    decreases room(b, off), 1int, 0nat,
{
    if off + 8 > b.len() {
        Err(Arm64BootArgsError::InvalidDeviceTree)
    } else {
        let np = le_u32(b, off) as nat;
        let nc = le_u32(b, off + 4) as nat;
        match props_scan(b, off + 8, np, depth, (false, None, None)) {
            None => Err(Arm64BootArgsError::InvalidDeviceTree),
            Some((pc, st)) => match chosen_update(st, dram) {
                Err(e) => Err(e),
                Ok(d) => shift_scan(children_scan(b, off + 8 + pc, nc, depth + 1, d), 8 + pc as int),
            },
        }
    }
}

/// Scans `rem` sibling nodes at `off`.
pub open spec fn children_scan(b: Seq<u8>, off: int, rem: nat, depth: int, dram: Option<(u64, u64)>) -> DramScan
    decreases room(b, off), 2int, rem,
{
    if rem == 0 {
        Ok((0, dram))
    } else {
        match node_scan(b, off, depth, dram) {
            Err(e) => Err(e),
            Ok((c, d)) => shift_scan(children_scan(b, off + c, (rem - 1) as nat, depth, d), c as int),
        }
    }
}

/// The DRAM window of the last /chosen node at depth one of a flat device tree.
pub open spec fn dram_of(b: Seq<u8>) -> Result<(u64, u64), Arm64BootArgsError> {
    match node_scan(b, 0, 0, None) {
        Err(e) => Err(e),
        Ok((_, None)) => Err(Arm64BootArgsError::MissingDramProperties),
        Ok((_, Some(w))) => Ok(w),
    }
}

/// A command line the kernel can copy: ASCII, NUL-free, at most 1023 bytes.
pub open spec fn arm64_command_line_ok(s: &str) -> bool {
    &&& s.spec_bytes().len() <= ARM64_COMMAND_LINE_MAX
    &&& is_ascii(s)
    &&& !s.spec_bytes().contains(0u8)
}

/// The RAM window of the input.
pub open spec fn ram_of(i: Arm64BootArgsInput) -> (u64, u64) {
    window(i.physical_base, i.memory_size).unwrap()
}

pub open spec fn kernel_of(i: Arm64BootArgsInput) -> (u64, u64) {
    window(i.kernel_phys, i.kernel_size).unwrap()
}

pub open spec fn args_of(i: Arm64BootArgsInput) -> (u64, u64) {
    window(i.boot_args_phys, ARM64_BOOT_ARGS_SIZE as u64).unwrap()
}

pub open spec fn dt_of(i: Arm64BootArgsInput) -> (u64, u64) {
    window(i.device_tree_phys, i.device_tree@.len() as u64).unwrap()
}

/// The first rule the input breaks before the device tree is read, in the
/// order the encoder checks them.
pub open spec fn arm64_input_error(i: Arm64BootArgsInput) -> Option<Arm64BootArgsError> {
    let p = VMAPPLE_PAGE_SIZE;
    let ram = ram_of(i);
    let top = i.top_of_kernel_data;
    if !arm64_command_line_ok(i.command_line) {
        Some(Arm64BootArgsError::InvalidCommandLine)
    } else if i.boot_flags > ARM64_DARK_BOOT {
        Some(Arm64BootArgsError::UnsupportedBootFlags)
    } else if window(i.physical_base, i.memory_size) is None || i.physical_base % p != 0
        || i.memory_size % p != 0 {
        Some(Arm64BootArgsError::InvalidMemoryRange)
    } else if window(i.virtual_base, i.memory_size) is None || i.virtual_base % p != 0 {
        Some(Arm64BootArgsError::InvalidVirtualRange)
    } else if top <= ram.0 || top >= ram.1 || top % p != 0 {
        Some(Arm64BootArgsError::InvalidOccupiedTop)
    } else if window(i.kernel_phys, i.kernel_size) is None || i.kernel_phys % p != 0 || !within(
        (ram.0, top),
        kernel_of(i),
    ) {
        Some(Arm64BootArgsError::InvalidKernelRange)
    } else if window(i.boot_args_phys, ARM64_BOOT_ARGS_SIZE as u64) is None || i.boot_args_phys % 8
        != 0 {
        Some(Arm64BootArgsError::InvalidArgumentRange)
    } else if i.device_tree@.len() > u32::MAX || i.device_tree_phys % 4 != 0 || i.device_tree@.len()
        % 4 != 0 || window(i.device_tree_phys, i.device_tree@.len() as u64) is None {
        Some(Arm64BootArgsError::InvalidDeviceTree)
    } else {
        None
    }
}

/// The first rule broken once the device tree is known valid, given the DRAM
/// window that it declares.
pub open spec fn arm64_placement_error(
    i: Arm64BootArgsInput,
    dram: Result<(u64, u64), Arm64BootArgsError>,
) -> Option<Arm64BootArgsError> {
    let p = VMAPPLE_PAGE_SIZE;
    let ram = ram_of(i);
    let occupied = (ram.0, i.top_of_kernel_data);
    let kernel = kernel_of(i);
    let args = args_of(i);
    let dt = dt_of(i);
    match dram {
        Err(e) => Some(e),
        Ok(d) => if d.0 % p != 0 || (d.1 - d.0) % p as int != 0 || d.1 - d.0 != i.actual_memory_size
            || !within(d, ram) {
            Some(Arm64BootArgsError::InvalidDramProperties)
        } else if !within(occupied, args) || !within(occupied, dt) {
            Some(Arm64BootArgsError::HandoffOutsideOccupiedMemory)
        } else if overlap(args, dt) || overlap(args, kernel) || overlap(dt, kernel) {
            Some(Arm64BootArgsError::OverlappingHandoff)
        } else if args.0 < kernel.1 || dt.0 < kernel.1 {
            Some(Arm64BootArgsError::HandoffOutsideOccupiedMemory)
        } else {
            None
        },
    }
}

/// The initial kernel virtual address of the device tree.
pub open spec fn dt_virtual_of(i: Arm64BootArgsInput) -> u64 {
    (i.virtual_base + (i.device_tree_phys - i.physical_base)) as u64
}

/// Revision 2, version 2, with every word at its little-endian offset and
/// all other bytes zero.
pub open spec fn arm64_layout(i: Arm64BootArgsInput) -> Seq<u8> {
    let s0 = Seq::new(ARM64_BOOT_ARGS_SIZE as nat, |k: int| 0u8);
    let s1 = put(put(s0, 0, u16_bytes(2)), 2, u16_bytes(2));
    let s2 = put(put(put(s1, 8, u64_bytes(i.virtual_base)), 16, u64_bytes(i.physical_base)), 24, u64_bytes(i.memory_size));
    let s3 = put(s2, 32, u64_bytes(i.top_of_kernel_data));
    let s4 = put(put(put(s3, 40, u64_bytes(i.video.base_address)), 48, u64_bytes(i.video.display)), 56, u64_bytes(i.video.row_bytes));
    let s5 = put(put(put(s4, 64, u64_bytes(i.video.width)), 72, u64_bytes(i.video.height)), 80, u64_bytes(i.video.depth));
    let s6 = put(put(put(s5, 96, u64_bytes(dt_virtual_of(i))), 1136, u64_bytes(i.boot_flags)), 1144, u64_bytes(i.actual_memory_size));
    let s7 = put(put(s6, 88, u32_bytes(i.machine_type)), 104, u32_bytes(i.device_tree@.len() as u32));
    put(s7, 108, i.command_line.spec_bytes())
}

/// The arm64 boot_args hold each address word at its place, little-endian: the
/// virtual base at 8, the physical base at 16, the memory size at 24, the top of
/// kernel data at 32, the device tree's virtual address at 96, the boot flags at
/// 1136 and the actual memory size at 1144.
pub proof fn lemma_arm64_fields(i: Arm64BootArgsInput)
    requires
        arm64_input_error(i) is None,
    ensures
        arm64_layout(i).len() == ARM64_BOOT_ARGS_SIZE,
        le_u64(arm64_layout(i), 8) == i.virtual_base,
        le_u64(arm64_layout(i), 16) == i.physical_base,
        le_u64(arm64_layout(i), 24) == i.memory_size,
        le_u64(arm64_layout(i), 32) == i.top_of_kernel_data,
        le_u64(arm64_layout(i), 96) == dt_virtual_of(i),
        le_u64(arm64_layout(i), 1136) == i.boot_flags,
        le_u64(arm64_layout(i), 1144) == i.actual_memory_size,
{
    let t0 = Seq::new(ARM64_BOOT_ARGS_SIZE as nat, |k: int| 0u8);
    let t1 = put(t0, 0, u16_bytes(2));
    lemma_put_reads(t0, 0, u16_bytes(2));
    let t2 = put(t1, 2, u16_bytes(2));
    lemma_put_reads(t1, 2, u16_bytes(2));
    let t3 = put(t2, 8, u64_bytes(i.virtual_base));
    lemma_u64_bytes(i.virtual_base);
    lemma_put_reads(t2, 8, u64_bytes(i.virtual_base));
    lemma_dword_written(t2, 8, i.virtual_base);
    let t4 = put(t3, 16, u64_bytes(i.physical_base));
    lemma_u64_bytes(i.physical_base);
    lemma_put_reads(t3, 16, u64_bytes(i.physical_base));
    lemma_dword_written(t3, 16, i.physical_base);
    let t5 = put(t4, 24, u64_bytes(i.memory_size));
    lemma_u64_bytes(i.memory_size);
    lemma_put_reads(t4, 24, u64_bytes(i.memory_size));
    lemma_dword_written(t4, 24, i.memory_size);
    let t6 = put(t5, 32, u64_bytes(i.top_of_kernel_data));
    lemma_u64_bytes(i.top_of_kernel_data);
    lemma_put_reads(t5, 32, u64_bytes(i.top_of_kernel_data));
    lemma_dword_written(t5, 32, i.top_of_kernel_data);
    let t7 = put(t6, 40, u64_bytes(i.video.base_address));
    lemma_u64_bytes(i.video.base_address);
    lemma_put_reads(t6, 40, u64_bytes(i.video.base_address));
    let t8 = put(t7, 48, u64_bytes(i.video.display));
    lemma_u64_bytes(i.video.display);
    lemma_put_reads(t7, 48, u64_bytes(i.video.display));
    let t9 = put(t8, 56, u64_bytes(i.video.row_bytes));
    lemma_u64_bytes(i.video.row_bytes);
    lemma_put_reads(t8, 56, u64_bytes(i.video.row_bytes));
    let t10 = put(t9, 64, u64_bytes(i.video.width));
    lemma_u64_bytes(i.video.width);
    lemma_put_reads(t9, 64, u64_bytes(i.video.width));
    let t11 = put(t10, 72, u64_bytes(i.video.height));
    lemma_u64_bytes(i.video.height);
    lemma_put_reads(t10, 72, u64_bytes(i.video.height));
    let t12 = put(t11, 80, u64_bytes(i.video.depth));
    lemma_u64_bytes(i.video.depth);
    lemma_put_reads(t11, 80, u64_bytes(i.video.depth));
    let t13 = put(t12, 96, u64_bytes(dt_virtual_of(i)));
    lemma_u64_bytes(dt_virtual_of(i));
    lemma_put_reads(t12, 96, u64_bytes(dt_virtual_of(i)));
    lemma_dword_written(t12, 96, dt_virtual_of(i));
    let t14 = put(t13, 1136, u64_bytes(i.boot_flags));
    lemma_u64_bytes(i.boot_flags);
    lemma_put_reads(t13, 1136, u64_bytes(i.boot_flags));
    lemma_dword_written(t13, 1136, i.boot_flags);
    let t15 = put(t14, 1144, u64_bytes(i.actual_memory_size));
    lemma_u64_bytes(i.actual_memory_size);
    lemma_put_reads(t14, 1144, u64_bytes(i.actual_memory_size));
    lemma_dword_written(t14, 1144, i.actual_memory_size);
    let t16 = put(t15, 88, u32_bytes(i.machine_type));
    crate::bytes::lemma_u32_bytes(i.machine_type);
    lemma_put_reads(t15, 88, u32_bytes(i.machine_type));
    let t17 = put(t16, 104, u32_bytes(i.device_tree@.len() as u32));
    crate::bytes::lemma_u32_bytes(i.device_tree@.len() as u32);
    lemma_put_reads(t16, 104, u32_bytes(i.device_tree@.len() as u32));
    let t18 = put(t17, 108, i.command_line.spec_bytes());
    lemma_put_reads(t17, 108, i.command_line.spec_bytes());
    assert(t18 == arm64_layout(i));
    lemma_dword_kept(t3, 16, u64_bytes(i.physical_base), 8);
    lemma_dword_kept(t4, 24, u64_bytes(i.memory_size), 8);
    lemma_dword_kept(t5, 32, u64_bytes(i.top_of_kernel_data), 8);
    lemma_dword_kept(t6, 40, u64_bytes(i.video.base_address), 8);
    lemma_dword_kept(t7, 48, u64_bytes(i.video.display), 8);
    lemma_dword_kept(t8, 56, u64_bytes(i.video.row_bytes), 8);
    lemma_dword_kept(t9, 64, u64_bytes(i.video.width), 8);
    lemma_dword_kept(t10, 72, u64_bytes(i.video.height), 8);
    lemma_dword_kept(t11, 80, u64_bytes(i.video.depth), 8);
    lemma_dword_kept(t12, 96, u64_bytes(dt_virtual_of(i)), 8);
    lemma_dword_kept(t13, 1136, u64_bytes(i.boot_flags), 8);
    lemma_dword_kept(t14, 1144, u64_bytes(i.actual_memory_size), 8);
    lemma_dword_kept(t15, 88, u32_bytes(i.machine_type), 8);
    lemma_dword_kept(t16, 104, u32_bytes(i.device_tree@.len() as u32), 8);
    lemma_dword_kept(t17, 108, i.command_line.spec_bytes(), 8);
    lemma_dword_kept(t4, 24, u64_bytes(i.memory_size), 16);
    lemma_dword_kept(t5, 32, u64_bytes(i.top_of_kernel_data), 16);
    lemma_dword_kept(t6, 40, u64_bytes(i.video.base_address), 16);
    lemma_dword_kept(t7, 48, u64_bytes(i.video.display), 16);
    lemma_dword_kept(t8, 56, u64_bytes(i.video.row_bytes), 16);
    lemma_dword_kept(t9, 64, u64_bytes(i.video.width), 16);
    lemma_dword_kept(t10, 72, u64_bytes(i.video.height), 16);
    lemma_dword_kept(t11, 80, u64_bytes(i.video.depth), 16);
    lemma_dword_kept(t12, 96, u64_bytes(dt_virtual_of(i)), 16);
    lemma_dword_kept(t13, 1136, u64_bytes(i.boot_flags), 16);
    lemma_dword_kept(t14, 1144, u64_bytes(i.actual_memory_size), 16);
    lemma_dword_kept(t15, 88, u32_bytes(i.machine_type), 16);
    lemma_dword_kept(t16, 104, u32_bytes(i.device_tree@.len() as u32), 16);
    lemma_dword_kept(t17, 108, i.command_line.spec_bytes(), 16);
    lemma_dword_kept(t5, 32, u64_bytes(i.top_of_kernel_data), 24);
    lemma_dword_kept(t6, 40, u64_bytes(i.video.base_address), 24);
    lemma_dword_kept(t7, 48, u64_bytes(i.video.display), 24);
    lemma_dword_kept(t8, 56, u64_bytes(i.video.row_bytes), 24);
    lemma_dword_kept(t9, 64, u64_bytes(i.video.width), 24);
    lemma_dword_kept(t10, 72, u64_bytes(i.video.height), 24);
    lemma_dword_kept(t11, 80, u64_bytes(i.video.depth), 24);
    lemma_dword_kept(t12, 96, u64_bytes(dt_virtual_of(i)), 24);
    lemma_dword_kept(t13, 1136, u64_bytes(i.boot_flags), 24);
    lemma_dword_kept(t14, 1144, u64_bytes(i.actual_memory_size), 24);
    lemma_dword_kept(t15, 88, u32_bytes(i.machine_type), 24);
    lemma_dword_kept(t16, 104, u32_bytes(i.device_tree@.len() as u32), 24);
    lemma_dword_kept(t17, 108, i.command_line.spec_bytes(), 24);
    lemma_dword_kept(t6, 40, u64_bytes(i.video.base_address), 32);
    lemma_dword_kept(t7, 48, u64_bytes(i.video.display), 32);
    lemma_dword_kept(t8, 56, u64_bytes(i.video.row_bytes), 32);
    lemma_dword_kept(t9, 64, u64_bytes(i.video.width), 32);
    lemma_dword_kept(t10, 72, u64_bytes(i.video.height), 32);
    lemma_dword_kept(t11, 80, u64_bytes(i.video.depth), 32);
    lemma_dword_kept(t12, 96, u64_bytes(dt_virtual_of(i)), 32);
    lemma_dword_kept(t13, 1136, u64_bytes(i.boot_flags), 32);
    lemma_dword_kept(t14, 1144, u64_bytes(i.actual_memory_size), 32);
    lemma_dword_kept(t15, 88, u32_bytes(i.machine_type), 32);
    lemma_dword_kept(t16, 104, u32_bytes(i.device_tree@.len() as u32), 32);
    lemma_dword_kept(t17, 108, i.command_line.spec_bytes(), 32);
    lemma_dword_kept(t13, 1136, u64_bytes(i.boot_flags), 96);
    lemma_dword_kept(t14, 1144, u64_bytes(i.actual_memory_size), 96);
    lemma_dword_kept(t15, 88, u32_bytes(i.machine_type), 96);
    lemma_dword_kept(t16, 104, u32_bytes(i.device_tree@.len() as u32), 96);
    lemma_dword_kept(t17, 108, i.command_line.spec_bytes(), 96);
    lemma_dword_kept(t14, 1144, u64_bytes(i.actual_memory_size), 1136);
    lemma_dword_kept(t15, 88, u32_bytes(i.machine_type), 1136);
    lemma_dword_kept(t16, 104, u32_bytes(i.device_tree@.len() as u32), 1136);
    lemma_dword_kept(t17, 108, i.command_line.spec_bytes(), 1136);
    lemma_dword_kept(t15, 88, u32_bytes(i.machine_type), 1144);
    lemma_dword_kept(t16, 104, u32_bytes(i.device_tree@.len() as u32), 1144);
    lemma_dword_kept(t17, 108, i.command_line.spec_bytes(), 1144);
}

fn write_at(bytes: &mut [u8; ARM64_BOOT_ARGS_SIZE], offset: usize, src: &[u8])
    requires
        offset + src@.len() <= ARM64_BOOT_ARGS_SIZE,
    ensures
        final(bytes)@ == put(old(bytes)@, offset as int, src@),
{
    let mut k: usize = 0;
    while k < src.len()
        invariant
            offset + src@.len() <= ARM64_BOOT_ARGS_SIZE,
            k <= src@.len(),
            bytes@.len() == ARM64_BOOT_ARGS_SIZE,
            forall|j: int| 0 <= j < offset ==> bytes@[j] == old(bytes)@[j],
            forall|j: int| offset + src@.len() <= j < ARM64_BOOT_ARGS_SIZE ==> bytes@[j] == old(bytes)@[j],
            forall|j: int| offset <= j < offset + k ==> bytes@[j] == src@[j - offset],
        decreases src@.len() - k,
    {
        bytes[offset + k] = src[k];
        k = k + 1;
    }
    assert(bytes@ =~= put(old(bytes)@, offset as int, src@));
}

fn command_line_valid(s: &str) -> (r: bool)
    ensures
        r == arm64_command_line_ok(s),
{
    let b = s.as_bytes();
    if b.len() > ARM64_COMMAND_LINE_MAX || !s.is_ascii() {
        return false;
    }
    let mut k: usize = 0;
    while k < b.len()
        invariant
            k <= b@.len(),
            b@ == s.spec_bytes(),
            forall|j: int| 0 <= j < k ==> b@[j] != 0,
        decreases b@.len() - k,
    {
        if b[k] == 0 {
            assert(b@[k as int] == 0u8);
            return false;
        }
        k = k + 1;
    }
    assert(!b@.contains(0u8));
    true
}

/// Validate the selected public range/DT profile and encode its argument bytes.
///
/// This does not round memory upward or validate the 32-MiB bootstrap block
/// coverage. The image header position, within-block VA/PA correspondence and
/// bootstrap-table capacity need a separate placement check before execution.
pub fn encode_arm64_boot_args(input: &Arm64BootArgsInput<'_>) -> (r: Result<
    Arm64BootArgsEncoding,
    Arm64BootArgsError,
>)
    ensures
        arm64_input_error(*input) matches Some(e) ==> r == Err::<Arm64BootArgsEncoding, Arm64BootArgsError>(e),
        arm64_input_error(*input) is None ==> match r {
            Ok(enc) => {
                &&& arm64_placement_error(*input, dram_of(input.device_tree@)) is None
                &&& enc.spec_bytes() == arm64_layout(*input)
                &&& le_u64(enc.spec_bytes(), 8) == input.virtual_base
                &&& le_u64(enc.spec_bytes(), 16) == input.physical_base
                &&& le_u64(enc.spec_bytes(), 24) == input.memory_size
                &&& le_u64(enc.spec_bytes(), 32) == input.top_of_kernel_data
                &&& le_u64(enc.spec_bytes(), 96) == dt_virtual_of(*input)
                &&& le_u64(enc.spec_bytes(), 1136) == input.boot_flags
                &&& le_u64(enc.spec_bytes(), 1144) == input.actual_memory_size
                &&& enc.spec_physical_address() == input.boot_args_phys
                &&& enc.spec_device_tree_virtual_address() == dt_virtual_of(*input)
            },
            Err(e) => e == Arm64BootArgsError::InvalidDeviceTree || arm64_placement_error(
                *input,
                dram_of(input.device_tree@),
            ) == Some(e),
        },
        arm64_input_error(*input) is None && (exists|t: flat_dt::FlatNode| flat_dt::encodable(t) && #[trigger] flat_dt::wire_node(t)
            == input.device_tree@) && dram_of(input.device_tree@) != Err::<(u64, u64), Arm64BootArgsError>(
            Arm64BootArgsError::InvalidDeviceTree,
        ) ==> r != Err::<Arm64BootArgsEncoding, Arm64BootArgsError>(Arm64BootArgsError::InvalidDeviceTree),
{
    if !command_line_valid(input.command_line) {
        return Err(Arm64BootArgsError::InvalidCommandLine);
    }
    let flags = input.boot_flags;
    assert((flags & !1u64) != 0 <==> flags > 1) by (bit_vector);
    if input.boot_flags & !ARM64_DARK_BOOT != 0 {
        return Err(Arm64BootArgsError::UnsupportedBootFlags);
    }
    let ram = Range::new(input.physical_base, input.memory_size, Arm64BootArgsError::InvalidMemoryRange)?;
    if input.physical_base % VMAPPLE_PAGE_SIZE != 0 || input.memory_size % VMAPPLE_PAGE_SIZE != 0 {
        return Err(Arm64BootArgsError::InvalidMemoryRange);
    }
    Range::new(input.virtual_base, input.memory_size, Arm64BootArgsError::InvalidVirtualRange)?;
    if input.virtual_base % VMAPPLE_PAGE_SIZE != 0 {
        return Err(Arm64BootArgsError::InvalidVirtualRange);
    }
    let top = input.top_of_kernel_data;
    if top <= ram.start || top >= ram.end || top % VMAPPLE_PAGE_SIZE != 0 {
        return Err(Arm64BootArgsError::InvalidOccupiedTop);
    }
    let occupied = Range { start: ram.start, end: top };
    let kernel = Range::new(input.kernel_phys, input.kernel_size, Arm64BootArgsError::InvalidKernelRange)?;
    if input.kernel_phys % VMAPPLE_PAGE_SIZE != 0 || !occupied.contains(kernel) {
        return Err(Arm64BootArgsError::InvalidKernelRange);
    }
    let args = Range::new(
        input.boot_args_phys,
        ARM64_BOOT_ARGS_SIZE as u64,
        Arm64BootArgsError::InvalidArgumentRange,
    )?;
    if input.boot_args_phys % 8 != 0 {
        return Err(Arm64BootArgsError::InvalidArgumentRange);
    }
    if input.device_tree.len() > 0xffff_ffff {
        return Err(Arm64BootArgsError::InvalidDeviceTree);
    }
    let dt_length = input.device_tree.len() as u32;
    if input.device_tree_phys % 4 != 0 || dt_length % 4 != 0 {
        return Err(Arm64BootArgsError::InvalidDeviceTree);
    }
    let dt = Range::new(input.device_tree_phys, dt_length as u64, Arm64BootArgsError::InvalidDeviceTree)?;
    if flat_dt::validate(input.device_tree).is_err() {
        return Err(Arm64BootArgsError::InvalidDeviceTree);
    }
    let dram = dram_range(input.device_tree)?;
    if dram.start % VMAPPLE_PAGE_SIZE != 0 || (dram.end - dram.start) % VMAPPLE_PAGE_SIZE != 0
        || dram.end - dram.start != input.actual_memory_size || !dram.contains(ram) {
        return Err(Arm64BootArgsError::InvalidDramProperties);
    }
    if !occupied.contains(args) || !occupied.contains(dt) {
        return Err(Arm64BootArgsError::HandoffOutsideOccupiedMemory);
    }
    if args.overlaps(dt) || args.overlaps(kernel) || dt.overlaps(kernel) {
        return Err(Arm64BootArgsError::OverlappingHandoff);
    }
    // arm_vm_init's later DT/ramdisk/argument-region remap starts at end_kern.
    if args.start < kernel.end || dt.start < kernel.end {
        return Err(Arm64BootArgsError::HandoffOutsideOccupiedMemory);
    }
    let dt_virtual = input.virtual_base + (dt.start - ram.start);
    let mut bytes = [0u8; ARM64_BOOT_ARGS_SIZE];
    assert(bytes@ =~= Seq::new(ARM64_BOOT_ARGS_SIZE as nat, |k: int| 0u8));
    let two: [u8; 2] = [2, 0];
    assert(two@ =~= u16_bytes(2));
    write_at(&mut bytes, 0, two.as_slice());
    write_at(&mut bytes, 2, two.as_slice());
    write_at(&mut bytes, 8, u64_le(input.virtual_base).as_slice());
    write_at(&mut bytes, 16, u64_le(input.physical_base).as_slice());
    write_at(&mut bytes, 24, u64_le(input.memory_size).as_slice());
    write_at(&mut bytes, 32, u64_le(input.top_of_kernel_data).as_slice());
    write_at(&mut bytes, 40, u64_le(input.video.base_address).as_slice());
    write_at(&mut bytes, 48, u64_le(input.video.display).as_slice());
    write_at(&mut bytes, 56, u64_le(input.video.row_bytes).as_slice());
    write_at(&mut bytes, 64, u64_le(input.video.width).as_slice());
    write_at(&mut bytes, 72, u64_le(input.video.height).as_slice());
    write_at(&mut bytes, 80, u64_le(input.video.depth).as_slice());
    write_at(&mut bytes, 96, u64_le(dt_virtual).as_slice());
    write_at(&mut bytes, 1136, u64_le(input.boot_flags).as_slice());
    write_at(&mut bytes, 1144, u64_le(input.actual_memory_size).as_slice());
    write_at(&mut bytes, 88, u32_le(input.machine_type).as_slice());
    write_at(&mut bytes, 104, u32_le(dt_length).as_slice());
    write_at(&mut bytes, 108, input.command_line.as_bytes());
    proof {
        lemma_arm64_fields(*input);
    }
    Ok(Arm64BootArgsEncoding {
        bytes,
        physical_address: input.boot_args_phys,
        device_tree_virtual_address: dt_virtual,
    })
}

spec fn range_view(o: Option<Range>) -> Option<(u64, u64)> {
    match o {
        None => None,
        Some(r) => Some(r.pair()),
    }
}

spec fn range_ok(o: Option<Range>) -> bool {
    o matches Some(w) ==> w.start < w.end
}

spec fn slice_view(o: Option<&[u8]>) -> Option<Seq<u8>> {
    match o {
        None => None,
        Some(s) => Some(s@),
    }
}

// The shared validator has already bounded the depth/counts, canonical names,
// lengths and duplicate children. This second read interprets only two public
// /chosen properties; no device bindings or arbitrary DT payloads are inferred.
fn dram_range(bytes: &[u8]) -> (r: Result<Range, Arm64BootArgsError>)
    ensures
        match r {
            Ok(w) => dram_of(bytes@) == Ok::<(u64, u64), Arm64BootArgsError>(w.pair()) && w.start < w.end,
            Err(e) => dram_of(bytes@) == Err::<(u64, u64), Arm64BootArgsError>(e),
        },
{
    let mut offset: usize = 0;
    let mut dram: Option<Range> = None;
    read_dram_node(bytes, &mut offset, 0, &mut dram)?;
    match dram {
        Some(w) => Ok(w),
        None => Err(Arm64BootArgsError::MissingDramProperties),
    }
}

fn take<'a>(bytes: &'a [u8], cursor: &mut usize, size: usize) -> (r: Option<&'a [u8]>)
    ensures
        r matches Some(s) ==> {
            &&& old(cursor) + size <= bytes@.len()
            &&& *final(cursor) == old(cursor) + size
            &&& s@ == bytes@.subrange(*old(cursor) as int, old(cursor) + size)
        },
        r is None ==> old(cursor) + size > bytes@.len() && *final(cursor) == *old(cursor),
{
    let _n = bytes.len();
    let end = match cursor.checked_add(size) {
        Some(e) => e,
        None => return None,
    };
    if end > bytes.len() {
        return None;
    }
    let slice = &bytes[*cursor..end];
    *cursor = end;
    Some(slice)
}

fn name_matches(raw: &[u8], key: &[u8]) -> (r: bool)
    requires
        raw@.len() == 32,
        key@.len() < 32,
    ensures
        r == wire_name_is(raw@, key@),
{
    let n = key.len();
    if raw[n] != 0 {
        return false;
    }
    let mut i: usize = 0;
    while i < n
        invariant
            n == key@.len() < 32,
            raw@.len() == 32,
            i <= n,
            forall|k: int| 0 <= k < i ==> raw@[k] == key@[k],
        decreases n - i,
    {
        if raw[i] != key[i] {
            assert(raw@.subrange(0, n as int)[i as int] != key@[i as int]);
            return false;
        }
        i = i + 1;
    }
    assert(raw@.subrange(0, n as int) =~= key@);
    true
}

fn read_props<'a>(bytes: &'a [u8], cursor: &mut usize, count: u32, depth: usize) -> (r: Option<
    (bool, Option<&'a [u8]>, Option<&'a [u8]>),
>)
    requires
        *old(cursor) <= bytes@.len(),
    ensures
        match props_scan(bytes@, *old(cursor) as int, count as nat, depth as int, (false, None, None)) {
            None => r is None,
            Some((c, st)) => r matches Some(t) && *final(cursor) == old(cursor) + c && (
            t.0, slice_view(t.1), slice_view(t.2)) == st,
        },
        r is Some ==> *final(cursor) <= bytes@.len(),
{
    let ghost start = *cursor as int;
    let ghost total = props_scan(bytes@, start, count as nat, depth as int, (false, None, None));
    let key_chosen: [u8; 7] = [99, 104, 111, 115, 101, 110, 0];
    let key_name: [u8; 4] = [110, 97, 109, 101];
    let key_base: [u8; 9] = [100, 114, 97, 109, 45, 98, 97, 115, 101];
    let key_size: [u8; 9] = [100, 114, 97, 109, 45, 115, 105, 122, 101];
    assert(key_chosen@ =~= chosen_value());
    assert(key_name@ =~= name_key());
    assert(key_base@ =~= dram_base_key());
    assert(key_size@ =~= dram_size_key());
    let mut chosen = false;
    let mut base: Option<&[u8]> = None;
    let mut size: Option<&[u8]> = None;
    let mut i: u32 = 0;
    while i < count
        invariant
            start == *old(cursor) as int,
            start <= *cursor <= bytes@.len(),
            i <= count,
            key_chosen@ == chosen_value(),
            key_name@ == name_key(),
            key_base@ == dram_base_key(),
            key_size@ == dram_size_key(),
            total == props_scan(bytes@, start, count as nat, depth as int, (false, None, None)),
            total == shift_props(
                props_scan(bytes@, *cursor as int, (count - i) as nat, depth as int, (chosen, slice_view(base), slice_view(size))),
                *cursor - start,
            ),
        decreases count - i,
    {
        let ghost here = *cursor as int;
        let ghost cur = (chosen, slice_view(base), slice_view(size));
        let ghost step = props_scan(bytes@, here, (count - i) as nat, depth as int, cur);
        assert(here + 36 > bytes@.len() ==> step is None);
        let raw_name = match take(bytes, cursor, 32) {
            Some(s) => s,
            None => return None,
        };
        let length = match take(bytes, cursor, 4) {
            Some(s) => read_u32(s, 0),
            None => return None,
        };
        assert(length == le_u32(bytes@, here + 32)) by {
            assert(bytes@.subrange(here + 32, here + 36)[0] == bytes@[here + 32]);
            assert(bytes@.subrange(here + 32, here + 36)[1] == bytes@[here + 33]);
            assert(bytes@.subrange(here + 32, here + 36)[2] == bytes@[here + 34]);
            assert(bytes@.subrange(here + 32, here + 36)[3] == bytes@[here + 35]);
        }
        let ghost pend = here + 36 + length + (4 - length % 4) % 4;
        assert(pend > bytes@.len() ==> step is None);
        let value = match take(bytes, cursor, length as usize) {
            Some(s) => s,
            None => return None,
        };
        if take(bytes, cursor, ((4 - length % 4) % 4) as usize).is_none() {
            return None;
        }
        assert(value@ == bytes@.subrange(here + 36, here + 36 + length));
        assert(raw_name@ == bytes@.subrange(here, here + 32));
        if name_matches(raw_name, key_name.as_slice()) {
            chosen = depth == 1 && crate::bytes::bytes_eq(value, key_chosen.as_slice());
        } else if depth == 1 && name_matches(raw_name, key_base.as_slice()) {
            base = Some(value);
        } else if depth == 1 && name_matches(raw_name, key_size.as_slice()) {
            size = Some(value);
        }
        i = i + 1;
    }
    Some((chosen, base, size))
}

fn read_dram_node(bytes: &[u8], cursor: &mut usize, depth: usize, dram: &mut Option<Range>) -> (r:
    Result<(), Arm64BootArgsError>)
    requires
        *old(cursor) <= bytes@.len(),
        depth * 8 <= *old(cursor) + 8,
        range_ok(*old(dram)),
    ensures
        match node_scan(bytes@, *old(cursor) as int, depth as int, range_view(*old(dram))) {
            Err(e) => r == Err::<(), Arm64BootArgsError>(e),
            Ok((c, d)) => r is Ok && *final(cursor) == old(cursor) + c && range_view(*final(dram)) == d,
        },
        r is Ok ==> *final(cursor) <= bytes@.len(),
        range_ok(*final(dram)),
    decreases room(bytes@, *old(cursor) as int),
{
    let ghost start = *cursor as int;
    let properties = match take(bytes, cursor, 4) {
        Some(s) => read_u32(s, 0),
        None => return Err(Arm64BootArgsError::InvalidDeviceTree),
    };
    let children = match take(bytes, cursor, 4) {
        Some(s) => read_u32(s, 0),
        None => return Err(Arm64BootArgsError::InvalidDeviceTree),
    };
    assert(properties == le_u32(bytes@, start) && children == le_u32(bytes@, start + 4)) by {
        assert(bytes@.subrange(start, start + 4)[0] == bytes@[start]);
        assert(bytes@.subrange(start, start + 4)[1] == bytes@[start + 1]);
        assert(bytes@.subrange(start, start + 4)[2] == bytes@[start + 2]);
        assert(bytes@.subrange(start, start + 4)[3] == bytes@[start + 3]);
        assert(bytes@.subrange(start + 4, start + 8)[0] == bytes@[start + 4]);
        assert(bytes@.subrange(start + 4, start + 8)[1] == bytes@[start + 5]);
        assert(bytes@.subrange(start + 4, start + 8)[2] == bytes@[start + 6]);
        assert(bytes@.subrange(start + 4, start + 8)[3] == bytes@[start + 7]);
    }
    let seen = match read_props(bytes, cursor, properties, depth) {
        Some(t) => t,
        None => return Err(Arm64BootArgsError::InvalidDeviceTree),
    };
    if seen.0 {
        let base = match seen.1 {
            Some(v) => v,
            None => return Err(Arm64BootArgsError::MissingDramProperties),
        };
        let size = match seen.2 {
            Some(v) => v,
            None => return Err(Arm64BootArgsError::MissingDramProperties),
        };
        if base.len() != 8 || size.len() != 8 {
            return Err(Arm64BootArgsError::InvalidDramProperties);
        }
        let base = read_u64(base, 0);
        let size = read_u64(size, 0);
        *dram = Some(Range::new(base, size, Arm64BootArgsError::InvalidDramProperties)?);
    }
    let ghost child_start = *cursor as int;
    let ghost d0 = range_view(*dram);
    let ghost total = children_scan(bytes@, child_start, children as nat, depth + 1, d0);
    assert(node_scan(bytes@, start, depth as int, range_view(*old(dram))) == shift_scan(
        total,
        child_start - start,
    ));
    let mut k: u32 = 0;
    while k < children
        invariant
            start == *old(cursor) as int,
            node_scan(bytes@, start, depth as int, range_view(*old(dram))) == shift_scan(
                total,
                child_start - start,
            ),
            child_start <= *cursor <= bytes@.len(),
            start + 8 <= child_start,
            start + 8 <= bytes@.len(),
            depth * 8 <= start + 8,
            k <= children,
            range_ok(*dram),
            total == children_scan(bytes@, child_start, children as nat, depth + 1, d0),
            total == shift_scan(
                children_scan(bytes@, *cursor as int, (children - k) as nat, depth + 1, range_view(*dram)),
                *cursor - child_start,
            ),
        decreases children - k,
    {
        read_dram_node(bytes, cursor, depth + 1, dram)?;
        k = k + 1;
    }
    Ok(())
}

} // verus!

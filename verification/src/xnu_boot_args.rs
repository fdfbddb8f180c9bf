//! Independent byte encoder for the standalone xnu-12377-pstart32 profile.
//!
//! The 32-bit bootstrap consumes the physical ranges before establishing its
//! full mappings. The caller must allocate them, preserve them across firmware
//! exit, and separately supply/validate the actual DT and memory-map contents.
//! This encoder does not establish runtime, entropy, security, video, or KC
//! providers. Zeroed unsupported fields do not establish their safe absence.
use vstd::prelude::*;
use vstd::string::{is_ascii, StringSliceAdditionalSpecFns};

use crate::bytes::{le_u32, le_u64, lemma_u32_bytes, lemma_u64_bytes, u32_bytes, u64_bytes, u32_le, u64_le};

verus! {

pub const BOOT_ARGS_SIZE: usize = 4096;

pub const MAX_COMMAND_LINE: usize = 1023;

pub const PAGE_SIZE: u64 = 4096;

pub const LOW_ADDRESS_LIMIT: u64 = 0x1_0000_0000;

#[derive(Clone, Copy, Debug)]
pub struct XnuBootArgsInput<'a> {
    pub memory_map_phys: u64,
    pub memory_map_size: u64,
    pub memory_map_descriptor_size: u32,
    pub memory_map_descriptor_version: u32,
    pub device_tree_phys: u64,
    pub device_tree_size: u64,
    /// Physical start of the loaded image and protected handoff arena.
    pub kernel_phys: u64,
    /// Covered bytes, including map, DT, boot_args and other handoff storage.
    pub kernel_size: u64,
    /// Actual physical RAM bytes; this field is not limited to 4 GiB.
    pub physical_memory_size: u64,
    /// Only pointer representation/alignment is checked, not table contents.
    pub efi_system_table_phys: u64,
    pub command_line: &'a str,
}

#[derive(Clone, Copy, Debug, PartialEq, Eq, Structural)]
pub enum BootArgsError {
    InvalidCommandLine,
    InvalidMemoryMap,
    InvalidDeviceTree,
    InvalidKernelRange,
    InvalidPhysicalMemory,
    InvalidEfiSystemTable,
    HandoffOutsideKernel,
    OverlappingHandoff,
}

impl BootArgsError {
    /// The fixed token of each variant.
    pub open spec fn token_text(&self) -> Seq<char> {
        match self {
            BootArgsError::InvalidCommandLine => "INVALID_COMMAND_LINE"@,
            BootArgsError::InvalidMemoryMap => "INVALID_MEMORY_MAP"@,
            BootArgsError::InvalidDeviceTree => "INVALID_DEVICE_TREE"@,
            BootArgsError::InvalidKernelRange => "INVALID_KERNEL_RANGE"@,
            BootArgsError::InvalidPhysicalMemory => "INVALID_PHYSICAL_MEMORY"@,
            BootArgsError::InvalidEfiSystemTable => "INVALID_EFI_SYSTEM_TABLE"@,
            BootArgsError::HandoffOutsideKernel => "HANDOFF_OUTSIDE_KERNEL"@,
            BootArgsError::OverlappingHandoff => "OVERLAPPING_HANDOFF"@,
        }
    }

    /// The fixed diagnostic token of this error.
    pub fn token(&self) -> (r: &'static str)
        ensures
            r@ == self.token_text(),
    {
        match self {
            BootArgsError::InvalidCommandLine => "INVALID_COMMAND_LINE",
            BootArgsError::InvalidMemoryMap => "INVALID_MEMORY_MAP",
            BootArgsError::InvalidDeviceTree => "INVALID_DEVICE_TREE",
            BootArgsError::InvalidKernelRange => "INVALID_KERNEL_RANGE",
            BootArgsError::InvalidPhysicalMemory => "INVALID_PHYSICAL_MEMORY",
            BootArgsError::InvalidEfiSystemTable => "INVALID_EFI_SYSTEM_TABLE",
            BootArgsError::HandoffOutsideKernel => "HANDOFF_OUTSIDE_KERNEL",
            BootArgsError::OverlappingHandoff => "OVERLAPPING_HANDOFF",
        }
    }
}

/// A command line the bootstrap can copy: ASCII, NUL-free, at most 1023 bytes.
pub open spec fn command_line_ok(s: &str) -> bool {
    &&& s.spec_bytes().len() <= MAX_COMMAND_LINE
    &&& is_ascii(s)
    &&& !s.spec_bytes().contains(0u8)
}

/// A nonempty range that ends at or below 4 GiB and starts above zero.
pub open spec fn low_range_ok(phys: u64, size: u64) -> bool {
    phys + size <= LOW_ADDRESS_LIMIT && phys != 0 && size != 0
}

/// The first rule that the input breaks, in the order the encoder checks them.
pub open spec fn boot_args_error(i: XnuBootArgsInput) -> Option<BootArgsError> {
    let stride = i.memory_map_descriptor_size;
    let map_end = i.memory_map_phys + i.memory_map_size;
    let dt_end = i.device_tree_phys + i.device_tree_size;
    let kernel_end = i.kernel_phys + i.kernel_size;
    if !command_line_ok(i.command_line) {
        Some(BootArgsError::InvalidCommandLine)
    } else if stride < 40 || stride % 8 != 0 || i.memory_map_descriptor_version != 1
        || i.memory_map_phys % 8 != 0 || i.memory_map_size % (stride as u64) != 0 {
        Some(BootArgsError::InvalidMemoryMap)
    } else if !low_range_ok(i.memory_map_phys, i.memory_map_size) {
        Some(BootArgsError::InvalidMemoryMap)
    } else if i.device_tree_phys % 4 != 0 || i.device_tree_size < 8 || i.device_tree_size % 4 != 0 {
        Some(BootArgsError::InvalidDeviceTree)
    } else if !low_range_ok(i.device_tree_phys, i.device_tree_size) {
        Some(BootArgsError::InvalidDeviceTree)
    } else if !low_range_ok(i.kernel_phys, i.kernel_size) {
        Some(BootArgsError::InvalidKernelRange)
    } else if i.kernel_phys % PAGE_SIZE != 0 || kernel_end + PAGE_SIZE - 1 - (kernel_end + PAGE_SIZE
        - 1) % (PAGE_SIZE as int) >= LOW_ADDRESS_LIMIT {
        Some(BootArgsError::InvalidKernelRange)
    } else if i.memory_map_phys < i.kernel_phys || map_end > kernel_end || i.device_tree_phys
        < i.kernel_phys || dt_end > kernel_end {
        Some(BootArgsError::HandoffOutsideKernel)
    } else if i.memory_map_phys < dt_end && i.device_tree_phys < map_end {
        Some(BootArgsError::OverlappingHandoff)
    } else if i.physical_memory_size == 0 || i.physical_memory_size + LOW_ADDRESS_LIMIT > u64::MAX {
        Some(BootArgsError::InvalidPhysicalMemory)
    } else if i.efi_system_table_phys == 0 || i.efi_system_table_phys % 8 != 0
        || i.efi_system_table_phys > u32::MAX {
        Some(BootArgsError::InvalidEfiSystemTable)
    } else {
        None
    }
}

/// `s` with `v` written at `off`.
pub open spec fn put(s: Seq<u8>, off: int, v: Seq<u8>) -> Seq<u8> {
    s.subrange(0, off) + v + s.subrange(off + v.len(), s.len() as int)
}

/// What a written sequence reads back: the bytes before the write unchanged, the
/// written bytes, then the bytes after it unchanged.
pub proof fn lemma_put_reads(s: Seq<u8>, off: int, v: Seq<u8>)
    requires
        0 <= off,
        off + v.len() <= s.len(),
    ensures
        put(s, off, v).len() == s.len(),
        forall|k: int| 0 <= k < s.len() ==> #[trigger] put(s, off, v)[k] == if off <= k < off + v.len() {
            v[k - off]
        } else {
            s[k]
        },
{
}

/// Revision 0, version 2, EFI64 and zero slide, with every field at its
/// little-endian offset and all other bytes zero.
pub open spec fn boot_args_layout(i: XnuBootArgsInput) -> Seq<u8> {
    let s0 = Seq::new(BOOT_ARGS_SIZE as nat, |k: int| 0u8);
    let s1 = put(s0, 2, seq![2u8, 0u8]);
    let s2 = put(s1, 4, seq![64u8]);
    let s3 = put(s2, 8, i.command_line.spec_bytes());
    let s4 = put(s3, 0x408, u32_bytes(i.memory_map_phys as u32));
    let s5 = put(s4, 0x40c, u32_bytes(i.memory_map_size as u32));
    let s6 = put(s5, 0x410, u32_bytes(i.memory_map_descriptor_size));
    let s7 = put(s6, 0x414, u32_bytes(i.memory_map_descriptor_version));
    let s8 = put(s7, 0x430, u32_bytes(i.device_tree_phys as u32));
    let s9 = put(s8, 0x434, u32_bytes(i.device_tree_size as u32));
    let s10 = put(s9, 0x438, u32_bytes(i.kernel_phys as u32));
    let s11 = put(s10, 0x43c, u32_bytes(i.kernel_size as u32));
    let s12 = put(s11, 0x450, u32_bytes(i.efi_system_table_phys as u32));
    put(s12, 0x478, u64_bytes(i.physical_memory_size))
}

/// A word written by `put` at `off` reads back, little-endian, as the value written.
pub proof fn lemma_word_written(s: Seq<u8>, off: int, x: u32)
    requires
        0 <= off,
        off + 4 <= s.len(),
    ensures
        le_u32(put(s, off, u32_bytes(x)), off) == x,
{
    lemma_u32_bytes(x);
    lemma_put_reads(s, off, u32_bytes(x));
    let b = put(s, off, u32_bytes(x));
    assert(b[off] == u32_bytes(x)[0] && b[off + 1] == u32_bytes(x)[1] && b[off + 2] == u32_bytes(x)[2] && b[off + 3]
        == u32_bytes(x)[3]);
}

/// A write that misses a word leaves it as it was.
pub proof fn lemma_word_kept(s: Seq<u8>, off: int, v: Seq<u8>, at: int)
    requires
        0 <= off,
        off + v.len() <= s.len(),
        0 <= at,
        at + 4 <= s.len(),
        at + 4 <= off || off + v.len() <= at,
    ensures
        le_u32(put(s, off, v), at) == le_u32(s, at),
{
    lemma_put_reads(s, off, v);
    let b = put(s, off, v);
    assert(b[at] == s[at] && b[at + 1] == s[at + 1] && b[at + 2] == s[at + 2] && b[at + 3] == s[at + 3]);
}

/// A 64-bit word written by `put` at `off` reads back, little-endian, as the value written.
pub proof fn lemma_dword_written(s: Seq<u8>, off: int, x: u64)
    requires
        0 <= off,
        off + 8 <= s.len(),
    ensures
        le_u64(put(s, off, u64_bytes(x)), off) == x,
{
    lemma_u64_bytes(x);
    lemma_put_reads(s, off, u64_bytes(x));
    let b = put(s, off, u64_bytes(x));
    let u = u64_bytes(x);
    assert(b[off] == u[0] && b[off + 1] == u[1] && b[off + 2] == u[2] && b[off + 3] == u[3]);
    assert(b[off + 4] == u[4] && b[off + 5] == u[5] && b[off + 6] == u[6] && b[off + 7] == u[7]);
}

/// A write that misses a 64-bit word leaves it as it was.
pub proof fn lemma_dword_kept(s: Seq<u8>, off: int, v: Seq<u8>, at: int)
    requires
        0 <= off,
        off + v.len() <= s.len(),
        0 <= at,
        at + 8 <= s.len(),
        at + 8 <= off || off + v.len() <= at,
    ensures
        le_u64(put(s, off, v), at) == le_u64(s, at),
{
    lemma_put_reads(s, off, v);
    let b = put(s, off, v);
    assert(b[at] == s[at] && b[at + 1] == s[at + 1] && b[at + 2] == s[at + 2] && b[at + 3] == s[at + 3]);
    assert(b[at + 4] == s[at + 4] && b[at + 5] == s[at + 5] && b[at + 6] == s[at + 6] && b[at + 7] == s[at + 7]);
}

/// The x86 boot_args page holds each handoff field at its place, little-endian:
/// the memory map's address, size, descriptor size and version at 0x408..0x418,
/// the device tree's address and size at 0x430 and 0x434, the kernel's address and
/// size at 0x438 and 0x43c, the EFI system table at 0x450 and the RAM size at 0x478.
pub proof fn lemma_boot_args_fields(i: XnuBootArgsInput)
    requires
        boot_args_error(i) is None,
    ensures
        boot_args_layout(i).len() == BOOT_ARGS_SIZE,
        le_u32(boot_args_layout(i), 0x408) == i.memory_map_phys,
        le_u32(boot_args_layout(i), 0x40c) == i.memory_map_size,
        le_u32(boot_args_layout(i), 0x410) == i.memory_map_descriptor_size,
        le_u32(boot_args_layout(i), 0x414) == i.memory_map_descriptor_version,
        le_u32(boot_args_layout(i), 0x430) == i.device_tree_phys,
        le_u32(boot_args_layout(i), 0x434) == i.device_tree_size,
        le_u32(boot_args_layout(i), 0x438) == i.kernel_phys,
        le_u32(boot_args_layout(i), 0x43c) == i.kernel_size,
        le_u32(boot_args_layout(i), 0x450) == i.efi_system_table_phys,
        le_u64(boot_args_layout(i), 0x478) == i.physical_memory_size,
{
    let s0 = Seq::new(BOOT_ARGS_SIZE as nat, |k: int| 0u8);
    let s1 = put(s0, 2, seq![2u8, 0u8]);
    let s2 = put(s1, 4, seq![64u8]);
    let s3 = put(s2, 8, i.command_line.spec_bytes());
    lemma_put_reads(s0, 2, seq![2u8, 0u8]);
    lemma_put_reads(s1, 4, seq![64u8]);
    lemma_put_reads(s2, 8, i.command_line.spec_bytes());
    let s4 = put(s3, 0x408, u32_bytes(i.memory_map_phys as u32));
    lemma_u32_bytes(i.memory_map_phys as u32);
    lemma_put_reads(s3, 0x408, u32_bytes(i.memory_map_phys as u32));
    lemma_word_written(s3, 0x408, i.memory_map_phys as u32);
    let s5 = put(s4, 0x40c, u32_bytes(i.memory_map_size as u32));
    lemma_u32_bytes(i.memory_map_size as u32);
    lemma_put_reads(s4, 0x40c, u32_bytes(i.memory_map_size as u32));
    lemma_word_written(s4, 0x40c, i.memory_map_size as u32);
    let s6 = put(s5, 0x410, u32_bytes(i.memory_map_descriptor_size));
    lemma_u32_bytes(i.memory_map_descriptor_size);
    lemma_put_reads(s5, 0x410, u32_bytes(i.memory_map_descriptor_size));
    lemma_word_written(s5, 0x410, i.memory_map_descriptor_size);
    let s7 = put(s6, 0x414, u32_bytes(i.memory_map_descriptor_version));
    lemma_u32_bytes(i.memory_map_descriptor_version);
    lemma_put_reads(s6, 0x414, u32_bytes(i.memory_map_descriptor_version));
    lemma_word_written(s6, 0x414, i.memory_map_descriptor_version);
    let s8 = put(s7, 0x430, u32_bytes(i.device_tree_phys as u32));
    lemma_u32_bytes(i.device_tree_phys as u32);
    lemma_put_reads(s7, 0x430, u32_bytes(i.device_tree_phys as u32));
    lemma_word_written(s7, 0x430, i.device_tree_phys as u32);
    let s9 = put(s8, 0x434, u32_bytes(i.device_tree_size as u32));
    lemma_u32_bytes(i.device_tree_size as u32);
    lemma_put_reads(s8, 0x434, u32_bytes(i.device_tree_size as u32));
    lemma_word_written(s8, 0x434, i.device_tree_size as u32);
    let s10 = put(s9, 0x438, u32_bytes(i.kernel_phys as u32));
    lemma_u32_bytes(i.kernel_phys as u32);
    lemma_put_reads(s9, 0x438, u32_bytes(i.kernel_phys as u32));
    lemma_word_written(s9, 0x438, i.kernel_phys as u32);
    let s11 = put(s10, 0x43c, u32_bytes(i.kernel_size as u32));
    lemma_u32_bytes(i.kernel_size as u32);
    lemma_put_reads(s10, 0x43c, u32_bytes(i.kernel_size as u32));
    lemma_word_written(s10, 0x43c, i.kernel_size as u32);
    let s12 = put(s11, 0x450, u32_bytes(i.efi_system_table_phys as u32));
    lemma_u32_bytes(i.efi_system_table_phys as u32);
    lemma_put_reads(s11, 0x450, u32_bytes(i.efi_system_table_phys as u32));
    lemma_word_written(s11, 0x450, i.efi_system_table_phys as u32);
    let b = put(s12, 0x478, u64_bytes(i.physical_memory_size));
    lemma_u64_bytes(i.physical_memory_size);
    lemma_put_reads(s12, 0x478, u64_bytes(i.physical_memory_size));
    assert(b == boot_args_layout(i));
    lemma_word_kept(s4, 0x40c, u32_bytes(i.memory_map_size as u32), 0x408);
    lemma_word_kept(s5, 0x410, u32_bytes(i.memory_map_descriptor_size), 0x408);
    lemma_word_kept(s6, 0x414, u32_bytes(i.memory_map_descriptor_version), 0x408);
    lemma_word_kept(s7, 0x430, u32_bytes(i.device_tree_phys as u32), 0x408);
    lemma_word_kept(s8, 0x434, u32_bytes(i.device_tree_size as u32), 0x408);
    lemma_word_kept(s9, 0x438, u32_bytes(i.kernel_phys as u32), 0x408);
    lemma_word_kept(s10, 0x43c, u32_bytes(i.kernel_size as u32), 0x408);
    lemma_word_kept(s11, 0x450, u32_bytes(i.efi_system_table_phys as u32), 0x408);
    lemma_word_kept(s12, 0x478, u64_bytes(i.physical_memory_size), 0x408);
    lemma_word_kept(s5, 0x410, u32_bytes(i.memory_map_descriptor_size), 0x40c);
    lemma_word_kept(s6, 0x414, u32_bytes(i.memory_map_descriptor_version), 0x40c);
    lemma_word_kept(s7, 0x430, u32_bytes(i.device_tree_phys as u32), 0x40c);
    lemma_word_kept(s8, 0x434, u32_bytes(i.device_tree_size as u32), 0x40c);
    lemma_word_kept(s9, 0x438, u32_bytes(i.kernel_phys as u32), 0x40c);
    lemma_word_kept(s10, 0x43c, u32_bytes(i.kernel_size as u32), 0x40c);
    lemma_word_kept(s11, 0x450, u32_bytes(i.efi_system_table_phys as u32), 0x40c);
    lemma_word_kept(s12, 0x478, u64_bytes(i.physical_memory_size), 0x40c);
    lemma_word_kept(s6, 0x414, u32_bytes(i.memory_map_descriptor_version), 0x410);
    lemma_word_kept(s7, 0x430, u32_bytes(i.device_tree_phys as u32), 0x410);
    lemma_word_kept(s8, 0x434, u32_bytes(i.device_tree_size as u32), 0x410);
    lemma_word_kept(s9, 0x438, u32_bytes(i.kernel_phys as u32), 0x410);
    lemma_word_kept(s10, 0x43c, u32_bytes(i.kernel_size as u32), 0x410);
    lemma_word_kept(s11, 0x450, u32_bytes(i.efi_system_table_phys as u32), 0x410);
    lemma_word_kept(s12, 0x478, u64_bytes(i.physical_memory_size), 0x410);
    lemma_word_kept(s7, 0x430, u32_bytes(i.device_tree_phys as u32), 0x414);
    lemma_word_kept(s8, 0x434, u32_bytes(i.device_tree_size as u32), 0x414);
    lemma_word_kept(s9, 0x438, u32_bytes(i.kernel_phys as u32), 0x414);
    lemma_word_kept(s10, 0x43c, u32_bytes(i.kernel_size as u32), 0x414);
    lemma_word_kept(s11, 0x450, u32_bytes(i.efi_system_table_phys as u32), 0x414);
    lemma_word_kept(s12, 0x478, u64_bytes(i.physical_memory_size), 0x414);
    lemma_word_kept(s8, 0x434, u32_bytes(i.device_tree_size as u32), 0x430);
    lemma_word_kept(s9, 0x438, u32_bytes(i.kernel_phys as u32), 0x430);
    lemma_word_kept(s10, 0x43c, u32_bytes(i.kernel_size as u32), 0x430);
    lemma_word_kept(s11, 0x450, u32_bytes(i.efi_system_table_phys as u32), 0x430);
    lemma_word_kept(s12, 0x478, u64_bytes(i.physical_memory_size), 0x430);
    lemma_word_kept(s9, 0x438, u32_bytes(i.kernel_phys as u32), 0x434);
    lemma_word_kept(s10, 0x43c, u32_bytes(i.kernel_size as u32), 0x434);
    lemma_word_kept(s11, 0x450, u32_bytes(i.efi_system_table_phys as u32), 0x434);
    lemma_word_kept(s12, 0x478, u64_bytes(i.physical_memory_size), 0x434);
    lemma_word_kept(s10, 0x43c, u32_bytes(i.kernel_size as u32), 0x438);
    lemma_word_kept(s11, 0x450, u32_bytes(i.efi_system_table_phys as u32), 0x438);
    lemma_word_kept(s12, 0x478, u64_bytes(i.physical_memory_size), 0x438);
    lemma_word_kept(s11, 0x450, u32_bytes(i.efi_system_table_phys as u32), 0x43c);
    lemma_word_kept(s12, 0x478, u64_bytes(i.physical_memory_size), 0x43c);
    lemma_word_kept(s12, 0x478, u64_bytes(i.physical_memory_size), 0x450);
    assert(le_u64(b, 0x478) == le_u64(u64_bytes(i.physical_memory_size), 0)) by {
        let u = u64_bytes(i.physical_memory_size);
        assert(b[0x478] == u[0] && b[0x479] == u[1] && b[0x47a] == u[2] && b[0x47b] == u[3]);
        assert(b[0x47c] == u[4] && b[0x47d] == u[5] && b[0x47e] == u[6] && b[0x47f] == u[7]);
    }
}

fn write_bytes(bytes: &mut [u8; BOOT_ARGS_SIZE], offset: usize, src: &[u8])
    requires
        offset + src@.len() <= BOOT_ARGS_SIZE,
    ensures
        final(bytes)@ == put(old(bytes)@, offset as int, src@),
{
    let mut k: usize = 0;
    while k < src.len()
        invariant
            offset + src@.len() <= BOOT_ARGS_SIZE,
            k <= src@.len(),
            bytes@.len() == BOOT_ARGS_SIZE,
            forall|j: int| 0 <= j < offset ==> bytes@[j] == old(bytes)@[j],
            forall|j: int| offset + src@.len() <= j < BOOT_ARGS_SIZE ==> bytes@[j] == old(bytes)@[j],
            forall|j: int| offset <= j < offset + k ==> bytes@[j] == src@[j - offset],
        decreases src@.len() - k,
    {
        bytes[offset + k] = src[k];
        k = k + 1;
    }
    assert(bytes@ =~= put(old(bytes)@, offset as int, src@));
}

fn command_line_valid(s: &str) -> (r: bool)
    ensures
        r == command_line_ok(s),
{
    let b = s.as_bytes();
    if b.len() > MAX_COMMAND_LINE || !s.is_ascii() {
        return false;
    }
    let mut k: usize = 0;
    while k < b.len()
        invariant
            k <= b@.len(),
            b@ == s.spec_bytes(),
            forall|j: int| 0 <= j < k ==> b@[j] != 0,
        decreases b@.len() - k,
    {
        if b[k] == 0 {
            assert(b@[k as int] == 0u8);
            return false;
        }
        k = k + 1;
    }
    assert(!b@.contains(0u8));
    true
}

/// Encode revision 0, version 2, EFI64, zero slide using explicit LE offsets.
/// EFI64 describes firmware pointer width, not the CPU entry instruction mode.
/// This is range validation only; call `flat_dt::validate` on the actual DT.
pub fn encode_boot_args(input: &XnuBootArgsInput<'_>) -> (r: Result<[u8; BOOT_ARGS_SIZE], BootArgsError>)
    ensures
        r matches Err(e) ==> boot_args_error(*input) == Some(e),
        r matches Ok(b) ==> boot_args_error(*input) is None && b@ == boot_args_layout(*input),
        boot_args_error(*input) is None ==> r is Ok,
        r matches Ok(b) ==> {
            &&& le_u32(b@, 0x408) == input.memory_map_phys
            &&& le_u32(b@, 0x40c) == input.memory_map_size
            &&& le_u32(b@, 0x410) == input.memory_map_descriptor_size
            &&& le_u32(b@, 0x414) == input.memory_map_descriptor_version
            &&& le_u32(b@, 0x430) == input.device_tree_phys
            &&& le_u32(b@, 0x434) == input.device_tree_size
            &&& le_u32(b@, 0x438) == input.kernel_phys
            &&& le_u32(b@, 0x43c) == input.kernel_size
            &&& le_u32(b@, 0x450) == input.efi_system_table_phys
            &&& le_u64(b@, 0x478) == input.physical_memory_size
        },
{
    if !command_line_valid(input.command_line) {
        return Err(BootArgsError::InvalidCommandLine);
    }
    let stride = input.memory_map_descriptor_size;
    if stride < 40 || stride % 8 != 0 || input.memory_map_descriptor_version != 1
        || input.memory_map_phys % 8 != 0 || input.memory_map_size % (stride as u64) != 0 {
        return Err(BootArgsError::InvalidMemoryMap);
    }
    let (map_phys, map_size, map_end) = low_range(
        input.memory_map_phys,
        input.memory_map_size,
        BootArgsError::InvalidMemoryMap,
    )?;
    if input.device_tree_phys % 4 != 0 || input.device_tree_size < 8 || input.device_tree_size % 4
        != 0 {
        return Err(BootArgsError::InvalidDeviceTree);
    }
    let (dt_phys, dt_size, dt_end) = low_range(
        input.device_tree_phys,
        input.device_tree_size,
        BootArgsError::InvalidDeviceTree,
    )?;
    let (kernel_phys, kernel_size, kernel_end) = low_range(
        input.kernel_phys,
        input.kernel_size,
        BootArgsError::InvalidKernelRange,
    )?;
    // vstart uses a u32 allocation cursor, then rounds it up to a page.
    let rounded = kernel_end + (PAGE_SIZE - 1);
    if input.kernel_phys % PAGE_SIZE != 0 || rounded - rounded % PAGE_SIZE >= LOW_ADDRESS_LIMIT {
        return Err(BootArgsError::InvalidKernelRange);
    }
    if input.memory_map_phys < input.kernel_phys || map_end > kernel_end || input.device_tree_phys
        < input.kernel_phys || dt_end > kernel_end {
        return Err(BootArgsError::HandoffOutsideKernel);
    }
    if input.memory_map_phys < dt_end && input.device_tree_phys < map_end {
        return Err(BootArgsError::OverlappingHandoff);
    }
    // The early physmap calculation adds 4 GiB for physical address holes.
    if input.physical_memory_size == 0 || input.physical_memory_size.checked_add(
        LOW_ADDRESS_LIMIT,
    ).is_none() {
        return Err(BootArgsError::InvalidPhysicalMemory);
    }
    if input.efi_system_table_phys == 0 || input.efi_system_table_phys % 8 != 0 {
        return Err(BootArgsError::InvalidEfiSystemTable);
    }
    if input.efi_system_table_phys > 0xffff_ffff {
        return Err(BootArgsError::InvalidEfiSystemTable);
    }
    let system_table = input.efi_system_table_phys as u32;
    let mut bytes = [0u8; BOOT_ARGS_SIZE];
    assert(bytes@ =~= Seq::new(BOOT_ARGS_SIZE as nat, |k: int| 0u8));
    let version: [u8; 2] = [2, 0];
    write_bytes(&mut bytes, 2, version.as_slice());
    let efi_mode: [u8; 1] = [64];
    write_bytes(&mut bytes, 4, efi_mode.as_slice());
    write_bytes(&mut bytes, 8, input.command_line.as_bytes());
    write_bytes(&mut bytes, 0x408, u32_le(map_phys).as_slice());
    write_bytes(&mut bytes, 0x40c, u32_le(map_size).as_slice());
    write_bytes(&mut bytes, 0x410, u32_le(stride).as_slice());
    write_bytes(&mut bytes, 0x414, u32_le(input.memory_map_descriptor_version).as_slice());
    write_bytes(&mut bytes, 0x430, u32_le(dt_phys).as_slice());
    write_bytes(&mut bytes, 0x434, u32_le(dt_size).as_slice());
    write_bytes(&mut bytes, 0x438, u32_le(kernel_phys).as_slice());
    write_bytes(&mut bytes, 0x43c, u32_le(kernel_size).as_slice());
    write_bytes(&mut bytes, 0x450, u32_le(system_table).as_slice());
    write_bytes(&mut bytes, 0x478, u64_le(input.physical_memory_size).as_slice());
    proof {
        assert(version@ =~= seq![2u8, 0u8]);
        assert(efi_mode@ =~= seq![64u8]);
        lemma_boot_args_fields(*input);
    }
    Ok(bytes)
}

fn low_range(phys: u64, size: u64, error: BootArgsError) -> (r: Result<(u32, u32, u64), BootArgsError>)
    ensures
        r is Err <==> !low_range_ok(phys, size),
        r matches Err(e) ==> e == error,
        r matches Ok(t) ==> t.0 == phys && t.1 == size && t.2 == phys + size,
{
    let end = match phys.checked_add(size) {
        Some(e) => e,
        None => return Err(error),
    };
    if phys == 0 || size == 0 || end > LOW_ADDRESS_LIMIT {
        return Err(error);
    }
    Ok((phys as u32, size as u32, end))
}

} // verus!

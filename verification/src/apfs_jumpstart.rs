//! Bounded, read-only APFS EFI Jumpstart extraction; no PE validation or execution.
//!
//! Format: Apple's File System Reference (2020-06-22), pp. 8–39. All offsets
//! are bytes relative to the supplied APFS partition, not device LBAs or
//! filesystem volume offsets.
use vstd::prelude::*;

use crate::bytes::{le_u32, le_u64, read_u32, read_u64};

verus! {

pub const NX_MAGIC: u32 = 0x4253_584e;

pub const JSDR_MAGIC: u32 = 0x5244_534a;

pub const MIN_BLOCK_SIZE: u32 = 4096;

pub const MAX_BLOCK_SIZE: u32 = 65536;

pub const MIN_CONTAINER_BYTES: u64 = 1048576;

pub const NX_JUMPSTART: usize = 1272;

pub const NX_FUSION_UUID: usize = 1280;

pub const JSDR_EXTENTS: usize = 176;

pub const EXTENT_SIZE: usize = 16;

/// A stable, partition-relative read-only byte source.
///
/// Return `Err` on short reads, media replacement or device failure. `Ok(())`
/// promises every requested byte was read. A caller must prevent concurrent
/// writes for the extraction's duration; metadata checksums do not authenticate
/// a source or prove that driver contents stayed unchanged.
pub trait ReadAt {
    type Error;

    fn read_exact_at(&mut self, offset: u64, out: &mut [u8]) -> (r: Result<(), Self::Error>)
        ensures
            final(out)@.len() == old(out)@.len(),
    ;
}

/// Resource policy, separate from APFS format limits.
#[derive(Debug, Clone, Copy, PartialEq, Eq)]
pub struct JumpstartLimits {
    pub max_driver_bytes: usize,
    pub max_extents: usize,
}

impl Default for JumpstartLimits {
    fn default() -> (r: Self)
        ensures
            r.max_driver_bytes == 16777216,
            r.max_extents == 1024,
    {
        JumpstartLimits { max_driver_bytes: 16777216, max_extents: 1024 }
    }
}

#[derive(Debug, Clone, Copy, PartialEq, Eq)]
pub struct JumpstartExtent {
    pub start_block: u64,
    pub block_count: u64,
}

/// Extracted opaque bytes. This is not a validated PE or trusted EFI image.
#[derive(Debug, Clone, PartialEq, Eq)]
pub struct JumpstartDriver {
    pub bytes: Vec<u8>,
    pub block_size: u32,
    pub container_block_count: u64,
    pub jumpstart_block: u64,
    pub container_uuid: [u8; 16],
    pub extents: Vec<JumpstartExtent>,
}

#[derive(Debug, Clone, PartialEq, Eq)]
pub enum JumpstartError<E> {
    Io(E),
    OutOfBounds,
    ArithmeticOverflow,
    Allocation,
    InvalidLimits,
    InvalidBlockSize(u32),
    InvalidContainerSize,
    SourceChanged,
    BadMagic { jumpstart: bool },
    BadChecksum { jumpstart: bool },
    InvalidObject { jumpstart: bool },
    UnsupportedFusion,
    UnsupportedFeatures(u64),
    NoJumpstart,
    NegativeAddress,
    UnsupportedVersion(u32),
    InvalidFileLength,
    DriverTooLarge,
    InvalidExtentCount,
    TooManyExtents,
    ExtentTableOutOfBounds,
    EmptyExtent,
    InsufficientExtentCapacity,
}

/// The Fletcher modulus, 2^32 - 1.
pub const FLETCHER_MODULUS: u64 = 0xffff_ffff;

/// The running sum and the sum of prefix sums over the first `n` words after
/// the eight checksum bytes.
pub open spec fn fletcher_sums(b: Seq<u8>, n: nat) -> (int, int)
    decreases n,
{
    if n == 0 {
        (0, 0)
    } else {
        let (sum, prefixes) = fletcher_sums(b, (n - 1) as nat);
        let next = (sum + le_u32(b, 8 + 4 * (n - 1))) % (FLETCHER_MODULUS as int);
        (next, (prefixes + next) % (FLETCHER_MODULUS as int))
    }
}

/// The APFS Fletcher64 check words of a whole object: high word above low word.
pub open spec fn fletcher64(b: Seq<u8>) -> int {
    let m = FLETCHER_MODULUS as int;
    let (sum, prefixes) = fletcher_sums(b, ((b.len() - 8) / 4) as nat);
    let low = m - (sum + prefixes) % m;
    let high = m - (sum + low) % m;
    high * 0x1_0000_0000 + low
}

/// The sums over the first `n` words after the checksum bytes depend on those words alone.
proof fn lemma_fletcher_sums_ignore_checksum(a: Seq<u8>, b: Seq<u8>, n: nat)
    requires
        8 + 4 * n <= a.len(),
        a.len() == b.len(),
        a.subrange(8, a.len() as int) == b.subrange(8, b.len() as int),
    ensures
        fletcher_sums(a, n) == fletcher_sums(b, n),
    decreases n,
{
    if n > 0 {
        lemma_fletcher_sums_ignore_checksum(a, b, (n - 1) as nat);
        let at = 8 + 4 * (n - 1);
        assert forall|k: int| at <= k < at + 4 implies a[k] == b[k] by {
            assert(a.subrange(8, a.len() as int)[k - 8] == b.subrange(8, b.len() as int)[k - 8]);
        }
    }
}

/// The check words of an object do not depend on its eight stored checksum bytes.
pub proof fn lemma_fletcher64_ignores_checksum(a: Seq<u8>, b: Seq<u8>)
    requires
        a.len() >= 8,
        a.len() == b.len(),
        a.subrange(8, a.len() as int) == b.subrange(8, b.len() as int),
    ensures
        fletcher64(a) == fletcher64(b),
{
    let n = ((a.len() - 8) / 4) as nat;
    lemma_fletcher_sums_ignore_checksum(a, b, n);
}

/// The running sums stay below the modulus.
proof fn lemma_fletcher_sums_bounded(b: Seq<u8>, n: nat)
    ensures
        0 <= fletcher_sums(b, n).0 < FLETCHER_MODULUS,
        0 <= fletcher_sums(b, n).1 < FLETCHER_MODULUS,
    decreases n,
{
    if n > 0 {
        lemma_fletcher_sums_bounded(b, (n - 1) as nat);
    }
}

/// The sums after one more word `w`: the running sum and the sum of prefix sums.
pub open spec fn fletcher_step(sums: (int, int), w: int) -> (int, int) {
    let m = FLETCHER_MODULUS as int;
    let next = (sums.0 + w) % m;
    (next, (sums.1 + next) % m)
}

/// The check words verify: running the sums on past the payload over the low and
/// then the high check word brings both sums to zero modulo 2^32 - 1.
pub proof fn lemma_fletcher64_verifies(b: Seq<u8>)
    requires
        b.len() >= 8,
    ensures
        fletcher_step(
            fletcher_step(fletcher_sums(b, ((b.len() - 8) / 4) as nat), fletcher64(b) % 0x1_0000_0000),
            fletcher64(b) / 0x1_0000_0000,
        ) == (0int, 0int),
{
    let m = FLETCHER_MODULUS as int;
    let n = ((b.len() - 8) / 4) as nat;
    lemma_fletcher_sums_bounded(b, n);
    let (sum, prefixes) = fletcher_sums(b, n);
    let low = m - (sum + prefixes) % m;
    let high = m - (sum + low) % m;
    assert(fletcher64(b) == high * 0x1_0000_0000 + low);
    assert(1 <= low <= m && 1 <= high <= m);
    assert((high * 0x1_0000_0000 + low) % 0x1_0000_0000 == low && (high * 0x1_0000_0000 + low) / 0x1_0000_0000
        == high) by (nonlinear_arith)
        requires
            0 <= low < 0x1_0000_0000,
            0 <= high,
    ;
    let s1 = (sum + low) % m;
    let p1 = (prefixes + s1) % m;
    let s2 = (s1 + high) % m;
    assert(p1 == 0) by {
        if sum + prefixes < m {
            assert((sum + prefixes) % m == sum + prefixes);
        } else {
            assert((sum + prefixes) % m == sum + prefixes - m);
        }
    }
    assert(s2 == 0) by {
        if sum + low < m {
            assert((sum + low) % m == sum + low);
        } else if sum + low < 2 * m {
            assert((sum + low) % m == sum + low - m);
        }
    }
}

/// Compute APFS Fletcher64 check words for one whole object block.
///
/// The first eight checksum bytes are excluded. `None` means that the supplied
/// object length is too short or is not an integral number of 32-bit words.
/// This function alone does not validate the object's format or authenticity.
pub fn fletcher64_checksum(object: &[u8]) -> (r: Option<u64>)
    ensures
        (object@.len() < 8 || object@.len() % 4 != 0) <==> r is None,
        r matches Some(v) ==> v == fletcher64(object@),
{
    if object.len() < 8 || object.len() % 4 != 0 {
        return None;
    }
    let words = (object.len() - 8) / 4;
    let mut sum: u64 = 0;
    let mut prefixes: u64 = 0;
    let mut k: usize = 0;
    while k < words
        invariant
            object@.len() >= 8,
            words == (object@.len() - 8) / 4,
            k <= words,
            sum < FLETCHER_MODULUS,
            prefixes < FLETCHER_MODULUS,
            fletcher_sums(object@, k as nat) == (sum as int, prefixes as int),
        decreases words - k,
    {
        let _n = object.len();
        let value = read_u32(object, 8 + 4 * k);
        sum = (sum + value as u64) % FLETCHER_MODULUS;
        prefixes = (prefixes + sum) % FLETCHER_MODULUS;
        k = k + 1;
    }
    let low = FLETCHER_MODULUS - ((sum + prefixes) % FLETCHER_MODULUS);
    let high = FLETCHER_MODULUS - ((sum + low) % FLETCHER_MODULUS);
    assert((high << 32u64) | low == high * 0x1_0000_0000 + low) by (bit_vector)
        requires
            high <= 0xffff_ffff,
            low <= 0xffff_ffff,
    ;
    Some((high << 32u64) | low)
}

/// A valid block size: a power of two from 4 KiB to 64 KiB.
pub open spec fn block_size_ok(size: u32) -> bool {
    size == 4096 || size == 8192 || size == 16384 || size == 32768 || size == 65536
}

fn is_power_of_two(v: u32) -> (r: bool)
    requires
        MIN_BLOCK_SIZE <= v <= MAX_BLOCK_SIZE,
    ensures
        r == block_size_ok(v),
{
    v == 4096 || v == 8192 || v == 16384 || v == 32768 || v == 65536
}

/// What every extracted driver satisfies: the declared size within the
/// policy, its extents inside the container and a valid block geometry.
pub open spec fn driver_ok(d: JumpstartDriver, partition_len: u64, limits: JumpstartLimits) -> bool {
    &&& 0 < d.bytes@.len() <= limits.max_driver_bytes
    &&& 0 < d.extents@.len() <= limits.max_extents
    &&& block_size_ok(d.block_size)
    &&& d.container_block_count * d.block_size <= partition_len
    &&& 0 < d.jumpstart_block < d.container_block_count
    &&& forall|i: int| 0 <= i < d.extents@.len() ==> {
        let e = #[trigger] d.extents@[i];
        &&& e.block_count > 0
        &&& e.start_block + e.block_count <= d.container_block_count
    }
}

/// The blocks of `extents`, in listed order.
pub open spec fn extent_blocks(extents: Seq<JumpstartExtent>) -> Seq<int>
    decreases extents.len(),
{
    if extents.len() == 0 {
        seq![]
    } else {
        let e = extents.last();
        extent_blocks(extents.drop_last()) + Seq::new(e.block_count as nat, |k: int| e.start_block + k)
    }
}

/// How many blocks of `block_size` bytes a file of `file_len` bytes occupies.
pub open spec fn blocks_for(file_len: int, block_size: int) -> int {
    (file_len + block_size - 1) / block_size
}

/// The reads that yield a file of `file_len` bytes stored in `extents`: for each
/// block it occupies, in order, the block's number and how many of its leading
/// bytes belong to the file (a whole block but for the last).
pub open spec fn read_plan(extents: Seq<JumpstartExtent>, block_size: int, file_len: int) -> Seq<(u64, usize)> {
    Seq::new(
        blocks_for(file_len, block_size) as nat,
        |i: int|
            (
                extent_blocks(extents)[i] as u64,
                (if file_len - i * block_size < block_size {
                    file_len - i * block_size
                } else {
                    block_size
                }) as usize,
            ),
    )
}

/// How many file bytes the first `n` reads of `plan` yield.
pub open spec fn taken(plan: Seq<(u64, usize)>, n: nat) -> int
    decreases n,
{
    if n == 0 {
        0
    } else {
        taken(plan, (n - 1) as nat) + plan[n - 1].1
    }
}

/// The blocks of a prefix of the extents begin the blocks of all of them.
proof fn lemma_extent_blocks_prefix(extents: Seq<JumpstartExtent>, x: int)
    requires
        0 <= x <= extents.len(),
    ensures
        extent_blocks(extents.take(x)).len() <= extent_blocks(extents).len(),
        forall|i: int| 0 <= i < extent_blocks(extents.take(x)).len() ==> #[trigger] extent_blocks(extents)[i]
            == extent_blocks(extents.take(x))[i],
    decreases extents.len(),
{
    if x < extents.len() {
        let d = extents.drop_last();
        assert(d.take(x) =~= extents.take(x));
        lemma_extent_blocks_prefix(d, x);
    } else {
        assert(extents.take(x) =~= extents);
    }
}

/// The block numbers and byte counts to read for a file of `file_len` bytes stored
/// in `extents`, or `None` when the extents hold fewer blocks than the file needs.
fn plan_reads(extents: &Vec<JumpstartExtent>, block_size: u32, file_len: usize) -> (r: Option<Vec<(u64, usize)>>)
    requires
        block_size_ok(block_size),
        file_len <= u32::MAX,
        forall|i: int| 0 <= i < extents@.len() ==> (#[trigger] extents@[i]).start_block + extents@[i].block_count
            <= u64::MAX,
    ensures
        r is None <==> extent_blocks(extents@).len() < blocks_for(file_len as int, block_size as int),
        r matches Some(p) ==> p@ == read_plan(extents@, block_size as int, file_len as int),
        r matches Some(p) ==> taken(p@, p@.len()) == file_len,
{
    let bs = block_size as u64;
    let needed: u64 = (file_len as u64 + bs - 1) / bs;
    let ghost n = blocks_for(file_len as int, block_size as int);
    let ghost plan = read_plan(extents@, block_size as int, file_len as int);
    assert(0 <= n <= file_len) by (nonlinear_arith)
        requires
            n == (file_len + bs - 1) / (bs as int),
            bs >= 1,
    ;
    let mut out: Vec<(u64, usize)> = Vec::new();
    let mut used: u64 = 0;
    let mut x: usize = 0;
    assert(extents@.take(0) =~= Seq::<JumpstartExtent>::empty());
    while x < extents.len() && (out.len() as u64) < needed
        invariant
            x <= extents@.len(),
            needed == n,
            n == blocks_for(file_len as int, block_size as int),
            plan == read_plan(extents@, block_size as int, file_len as int),
            0 <= n <= u32::MAX,
            bs == block_size,
            block_size_ok(block_size),
            file_len <= u32::MAX,
            forall|i: int| 0 <= i < extents@.len() ==> (#[trigger] extents@[i]).start_block + extents@[i].block_count
                <= u64::MAX,
            out@.len() <= n,
            used == out@.len() * bs,
            taken(out@, out@.len()) == (if used <= file_len { used as int } else { file_len as int }),
            out@.len() < n ==> out@.len() == extent_blocks(extents@.take(x as int)).len(),
            out@.len() <= extent_blocks(extents@.take(x as int)).len(),
            forall|i: int| 0 <= i < out@.len() ==> #[trigger] out@[i] == plan[i],
        decreases extents@.len() - x,
    {
        let e = extents[x];
        let ghost base = extent_blocks(extents@.take(x as int)).len();
        proof {
            let t = extents@.take(x + 1);
            assert(t.drop_last() =~= extents@.take(x as int));
            assert(t.last() == e);
            lemma_extent_blocks_prefix(extents@, x + 1);
        }
        let mut k: u64 = 0;
        while k < e.block_count && (out.len() as u64) < needed
            invariant
                k <= e.block_count,
                e == extents@[x as int],
                x < extents@.len(),
                needed == n,
                n == blocks_for(file_len as int, block_size as int),
                plan == read_plan(extents@, block_size as int, file_len as int),
                0 <= n <= u32::MAX,
                bs == block_size,
                block_size_ok(block_size),
                file_len <= u32::MAX,
                e.start_block + e.block_count <= u64::MAX,
                base == extent_blocks(extents@.take(x as int)).len(),
                extent_blocks(extents@.take(x + 1)) == extent_blocks(extents@.take(x as int)) + Seq::new(
                    e.block_count as nat,
                    |j: int| e.start_block + j,
                ),
                extent_blocks(extents@.take(x + 1)).len() <= extent_blocks(extents@).len(),
                forall|i: int| 0 <= i < extent_blocks(extents@.take(x + 1)).len() ==> #[trigger] extent_blocks(extents@)[i]
                    == extent_blocks(extents@.take(x + 1))[i],
                out@.len() <= n,
                used == out@.len() * bs,
                taken(out@, out@.len()) == (if used <= file_len { used as int } else { file_len as int }),
                out@.len() < n ==> out@.len() == base + k,
                out@.len() <= base + k,
                forall|i: int| 0 <= i < out@.len() ==> #[trigger] out@[i] == plan[i],
            decreases e.block_count - k,
        {
            let i = out.len();
            assert(i == base + k);
            assert(extent_blocks(extents@)[i as int] == e.start_block + k) by {
                assert(extent_blocks(extents@.take(x + 1))[i as int] == e.start_block + k);
            }
            assert(used < file_len as int) by (nonlinear_arith)
                requires
                    used == i * bs,
                    i < n,
                    n == (file_len + bs - 1) / (bs as int),
                    bs > 0,
            ;
            let left = file_len as u64 - used;
            let take: u64 = if left < bs {
                left
            } else {
                bs
            };
            let ghost before = out@;
            out.push((e.start_block + k, take as usize));
            assert(out@.drop_last() =~= before);
            assert(taken(out@, out@.len()) == taken(before, before.len()) + take) by {
                assert forall|j: nat| j <= before.len() implies taken(out@, j) == taken(before, j) by {
                    lemma_taken_prefix(out@, before, j);
                }
            }
            assert(used + bs == (i + 1) * bs) by (nonlinear_arith)
                requires
                    used == i * bs,
            ;
            used = used + bs;
            k = k + 1;
        }
        x = x + 1;
    }
    if (out.len() as u64) < needed {
        proof {
            assert(extents@.take(extents@.len() as int) =~= extents@);
        }
        return None;
    }
    proof {
        assert(out@.len() == n);
        assert(used >= file_len) by (nonlinear_arith)
            requires
                used == n * bs,
                n == (file_len + bs - 1) / (bs as int),
                bs >= 1,
        ;
        assert(out@ =~= plan);
        if extent_blocks(extents@).len() < n {
            lemma_extent_blocks_prefix(extents@, x as int);
        }
    }
    Some(out)
}

/// Reads that agree on a prefix yield the same bytes over it.
proof fn lemma_taken_prefix(a: Seq<(u64, usize)>, b: Seq<(u64, usize)>, j: nat)
    requires
        j <= b.len() <= a.len(),
        forall|i: int| 0 <= i < b.len() ==> a[i] == b[i],
    ensures
        taken(a, j) == taken(b, j),
    decreases j,
{
    if j > 0 {
        lemma_taken_prefix(a, b, (j - 1) as nat);
    }
}

/// The file bytes of the first `n` blocks read for `plan`: each block's leading
/// bytes that belong to the file, in order.
pub open spec fn assembled(blocks: Seq<Vec<u8>>, plan: Seq<(u64, usize)>, n: nat) -> Seq<u8>
    decreases n,
{
    if n == 0 {
        seq![]
    } else {
        assembled(blocks, plan, (n - 1) as nat) + blocks[n - 1]@.take(plan[n - 1].1 as int)
    }
}

/// Reads yield at least as many bytes as any of their prefixes.
proof fn lemma_taken_grows(plan: Seq<(u64, usize)>, i: nat, n: nat)
    requires
        i <= n,
    ensures
        taken(plan, i) <= taken(plan, n),
    decreases n,
{
    if i < n {
        lemma_taken_grows(plan, i, (n - 1) as nat);
    }
}

/// The assembled file is made of the blocks' leading bytes in plan order: its byte
/// at `taken(plan, i) + k` is byte `k` of block `i`, for each of the `plan[i].1`
/// bytes that block contributes, and it holds nothing else.
pub proof fn lemma_assembled_bytes(blocks: Seq<Vec<u8>>, plan: Seq<(u64, usize)>, n: nat)
    requires
        n <= blocks.len(),
        n <= plan.len(),
        forall|i: int| 0 <= i < n ==> (#[trigger] plan[i]).1 <= blocks[i]@.len(),
    ensures
        assembled(blocks, plan, n).len() == taken(plan, n),
        forall|i: int, k: int|
            0 <= i < n && 0 <= k < plan[i].1 ==> #[trigger] assembled(blocks, plan, n)[taken(plan, i as nat) + k]
                == #[trigger] blocks[i]@[k],
    decreases n,
{
    if n > 0 {
        let m = (n - 1) as nat;
        lemma_assembled_bytes(blocks, plan, m);
        let a = assembled(blocks, plan, m);
        let last = blocks[m as int]@.take(plan[m as int].1 as int);
        assert(assembled(blocks, plan, n) == a + last);
        assert forall|i: int, k: int| 0 <= i < n && 0 <= k < plan[i].1 implies #[trigger] assembled(blocks, plan, n)[taken(
            plan,
            i as nat,
        ) + k] == #[trigger] blocks[i]@[k] by {
            let idx = taken(plan, i as nat) + k;
            lemma_taken_grows(plan, 0, i as nat);
            if i < m {
                lemma_taken_grows(plan, (i + 1) as nat, m);
                assert(taken(plan, (i + 1) as nat) == taken(plan, i as nat) + plan[i].1);
                assert(idx < a.len());
                assert((a + last)[idx] == a[idx]);
                assert(a[idx] == blocks[i]@[k]);
            } else {
                assert(i == m);
                assert(idx == a.len() + k);
                assert(last.len() == plan[i].1);
                assert((a + last)[idx] == last[k]);
                assert(last[k] == blocks[i]@[k]);
            }
        }
    }
}

/// The driver image from the blocks read for `plan`, in plan order, each cut to the
/// bytes of it that belong to the file.
fn assemble_driver<E>(blocks: &Vec<Vec<u8>>, plan: &Vec<(u64, usize)>, file_len: usize) -> (r: Result<
    Vec<u8>,
    JumpstartError<E>,
>)
    requires
        blocks@.len() == plan@.len(),
        forall|i: int| 0 <= i < plan@.len() ==> (#[trigger] plan@[i]).1 <= blocks@[i]@.len(),
    ensures
        r matches Ok(v) ==> v@ == assembled(blocks@, plan@, plan@.len()),
        r matches Ok(v) ==> v@.len() == taken(plan@, plan@.len()),
        r matches Ok(v) ==> forall|i: int, k: int|
            0 <= i < plan@.len() && 0 <= k < plan@[i].1 ==> #[trigger] v@[taken(plan@, i as nat) + k]
                == #[trigger] blocks@[i]@[k],
        r matches Err(e) ==> e is Allocation,
{
    let mut bytes: Vec<u8> = Vec::new();
    if bytes.try_reserve(file_len).is_err() {
        return Err(JumpstartError::Allocation);
    }
    let mut i: usize = 0;
    while i < plan.len()
        invariant
            i <= plan@.len() == blocks@.len(),
            forall|j: int| 0 <= j < plan@.len() ==> (#[trigger] plan@[j]).1 <= blocks@[j]@.len(),
            bytes@ == assembled(blocks@, plan@, i as nat),
            bytes@.len() == taken(plan@, i as nat),
        decreases plan@.len() - i,
    {
        let take = plan[i].1;
        let block = blocks[i].as_slice();
        let part = &block[0..take];
        assert(part@ =~= blocks@[i as int]@.take(take as int));
        crate::bytes::push_slice(&mut bytes, part);
        i = i + 1;
    }
    proof {
        lemma_assembled_bytes(blocks@, plan@, plan@.len());
    }
    Ok(bytes)
}

/// Reads the blocks the file occupies, in the order of `plan_reads`, each bounded by
/// the container and one block, and assembles the driver from them.
fn read_driver<R: ReadAt>(
    reader: &mut R,
    extents: &Vec<JumpstartExtent>,
    block_size: u32,
    block_count: u64,
    container_bytes: u64,
    file_len: usize,
) -> (r: Result<Vec<u8>, JumpstartError<R::Error>>)
    requires
        block_size_ok(block_size),
        0 < file_len <= u32::MAX,
        forall|i: int| 0 <= i < extents@.len() ==> (#[trigger] extents@[i]).start_block + extents@[i].block_count
            <= block_count,
    ensures
        r matches Ok(v) ==> v@.len() == file_len,
        r matches Err(e) ==> e is Io || e is OutOfBounds || e is ArithmeticOverflow || e is Allocation
            || e is InsufficientExtentCapacity,
{
    // Only the blocks the bounded file occupies are read, not untrusted excess
    // extent capacity. The complete extent table was already checked above.
    let plan = match plan_reads(&extents, block_size, file_len) {
        Some(p) => p,
        None => return Err(JumpstartError::InsufficientExtentCapacity),
    };
    proof {
        assert forall|k: int| 0 <= k < plan@.len() implies (#[trigger] plan@[k]).1 <= block_size by {
            assert(plan@[k] == read_plan(extents@, block_size as int, file_len as int)[k]);
        }
    }
    let mut blocks: Vec<Vec<u8>> = Vec::new();
    if blocks.try_reserve(plan.len()).is_err() {
        return Err(JumpstartError::Allocation);
    }
    let mut r: usize = 0;
    while r < plan.len()
        invariant
            r <= plan@.len(),
            blocks@.len() == r,
            block_size_ok(block_size),
            forall|k: int| 0 <= k < plan@.len() ==> (#[trigger] plan@[k]).1 <= block_size,
            forall|k: int| 0 <= k < blocks@.len() ==> (#[trigger] blocks@[k])@.len() == block_size,
        decreases plan@.len() - r,
    {
        let offset = block_range(plan[r].0, 1, block_count, block_size)?;
        let mut buffer = zeroed_bytes(block_size as usize)?;
        read_bounded(reader, container_bytes, offset, buffer.as_mut_slice())?;
        blocks.push(buffer);
        r = r + 1;
    }
    assemble_driver(&blocks, &plan, file_len)
}

/// Extract exactly `nej_efi_file_len` bytes from a single-device APFS partition.
///
/// All metadata and extents are checked before reading driver data. Each read is
/// bounded by the caller's partition length and at most one container block.
/// Extents are concatenated in listed order, stopping at the declared file size;
/// surplus allocated blocks and final-block padding are not returned. Failures
/// return no partial image. This does not mount APFS or inspect/execute the file.
#[verifier::loop_isolation(false)]
#[verifier::rlimit(60)]
pub fn extract_jumpstart<R: ReadAt>(reader: &mut R, partition_len: u64, limits: JumpstartLimits) -> (r: Result<
    JumpstartDriver,
    JumpstartError<R::Error>,
>)
    ensures
        (limits.max_driver_bytes == 0 || limits.max_extents == 0) <==> r matches Err(JumpstartError::InvalidLimits),
        r matches Ok(d) ==> driver_ok(d, partition_len, limits),
{
    if limits.max_driver_bytes == 0 || limits.max_extents == 0 {
        return Err(JumpstartError::InvalidLimits);
    }
    // This untrusted prefix only selects a fixed-bounded metadata read. Its
    // geometry is not used to seek until the full block checksum has passed.
    let mut prefix: Vec<u8> = crate::bytes::zeros(40);
    read_bounded(reader, partition_len, 0, prefix.as_mut_slice())?;
    let block_size = read_u32(prefix.as_slice(), 36);
    if block_size < MIN_BLOCK_SIZE || block_size > MAX_BLOCK_SIZE || !is_power_of_two(block_size) {
        return Err(JumpstartError::InvalidBlockSize(block_size));
    }
    let mut block = zeroed_bytes(block_size as usize)?;
    read_bounded(reader, partition_len, 0, block.as_mut_slice())?;
    if !crate::bytes::bytes_eq(&block.as_slice()[0..40], prefix.as_slice()) {
        return Err(JumpstartError::SourceChanged);
    }
    check_object(block.as_slice(), NX_MAGIC, 1, false, None)?;
    let block_count = read_u64(block.as_slice(), 40);
    let container_bytes = match block_count.checked_mul(block_size as u64) {
        Some(v) => v,
        None => return Err(JumpstartError::ArithmeticOverflow),
    };
    if container_bytes < MIN_CONTAINER_BYTES {
        return Err(JumpstartError::InvalidContainerSize);
    }
    if container_bytes > partition_len {
        return Err(JumpstartError::OutOfBounds);
    }
    let incompatible = read_u64(block.as_slice(), 64);
    if incompatible & 0x100 != 0 || read_u64(block.as_slice(), 48) & 2 != 0 || !all_zero(block.as_slice(), NX_FUSION_UUID, NX_FUSION_UUID + 16)
        || !all_zero(block.as_slice(), 1352, 1384) {
        return Err(JumpstartError::UnsupportedFusion);
    }
    if incompatible != 2 {
        return Err(JumpstartError::UnsupportedFeatures(incompatible));
    }
    let container_uuid: [u8; 16] = [
        block[72], block[73], block[74], block[75], block[76], block[77], block[78], block[79],
        block[80], block[81], block[82], block[83], block[84], block[85], block[86], block[87],
    ];
    let jumpstart_block = positive_paddr(read_u64(block.as_slice(), NX_JUMPSTART))?;
    if jumpstart_block == 0 {
        return Err(JumpstartError::NoJumpstart);
    }
    let jumpstart_offset = block_range(jumpstart_block, 1, block_count, block_size)?;
    read_bounded(reader, container_bytes, jumpstart_offset, block.as_mut_slice())?;
    check_object(block.as_slice(), JSDR_MAGIC, 0x14, true, Some(jumpstart_block))?;
    let version = read_u32(block.as_slice(), 36);
    if version != 1 {
        return Err(JumpstartError::UnsupportedVersion(version));
    }
    let file_len = read_u32(block.as_slice(), 40) as usize;
    if file_len == 0 {
        return Err(JumpstartError::InvalidFileLength);
    }
    if file_len > limits.max_driver_bytes {
        return Err(JumpstartError::DriverTooLarge);
    }
    let count = read_u32(block.as_slice(), 44) as usize;
    if count == 0 {
        return Err(JumpstartError::InvalidExtentCount);
    }
    if count > limits.max_extents {
        return Err(JumpstartError::TooManyExtents);
    }
    let table_bytes = match count.checked_mul(EXTENT_SIZE) {
        Some(v) => v,
        None => return Err(JumpstartError::ArithmeticOverflow),
    };
    let table_end = match JSDR_EXTENTS.checked_add(table_bytes) {
        Some(v) => v,
        None => return Err(JumpstartError::ArithmeticOverflow),
    };
    if table_end > block.len() {
        return Err(JumpstartError::ExtentTableOutOfBounds);
    }
    let mut extents: Vec<JumpstartExtent> = Vec::new();
    if extents.try_reserve(count).is_err() {
        return Err(JumpstartError::Allocation);
    }
    let mut capacity: u64 = 0;
    let mut e: usize = 0;
    while e < count
        invariant
            JSDR_EXTENTS + count * EXTENT_SIZE == table_end <= block@.len(),
            e <= count,
            extents@.len() == e,
            forall|i: int| 0 <= i < extents@.len() ==> {
                let x = #[trigger] extents@[i];
                &&& x.block_count > 0
                &&& x.start_block + x.block_count <= block_count
            },
        decreases count - e,
    {
        let at = JSDR_EXTENTS + e * EXTENT_SIZE;
        let start_block = positive_paddr(read_u64(block.as_slice(), at))?;
        let blocks = read_u64(block.as_slice(), at + 8);
        if blocks == 0 {
            return Err(JumpstartError::EmptyExtent);
        }
        block_range(start_block, blocks, block_count, block_size)?;
        let size = match blocks.checked_mul(block_size as u64) {
            Some(v) => v,
            None => return Err(JumpstartError::ArithmeticOverflow),
        };
        capacity = match capacity.checked_add(size) {
            Some(v) => v,
            None => return Err(JumpstartError::ArithmeticOverflow),
        };
        extents.push(JumpstartExtent { start_block, block_count: blocks });
        e = e + 1;
    }
    if capacity < file_len as u64 {
        return Err(JumpstartError::InsufficientExtentCapacity);
    }
    let bytes = read_driver(reader, &extents, block_size, block_count, container_bytes, file_len)?;
    Ok(JumpstartDriver {
        bytes,
        block_size,
        container_block_count: block_count,
        jumpstart_block,
        container_uuid,
        extents,
    })
}

/// Whether `bytes[start..end]` are all zero.
fn all_zero(bytes: &[u8], start: usize, end: usize) -> (r: bool)
    requires
        start <= end <= bytes@.len(),
    ensures
        r == forall|k: int| start <= k < end ==> bytes@[k] == 0,
{
    let mut k = start;
    while k < end
        invariant
            start <= k <= end <= bytes@.len(),
            forall|j: int| start <= j < k ==> bytes@[j] == 0,
        decreases end - k,
    {
        if bytes[k] != 0 {
            return false;
        }
        k = k + 1;
    }
    true
}

/// The first problem of an object block, in the order the checks are made: its
/// checksum, its magic, then its type, storage, header padding, transaction and
/// (for a physical object) its own address.
pub open spec fn object_error<E>(b: Seq<u8>, magic: u32, object_type: u32, jumpstart: bool, physical_oid: Option<u64>) -> Option<
    JumpstartError<E>,
> {
    let kind = le_u32(b, 24) as u32;
    let storage = kind & 0xc000_0000;
    let wrong_oid = match physical_oid {
        Some(oid) => storage != 0x4000_0000 || le_u64(b, 8) != oid,
        None => false,
    };
    if b.len() % 4 != 0 || fletcher64(b) != le_u64(b, 0) {
        Some(JumpstartError::BadChecksum { jumpstart })
    } else if le_u32(b, 32) != magic {
        Some(JumpstartError::BadMagic { jumpstart })
    } else if kind & 0xffff != object_type || kind & 0x3fff_0000 != 0 || storage == 0xc000_0000 || le_u32(b, 28)
        != 0 || le_u64(b, 16) == 0 || wrong_oid {
        Some(JumpstartError::InvalidObject { jumpstart })
    } else {
        None
    }
}

fn check_object<E>(block: &[u8], magic: u32, object_type: u32, jumpstart: bool, physical_oid: Option<u64>) -> (r: Result<
    (),
    JumpstartError<E>,
>)
    requires
        block@.len() >= 40,
    ensures
        r == match object_error::<E>(block@, magic, object_type, jumpstart, physical_oid) {
            Some(e) => Err(e),
            None => Ok(()),
        },
{
    let stored = read_u64(block, 0);
    match fletcher64_checksum(block) {
        Some(v) => if v != stored {
            return Err(JumpstartError::BadChecksum { jumpstart });
        },
        None => return Err(JumpstartError::BadChecksum { jumpstart }),
    }
    if read_u32(block, 32) != magic {
        return Err(JumpstartError::BadMagic { jumpstart });
    }
    let kind = read_u32(block, 24);
    let storage = kind & 0xc000_0000;
    let wrong_oid = match physical_oid {
        Some(oid) => storage != 0x4000_0000 || read_u64(block, 8) != oid,
        None => false,
    };
    if kind & 0xffff != object_type || kind & 0x3fff_0000 != 0 || storage == 0xc000_0000 || read_u32(block, 28) != 0
        || read_u64(block, 16) == 0 || wrong_oid {
        return Err(JumpstartError::InvalidObject { jumpstart });
    }
    Ok(())
}

fn positive_paddr<E>(raw: u64) -> (r: Result<u64, JumpstartError<E>>)
    ensures
        r matches Ok(v) ==> v == raw && raw <= 0x7fff_ffff_ffff_ffff,
        r is Ok <==> raw <= 0x7fff_ffff_ffff_ffff,
        r matches Err(e) ==> e is NegativeAddress,
{
    if raw > 0x7fff_ffff_ffff_ffff {
        Err(JumpstartError::NegativeAddress)
    } else {
        Ok(raw)
    }
}

fn block_range<E>(start: u64, count: u64, block_count: u64, block_size: u32) -> (r: Result<u64, JumpstartError<E>>)
    ensures
        r matches Ok(v) ==> start + count <= block_count && v == start * block_size,
        r is Ok <==> start + count <= block_count && start * block_size <= u64::MAX,
        r matches Err(e) ==> e is OutOfBounds || e is ArithmeticOverflow,
{
    let end = match start.checked_add(count) {
        Some(v) => v,
        None => return Err(JumpstartError::ArithmeticOverflow),
    };
    if end > block_count {
        return Err(JumpstartError::OutOfBounds);
    }
    match start.checked_mul(block_size as u64) {
        Some(v) => Ok(v),
        None => Err(JumpstartError::ArithmeticOverflow),
    }
}

fn read_bounded<R: ReadAt>(reader: &mut R, limit: u64, offset: u64, out: &mut [u8]) -> (r: Result<(), JumpstartError<R::Error>>)
    ensures
        final(out)@.len() == old(out)@.len(),
        r is Ok ==> offset + old(out)@.len() <= limit,
        r matches Err(e) ==> (e is Io <==> offset + old(out)@.len() <= limit),
        r matches Err(e) ==> e is Io || e is OutOfBounds || e is ArithmeticOverflow,
{
    let _n = out.len();
    let end = match offset.checked_add(out.len() as u64) {
        Some(v) => v,
        None => return Err(JumpstartError::ArithmeticOverflow),
    };
    if end > limit {
        return Err(JumpstartError::OutOfBounds);
    }
    match reader.read_exact_at(offset, out) {
        Ok(()) => Ok(()),
        Err(e) => Err(JumpstartError::Io(e)),
    }
}

fn zeroed_bytes<E>(size: usize) -> (r: Result<Vec<u8>, JumpstartError<E>>)
    ensures
        r matches Ok(v) ==> v@ == Seq::new(size as nat, |k: int| 0u8),
        r matches Err(e) ==> e is Allocation,
{
    let mut bytes: Vec<u8> = Vec::new();
    if bytes.try_reserve(size).is_err() {
        return Err(JumpstartError::Allocation);
    }
    Ok(crate::bytes::zeros(size))
}

} // verus!

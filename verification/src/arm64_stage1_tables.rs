//! Owned, immutable dual-alias translation tables: guest RAM is reachable at its own
//! physical address through the low root and at a chosen high virtual base through the
//! high root. Three levels of 16 KiB tables, 2048 eight-byte entries each.
use vstd::prelude::*;
use vstd::arithmetic::div_mod::{lemma_div_denominator, lemma_div_is_ordered, lemma_fundamental_div_mod};
use crate::bytes::{le_u64, lemma_le_u64_window, read_u64, write_u64};

verus! {

pub const PAGE_SIZE: u64 = 16384;
pub const MAX_MEMORY_SIZE: u64 = 0x4000_0000;
pub const MAX_TABLE_BYTES: usize = 0x20_0000;
/// First address above the low (identity) half.
pub const LOW_END: u64 = 0x8000_0000_0000;
/// First address of the high (alias) half.
pub const HIGH_START: u64 = 0xffff_8000_0000_0000;
/// End of the 48-bit physical address space.
pub const PA_END: u64 = 0x1_0000_0000_0000;
/// Output-address bits of a descriptor.
pub const ADDRESS_MASK: u64 = 0x0000_ffff_ffff_c000;
/// T0SZ = T1SZ = 17, 16 KiB granules in both halves, 48-bit intermediate physical size.
pub const TCR: u64 = 0x5_4011_8011;
/// Low bits of a table descriptor: valid and table.
pub const TABLE_BITS: u64 = 3;
/// Low bits of a page descriptor: valid, page, access flag, Attr0, non-shareable, EL1 RWX.
pub const PAGE_BITS: u64 = 0x403;

#[derive(Debug, Clone, Copy, PartialEq, Eq, Structural)]
pub enum Error {
    InvalidRange,
    Alignment,
    AddressOverflow,
    TableCapacity,
    Allocation,
    UnmappedAddress,
}

/// The descriptor stored in the eight little-endian bytes at `at`.
pub open spec fn descriptor_at(bytes: Seq<u8>, at: int) -> u64 {
    le_u64(bytes, at) as u64
}

pub open spec fn is_table_descriptor(d: u64) -> bool {
    d == (d & ADDRESS_MASK) | TABLE_BITS
}

pub open spec fn is_page_descriptor(d: u64) -> bool {
    d == (d & ADDRESS_MASK) | PAGE_BITS
}

/// Entry `index` of the table at guest address `table`, where `bytes` is loaded at guest
/// address `base`; none where the entry lies outside `bytes`.
pub open spec fn table_entry(bytes: Seq<u8>, base: u64, table: u64, index: int) -> Option<u64> {
    let at = table - base + index * 8;
    if base <= table && 0 <= index < 2048 && at + 8 <= bytes.len() {
        Some(descriptor_at(bytes, at))
    } else {
        None
    }
}

/// The output page reached from the root table at `root` through entries `i1`, `i2`, `i3`:
/// two table descriptors and a page descriptor, each inside `bytes`.
pub open spec fn walk_entries(
    bytes: Seq<u8>,
    base: u64,
    root: u64,
    i1: int,
    i2: int,
    i3: int,
) -> Option<u64> {
    let e1 = table_entry(bytes, base, root, i1);
    if e1 is Some && is_table_descriptor(e1->0) {
        let e2 = table_entry(bytes, base, e1->0 & ADDRESS_MASK, i2);
        if e2 is Some && is_table_descriptor(e2->0) {
            let e3 = table_entry(bytes, base, e2->0 & ADDRESS_MASK, i3);
            if e3 is Some && is_page_descriptor(e3->0) {
                Some(e3->0 & ADDRESS_MASK)
            } else {
                None
            }
        } else {
            None
        }
    } else {
        None
    }
}

/// The physical address that `va` translates to from the root table at `root`.
pub open spec fn walk_address(bytes: Seq<u8>, base: u64, root: u64, va: u64) -> Option<u64> {
    match walk_entries(
        bytes,
        base,
        root,
        ((va >> 36u64) % 2048) as int,
        ((va >> 25u64) % 2048) as int,
        ((va >> 14u64) % 2048) as int,
    ) {
        Some(page) => Some((page + va % PAGE_SIZE) as u64),
        None => None,
    }
}

/// What tables built for RAM `[pb, pb + size)` with its alias at `vb` translate `va` to.
pub open spec fn expected_translation(pb: u64, vb: u64, size: u64, va: u64) -> Option<u64> {
    if pb <= va < pb + size {
        Some(va)
    } else if vb <= va < vb + size {
        Some((pb + (va - vb)) as u64)
    } else {
        None
    }
}

/// The error that `Arm64Stage1Tables::new` reports for its arguments before any table is
/// built, in the order it checks them.
pub open spec fn stage1_input_error(pb: u64, vb: u64, size: u64) -> Option<Error> {
    if pb % PAGE_SIZE != 0 || vb % PAGE_SIZE != 0 || size % PAGE_SIZE != 0 {
        Some(Error::Alignment)
    } else if size == 0 || size > MAX_MEMORY_SIZE {
        Some(Error::InvalidRange)
    } else if pb + size > u64::MAX || vb + size > u64::MAX {
        Some(Error::AddressOverflow)
    } else if pb + size > LOW_END || vb < HIGH_START {
        Some(Error::InvalidRange)
    } else {
        None
    }
}

#[derive(Debug)]
pub struct Arm64Stage1Tables {
    bytes: Vec<u8>,
    table_base: u64,
    ram_base: u64,
    virtual_base: u64,
    memory_size: u64,
}

// ---- the table structure that construction maintains ----

/// Entry `e` of table number `t`.
spec fn entry(s: Seq<u8>, t: int, e: int) -> u64 {
    descriptor_at(s, t * 16384 + e * 8)
}

/// The table descriptor that links to table number `c`.
spec fn link(tb: u64, c: int) -> u64 {
    ((tb + c * 16384) as u64) | 3
}

/// The table number a table descriptor links to.
spec fn target(tb: u64, d: u64) -> int {
    ((d & ADDRESS_MASK) - tb) / 16384
}

/// Entry `e` of table `t` is empty or links to a table one level down whose key extends
/// the key of `t` by `e`.
spec fn linked(s: Seq<u8>, tb: u64, shape: Seq<(int, int)>, t: int, e: int) -> bool {
    let d = entry(s, t, e);
    d == 0 || {
        let c = target(tb, d);
        &&& 2 <= c < shape.len()
        &&& d == link(tb, c)
        &&& shape[c].0 == shape[t].0 + 1
        &&& shape[c].1 == shape[t].1 * 2048 + e
    }
}

/// `shape[t]` is the level of table `t` and the key of the path that reaches it: the root
/// number for the roots, then one entry index per level.
spec fn shaped(s: Seq<u8>, tb: u64, shape: Seq<(int, int)>) -> bool {
    let n = shape.len();
    &&& 2 <= n
    &&& s.len() == n * 16384
    &&& tb % 16384 == 0
    &&& tb + n * 16384 <= PA_END
    &&& shape[0] == (1int, 0int)
    &&& shape[1] == (1int, 1int)
    &&& forall|t: int| 2 <= t < n ==> 2 <= (#[trigger] shape[t]).0 <= 3
    &&& forall|t: int, e: int|
        0 <= t < n && 0 <= e < 2048 && shape[t].0 < 3 ==> #[trigger] linked(s, tb, shape, t, e)
}

spec fn tables_ok(s: Seq<u8>, tb: u64) -> bool {
    exists|shape: Seq<(int, int)>| #[trigger] shaped(s, tb, shape)
}

/// The walk from root number `r`, by table numbers.
spec fn walk_tables(s: Seq<u8>, tb: u64, r: int, i1: int, i2: int, i3: int) -> Option<u64> {
    let d1 = entry(s, r, i1);
    if d1 == 0 {
        None
    } else {
        let d2 = entry(s, target(tb, d1), i2);
        if d2 == 0 {
            None
        } else {
            let d3 = entry(s, target(tb, d2), i3);
            if is_page_descriptor(d3) {
                Some(d3 & ADDRESS_MASK)
            } else {
                None
            }
        }
    }
}

/// The page number that entries `i1`, `i2`, `i3` select within one half.
spec fn page_number(i1: int, i2: int, i3: int) -> int {
    i1 * 4194304 + i2 * 2048 + i3
}

proof fn lemma_page_number(i1: int, i2: int, i3: int)
    requires
        0 <= i1 < 2048,
        0 <= i2 < 2048,
        0 <= i3 < 2048,
    ensures
        0 <= page_number(i1, i2, i3) < 8589934592,
        page_number(i1, i2, i3) / 4194304 == i1,
        (page_number(i1, i2, i3) / 2048) % 2048 == i2,
        page_number(i1, i2, i3) % 2048 == i3,
{
    let v = page_number(i1, i2, i3);
    assert(0 <= v < 8589934592) by (nonlinear_arith)
        requires
            v == i1 * 4194304 + i2 * 2048 + i3,
            0 <= i1 < 2048,
            0 <= i2 < 2048,
            0 <= i3 < 2048,
    ;
    assert(v / 4194304 == i1 && (v / 2048) % 2048 == i2 && v % 2048 == i3) by (nonlinear_arith)
        requires
            v == i1 * 4194304 + i2 * 2048 + i3,
            0 <= i1 < 2048,
            0 <= i2 < 2048,
            0 <= i3 < 2048,
    ;
}

proof fn lemma_link_bits(x: u64)
    requires
        x % 16384 == 0,
        x < 0x1_0000_0000_0000,
    ensures
        (x | 3) & ADDRESS_MASK == x,
        is_table_descriptor(x | 3),
        x | 3 != 0,
{
    assert((x | 3) & 0x0000_ffff_ffff_c000 == x && ((x | 3) & 0x0000_ffff_ffff_c000) | 3 == (x
        | 3) && x | 3 != 0) by (bit_vector)
        requires
            x % 16384 == 0,
            x < 0x1_0000_0000_0000,
    ;
}

proof fn lemma_page_bits(x: u64)
    requires
        x % 16384 == 0,
        x < 0x1_0000_0000_0000,
    ensures
        (x | 0x403) & ADDRESS_MASK == x,
        is_page_descriptor(x | 0x403),
{
    assert((x | 0x403) & 0x0000_ffff_ffff_c000 == x && ((x | 0x403) & 0x0000_ffff_ffff_c000)
        | 0x403 == (x | 0x403)) by (bit_vector)
        requires
            x % 16384 == 0,
            x < 0x1_0000_0000_0000,
    ;
}

proof fn lemma_zero_bits()
    ensures
        !is_table_descriptor(0),
        !is_page_descriptor(0),
{
    assert(0u64 != (0u64 & 0x0000_ffff_ffff_c000) | 3 && 0u64 != (0u64 & 0x0000_ffff_ffff_c000)
        | 0x403) by (bit_vector);
}

/// A link's target, read back.
proof fn lemma_link_target(tb: u64, c: int, n: int)
    requires
        tb % 16384 == 0,
        0 <= c < n,
        tb + n * 16384 <= PA_END,
    ensures
        link(tb, c) & ADDRESS_MASK == tb + c * 16384,
        target(tb, link(tb, c)) == c,
        is_table_descriptor(link(tb, c)),
        link(tb, c) != 0,
{
    let x = (tb + c * 16384) as u64;
    assert(x % 16384 == 0) by (nonlinear_arith)
        requires
            x == tb + c * 16384,
            tb % 16384 == 0,
    ;
    lemma_link_bits(x);
    assert(((x - tb) as int) / 16384 == c) by (nonlinear_arith)
        requires
            x == tb + c * 16384,
    ;
}

/// Under the shape invariant, the address walk is the walk by table numbers.
proof fn lemma_walk_by_tables(
    s: Seq<u8>,
    tb: u64,
    shape: Seq<(int, int)>,
    r: int,
    i1: int,
    i2: int,
    i3: int,
)
    requires
        shaped(s, tb, shape),
        0 <= r < 2,
        0 <= i1 < 2048,
        0 <= i2 < 2048,
        0 <= i3 < 2048,
    ensures
        walk_entries(s, tb, (tb + r * 16384) as u64, i1, i2, i3) == walk_tables(s, tb, r, i1, i2, i3),
{
    let n = shape.len() as int;
    lemma_zero_bits();
    assert((r * 16384 + i1 * 8) + 8 <= n * 16384) by (nonlinear_arith)
        requires
            0 <= r < 2,
            2 <= n,
            0 <= i1 < 2048,
    ;
    let d1 = entry(s, r, i1);
    assert(table_entry(s, tb, (tb + r * 16384) as u64, i1) == Some(d1));
    assert(linked(s, tb, shape, r, i1));
    if d1 != 0 {
        let c2 = target(tb, d1);
        lemma_link_target(tb, c2, n);
        assert((c2 * 16384 + i2 * 8) + 8 <= n * 16384) by (nonlinear_arith)
            requires
                0 <= c2 < n,
                0 <= i2 < 2048,
        ;
        assert(table_entry(s, tb, d1 & ADDRESS_MASK, i2) == Some(entry(s, c2, i2)));
        assert(shape[c2].0 == 2);
        assert(linked(s, tb, shape, c2, i2));
        let d2 = entry(s, c2, i2);
        if d2 != 0 {
            let c3 = target(tb, d2);
            lemma_link_target(tb, c3, n);
            assert((c3 * 16384 + i3 * 8) + 8 <= n * 16384) by (nonlinear_arith)
                requires
                    0 <= c3 < n,
                    0 <= i3 < 2048,
            ;
            assert(table_entry(s, tb, d2 & ADDRESS_MASK, i3) == Some(entry(s, c3, i3)));
        }
    }
}

/// Changing one entry `(t, e)` changes no walk whose path does not read it.
proof fn lemma_walk_frame(
    s: Seq<u8>,
    s2: Seq<u8>,
    tb: u64,
    shape: Seq<(int, int)>,
    t: int,
    e: int,
    r: int,
    i1: int,
    i2: int,
    i3: int,
)
    requires
        shaped(s, tb, shape),
        0 <= t < shape.len(),
        forall|t2: int, e2: int|
            0 <= t2 < shape.len() && 0 <= e2 < 2048 && (t2 != t || e2 != e) ==> #[trigger] entry(
                s2,
                t2,
                e2,
            ) == entry(s, t2, e2),
        0 <= r < 2,
        0 <= i1 < 2048,
        0 <= i2 < 2048,
        0 <= i3 < 2048,
        !(t == r && e == i1),
        !(shape[t] == (2int, r * 2048 + i1) && e == i2),
        !(shape[t] == (3int, (r * 2048 + i1) * 2048 + i2) && e == i3),
    ensures
        walk_tables(s2, tb, r, i1, i2, i3) == walk_tables(s, tb, r, i1, i2, i3),
{
    let n = shape.len() as int;
    assert(entry(s2, r, i1) == entry(s, r, i1));
    assert(linked(s, tb, shape, r, i1));
    let d1 = entry(s, r, i1);
    if d1 != 0 {
        let c2 = target(tb, d1);
        assert(shape[c2] == (2int, r * 2048 + i1));
        assert(entry(s2, c2, i2) == entry(s, c2, i2));
        assert(linked(s, tb, shape, c2, i2));
        let d2 = entry(s, c2, i2);
        if d2 != 0 {
            let c3 = target(tb, d2);
            assert(shape[c3] == (3int, (r * 2048 + i1) * 2048 + i2));
            assert(entry(s2, c3, i3) == entry(s, c3, i3));
        }
    }
}

/// Entries of the old tables survive an append, and walks read nothing else.
proof fn lemma_walk_same(
    s: Seq<u8>,
    s2: Seq<u8>,
    tb: u64,
    shape: Seq<(int, int)>,
    r: int,
    i1: int,
    i2: int,
    i3: int,
)
    requires
        shaped(s, tb, shape),
        forall|t2: int, e2: int|
            0 <= t2 < shape.len() && 0 <= e2 < 2048 ==> #[trigger] entry(s2, t2, e2) == entry(
                s,
                t2,
                e2,
            ),
        0 <= r < 2,
        0 <= i1 < 2048,
        0 <= i2 < 2048,
        0 <= i3 < 2048,
    ensures
        walk_tables(s2, tb, r, i1, i2, i3) == walk_tables(s, tb, r, i1, i2, i3),
{
    assert(entry(s2, r, i1) == entry(s, r, i1));
    assert(linked(s, tb, shape, r, i1));
    let d1 = entry(s, r, i1);
    if d1 != 0 {
        let c2 = target(tb, d1);
        assert(entry(s2, c2, i2) == entry(s, c2, i2));
        assert(linked(s, tb, shape, c2, i2));
        let d2 = entry(s, c2, i2);
        if d2 != 0 {
            let c3 = target(tb, d2);
            assert(entry(s2, c3, i3) == entry(s, c3, i3));
        }
    }
}

/// Linking an empty entry `(t, e)` of a level-1 or level-2 table to a fresh zeroed table
/// `n` changes no walk: every walk through it still ends at an empty entry.
proof fn lemma_walk_link_fresh(
    s: Seq<u8>,
    s2: Seq<u8>,
    tb: u64,
    shape: Seq<(int, int)>,
    t: int,
    e: int,
    r: int,
    i1: int,
    i2: int,
    i3: int,
)
    requires
        shaped(s, tb, shape),
        0 <= t < shape.len(),
        shape[t].0 < 3,
        0 <= e < 2048,
        entry(s, t, e) == 0,
        entry(s2, t, e) == link(tb, shape.len() as int),
        target(tb, link(tb, shape.len() as int)) == shape.len(),
        forall|e2: int| 0 <= e2 < 2048 ==> #[trigger] entry(s2, shape.len() as int, e2) == 0,
        forall|t2: int, e2: int|
            0 <= t2 < shape.len() && 0 <= e2 < 2048 && (t2 != t || e2 != e) ==> #[trigger] entry(
                s2,
                t2,
                e2,
            ) == entry(s, t2, e2),
        0 <= r < 2,
        0 <= i1 < 2048,
        0 <= i2 < 2048,
        0 <= i3 < 2048,
    ensures
        walk_tables(s2, tb, r, i1, i2, i3) == walk_tables(s, tb, r, i1, i2, i3),
{
    let n = shape.len() as int;
    lemma_zero_bits();
    assert(linked(s, tb, shape, r, i1));
    if t == r && e == i1 {
        assert(entry(s2, n, i2) == 0);
    } else {
        assert(entry(s2, r, i1) == entry(s, r, i1));
        let d1 = entry(s, r, i1);
        if d1 != 0 {
            let c2 = target(tb, d1);
            assert(linked(s, tb, shape, c2, i2));
            if t == c2 && e == i2 {
                assert(entry(s2, n, i3) == 0);
            } else {
                assert(entry(s2, c2, i2) == entry(s, c2, i2));
                let d2 = entry(s, c2, i2);
                if d2 != 0 {
                    let c3 = target(tb, d2);
                    assert(shape[c3].0 == 3);
                    assert(entry(s2, c3, i3) == entry(s, c3, i3));
                }
            }
        }
    }
}

/// Path keys name their path.
proof fn lemma_key_unique(r: int, j1: int, j2: int, q: int, k1: int, k2: int)
    requires
        0 <= r < 2,
        0 <= q < 2,
        0 <= j1 < 2048,
        0 <= j2 < 2048,
        0 <= k1 < 2048,
        0 <= k2 < 2048,
        (r * 2048 + j1) * 2048 + j2 == (q * 2048 + k1) * 2048 + k2,
    ensures
        r == q && j1 == k1 && j2 == k2,
{
    assert(r == q && j1 == k1 && j2 == k2) by (nonlinear_arith)
        requires
            0 <= r < 2,
            0 <= q < 2,
            0 <= j1 < 2048,
            0 <= j2 < 2048,
            0 <= k1 < 2048,
            0 <= k2 < 2048,
            (r * 2048 + j1) * 2048 + j2 == (q * 2048 + k1) * 2048 + k2,
    ;
}

/// One empty table.
spec fn zero_page() -> Seq<u8> {
    Seq::new(16384, |k: int| 0u8)
}

/// Entries of a byte sequence extended by an empty table.
proof fn lemma_entries_after_append(s: Seq<u8>, s2: Seq<u8>, n: int)
    requires
        s.len() == n * 16384,
        0 <= n,
        s2 == s + zero_page(),
    ensures
        forall|t: int, e: int|
            0 <= t < n && 0 <= e < 2048 ==> #[trigger] entry(s2, t, e) == entry(s, t, e),
        forall|e: int| 0 <= e < 2048 ==> #[trigger] entry(s2, n, e) == 0,
{
    assert forall|t: int, e: int| 0 <= t < n && 0 <= e < 2048 implies #[trigger] entry(s2, t, e)
        == entry(s, t, e) by {
        let at = t * 16384 + e * 8;
        assert(0 <= at && at + 8 <= n * 16384) by (nonlinear_arith)
            requires
                at == t * 16384 + e * 8,
                0 <= t < n,
                0 <= e < 2048,
        ;
        lemma_le_u64_window(s2, at, s, at);
    }
    assert forall|e: int| 0 <= e < 2048 implies #[trigger] entry(s2, n, e) == 0 by {
        let at = n * 16384 + e * 8;
        assert(s2[at] == 0 && s2[at + 1] == 0 && s2[at + 2] == 0 && s2[at + 3] == 0);
        assert(s2[at + 4] == 0 && s2[at + 5] == 0 && s2[at + 6] == 0 && s2[at + 7] == 0);
    }
}

/// The entry indices of `va` select its page number within its half.
proof fn lemma_va_indices(va: u64)
    ensures
        page_number(
            ((va >> 36u64) % 2048) as int,
            ((va >> 25u64) % 2048) as int,
            ((va >> 14u64) % 2048) as int,
        ) == ((va >> 14u64) % 8589934592) as int,
        (va >> 47u64 == 0) == (va < LOW_END),
        (va >> 47u64 == 0x1ffff) == (va >= HIGH_START),
        va < LOW_END ==> (va >> 14u64) % 8589934592 == va / 16384,
        va >= HIGH_START ==> (va >> 14u64) % 8589934592 == (va - HIGH_START) / 16384,
{
    assert(((va >> 36u64) % 2048) * 4194304 + ((va >> 25u64) % 2048) * 2048 + (va >> 14u64) % 2048
        == (va >> 14u64) % 8589934592) by (bit_vector);
    assert((va >> 47u64 == 0) == (va < 0x8000_0000_0000)) by (bit_vector);
    assert((va >> 47u64 == 0x1ffff) == (va >= 0xffff_8000_0000_0000)) by (bit_vector);
    assert(va < 0x8000_0000_0000 ==> (va >> 14u64) % 8589934592 == va / 16384) by (bit_vector);
    assert(va >= 0xffff_8000_0000_0000 ==> (va >> 14u64) % 8589934592 == (va
        - 0xffff_8000_0000_0000) / 16384) by (bit_vector);
}

/// Page-granular containment.
proof fn lemma_page_range(a: int, base: int, len: int)
    requires
        0 <= a,
        0 <= base,
        0 <= len,
        base % 16384 == 0,
        len % 16384 == 0,
    ensures
        (base / 16384 <= a / 16384 < base / 16384 + len / 16384) == (base <= a < base + len),
        (a / 16384) * 16384 + a % 16384 == a,
        0 <= a % 16384 < 16384,
{
    assert((base / 16384 <= a / 16384 < base / 16384 + len / 16384) == (base <= a < base + len))
        by (nonlinear_arith)
        requires
            0 <= a,
            0 <= base,
            0 <= len,
            base % 16384 == 0,
            len % 16384 == 0,
    ;
}

/// What the tables map after the first `k0` pages of the low half and the first `k1`
/// pages of the high half are in place.
spec fn mapped_page(pb: u64, vb: u64, k0: int, k1: int, q: int, v: int) -> Option<u64> {
    if q == 0 {
        if pb / 16384 <= v < pb / 16384 + k0 {
            Some((v * 16384) as u64)
        } else {
            None
        }
    } else {
        let q0 = (vb - HIGH_START) / 16384;
        if q0 <= v < q0 + k1 {
            Some((pb + (v - q0) * 16384) as u64)
        } else {
            None
        }
    }
}

/// The tables that mapping a page through entry `i1` of root `q` and entry `i2` below
/// it adds: both lower tables where the root entry is empty, the last one where only
/// the entry below is empty, none where the path exists.
spec fn fresh_tables(s: Seq<u8>, tb: u64, q: int, i1: int, i2: int) -> int {
    let d1 = entry(s, q, i1);
    if d1 == 0 {
        2
    } else if entry(s, target(tb, d1), i2) == 0 {
        1
    } else {
        0
    }
}

/// A page number below 2^33 is its three table indices put together.
proof fn lemma_page_split(p: int)
    requires
        0 <= p < 8589934592,
    ensures
        0 <= p / 4194304 < 2048,
        p == page_number(p / 4194304, (p / 2048) % 2048, p % 2048),
{
    lemma_fundamental_div_mod(p, 2048);
    lemma_fundamental_div_mod(p / 2048, 2048);
    lemma_div_denominator(p, 2048, 2048);
    let a = p / 4194304;
    let b = (p / 2048) % 2048;
    let c = p % 2048;
    assert(p == a * 4194304 + b * 2048 + c) by (nonlinear_arith)
        requires
            p == 2048 * (p / 2048) + c,
            p / 2048 == 2048 * a + b,
    ;
    assert(0 <= a < 2048) by (nonlinear_arith)
        requires
            a == p / 4194304,
            0 <= p < 8589934592,
    ;
}

/// The number of tables below one root that mapping `k` consecutive pages from page
/// number `f` on creates: two for the first page, then one for each later page that
/// enters a new middle-level table and one more for each that enters a new upper entry.
spec fn tables_for(f: int, k: int) -> int {
    if k <= 0 {
        0
    } else {
        2 + ((f + k - 1) / 4194304 - f / 4194304) + ((f + k - 1) / 2048 - f / 2048)
    }
}

/// At most 65536 pages, a gigabyte, need at most 35 tables below a root.
proof fn lemma_tables_for_bound(f: int, k: int)
    requires
        0 <= f,
        0 <= k <= 65536,
    ensures
        0 <= tables_for(f, k) <= 35,
{
    if k > 0 {
        let d = k - 1;
        lemma_fundamental_div_mod(f, 2048);
        lemma_fundamental_div_mod(f + d, 2048);
        lemma_fundamental_div_mod(f, 4194304);
        lemma_fundamental_div_mod(f + d, 4194304);
        lemma_div_is_ordered(f, f + d, 2048);
        lemma_div_is_ordered(f, f + d, 4194304);
    }
}

/// Mapping the page after a mapped page adds no more tables than the number of table
/// indices that change from the one page to the next.
proof fn lemma_fresh_after(s: Seq<u8>, tb: u64, q: int, p: int)
    requires
        1 <= p < 8589934592,
        walk_tables(s, tb, q, (p - 1) / 4194304, ((p - 1) / 2048) % 2048, (p - 1) % 2048) is Some,
    ensures
        fresh_tables(s, tb, q, p / 4194304, (p / 2048) % 2048) <= (p / 4194304 - (p - 1) / 4194304)
            + (p / 2048 - (p - 1) / 2048),
{
    lemma_div_denominator(p, 2048, 2048);
    lemma_div_denominator(p - 1, 2048, 2048);
    lemma_div_is_ordered(p - 1, p, 2048);
    lemma_div_is_ordered(p - 1, p, 4194304);
    lemma_div_is_ordered((p - 1) / 2048, p / 2048, 2048);
}

/// The table budget of one mapping step: mapping page `f + k` at `va` below root `q`,
/// after pages `f .. f + k` are mapped there, stays within the tables counted for
/// `k + 1` pages and within the table limit.
proof fn lemma_step_budget(s: Seq<u8>, tb: u64, q: int, va: u64, f: int, k: int, other: int)
    requires
        0 <= f,
        0 <= k < 65536,
        0 <= other <= 35,
        f + k < 8589934592,
        ((va >> 14u64) % 8589934592) as int == f + k,
        k > 0 ==> walk_tables(
            s,
            tb,
            q,
            (f + k - 1) / 4194304,
            ((f + k - 1) / 2048) % 2048,
            (f + k - 1) % 2048,
        ) is Some,
        s.len() <= 16384 * (2 + tables_for(f, k) + other),
    ensures
        s.len() + 16384 * fresh_tables(s, tb, q, ((va >> 36u64) % 2048) as int, ((va >> 25u64) % 2048) as int)
            <= 16384 * (2 + tables_for(f, k + 1) + other),
        16384 * (2 + tables_for(f, k + 1) + other) <= MAX_TABLE_BYTES,
{
    let pn = f + k;
    let j1 = ((va >> 36u64) % 2048) as int;
    let j2 = ((va >> 25u64) % 2048) as int;
    let j3 = ((va >> 14u64) % 2048) as int;
    lemma_va_indices(va);
    lemma_page_number(j1, j2, j3);
    lemma_page_split(pn);
    assert(j1 == pn / 4194304 && j2 == (pn / 2048) % 2048);
    if k > 0 {
        lemma_fresh_after(s, tb, q, pn);
    }
    lemma_tables_for_bound(f, k + 1);
}

/// The walk of every entry triple below either root gives the page `mapped_page` names
/// after `k0` low and `k1` high pages are mapped.
spec fn walks_match(s: Seq<u8>, tb: u64, pb: u64, vb: u64, k0: int, k1: int) -> bool {
    forall|q: int, j1: int, j2: int, j3: int|
        0 <= q < 2 && 0 <= j1 < 2048 && 0 <= j2 < 2048 && 0 <= j3 < 2048 ==> #[trigger] walk_tables(
            s,
            tb,
            q,
            j1,
            j2,
            j3,
        ) == mapped_page(pb, vb, k0, k1, q, page_number(j1, j2, j3))
}

impl Arm64Stage1Tables {
    /// The table bytes, loaded at guest address `table_address()`.
    pub closed spec fn table_bytes(&self) -> Seq<u8> {
        self.bytes@
    }

    pub closed spec fn table_address(&self) -> u64 {
        self.table_base
    }

    pub closed spec fn ram_start(&self) -> u64 {
        self.ram_base
    }

    pub closed spec fn alias_start(&self) -> u64 {
        self.virtual_base
    }

    pub closed spec fn ram_size(&self) -> u64 {
        self.memory_size
    }

    /// What the tables translate `va` to: the low half through the first root, the high
    /// half through the second.
    pub open spec fn translate(&self, va: u64) -> Option<u64> {
        if va >> 47u64 == 0 {
            walk_address(self.table_bytes(), self.table_address(), self.table_address(), va)
        } else if va >> 47u64 == 0x1ffff {
            walk_address(
                self.table_bytes(),
                self.table_address(),
                (self.table_address() + PAGE_SIZE) as u64,
                va,
            )
        } else {
            None
        }
    }

    /// Appends one zeroed table and returns its byte offset.
    fn allocate_table(&mut self) -> (r: Result<usize, Error>)
        requires
            old(self).table_base <= LOW_END,
            old(self).bytes@.len() <= MAX_TABLE_BYTES,
        ensures
            final(self).table_base == old(self).table_base,
            final(self).ram_base == old(self).ram_base,
            final(self).virtual_base == old(self).virtual_base,
            final(self).memory_size == old(self).memory_size,
            final(self).bytes@.len() <= MAX_TABLE_BYTES,
            match r {
                Ok(start) => {
                    &&& start == old(self).bytes@.len()
                    &&& final(self).bytes@ == old(self).bytes@ + zero_page()
                    &&& final(self).table_base + final(self).bytes@.len() <= PA_END
                },
                Err(e) => (e == Error::TableCapacity || e == Error::Allocation)
                    && final(self).bytes@ == old(self).bytes@,
            },
            old(self).bytes@.len() + 16384 <= MAX_TABLE_BYTES ==> (r matches Err(e) ==> e
                == Error::Allocation),
    {
        let start = self.bytes.len();
        let end = match start.checked_add(PAGE_SIZE as usize) {
            Some(end) => end,
            None => return Err(Error::TableCapacity),
        };
        if end > MAX_TABLE_BYTES {
            return Err(Error::TableCapacity);
        }
        match self.table_base.checked_add(end as u64) {
            Some(limit) => {
                if limit > PA_END {
                    return Err(Error::AddressOverflow);
                }
            },
            None => return Err(Error::AddressOverflow),
        }
        if self.bytes.try_reserve(PAGE_SIZE as usize).is_err() {
            return Err(Error::Allocation);
        }
        self.bytes.resize(end, 0);
        assert(self.bytes@ =~= old(self).bytes@ + zero_page());
        Ok(start)
    }

    /// Follows entry `index` of the table at byte offset `table` one level down, first
    /// linking a fresh zeroed table there when the entry is empty.
    fn next_table(&mut self, table: usize, index: usize, Ghost(shape): Ghost<Seq<(int, int)>>) -> (r: (
        Result<usize, Error>,
        Ghost<Seq<(int, int)>>,
    ))
        requires
            shaped(old(self).bytes@, old(self).table_base, shape),
            old(self).table_base <= LOW_END,
            old(self).bytes@.len() <= MAX_TABLE_BYTES,
            table % 16384 == 0,
            table / 16384 < shape.len(),
            shape[(table / 16384) as int].0 < 3,
            index < 2048,
        ensures
            final(self).table_base == old(self).table_base,
            final(self).ram_base == old(self).ram_base,
            final(self).virtual_base == old(self).virtual_base,
            final(self).memory_size == old(self).memory_size,
            final(self).bytes@.len() <= MAX_TABLE_BYTES,
            match r.0 {
                Ok(next) => {
                    let s2 = r.1@;
                    let t = (table / 16384) as int;
                    let nx = (next / 16384) as int;
                    &&& shaped(final(self).bytes@, final(self).table_base, s2)
                    &&& next % 16384 == 0
                    &&& 2 <= next / 16384 < s2.len()
                    &&& entry(final(self).bytes@, t, index as int) == link(
                        final(self).table_base,
                        nx,
                    )
                    &&& s2[nx] == (shape[t].0 + 1, shape[t].1 * 2048 + index)
                    &&& shape.len() <= s2.len()
                    &&& forall|i: int| 0 <= i < shape.len() ==> s2[i] == shape[i]
                    &&& forall|t2: int, e2: int|
                        0 <= t2 < shape.len() && 0 <= e2 < 2048 && (t2 != t || e2 != index)
                            ==> #[trigger] entry(final(self).bytes@, t2, e2) == entry(
                            old(self).bytes@,
                            t2,
                            e2,
                        )
                    &&& forall|q: int, j1: int, j2: int, j3: int|
                        0 <= q < 2 && 0 <= j1 < 2048 && 0 <= j2 < 2048 && 0 <= j3 < 2048
                            ==> #[trigger] walk_tables(final(self).bytes@, final(self).table_base, q, j1, j2, j3)
                            == walk_tables(old(self).bytes@, old(self).table_base, q, j1, j2, j3)
                    &&& entry(old(self).bytes@, t, index as int) == 0 ==> {
                        &&& final(self).bytes@.len() == old(self).bytes@.len() + 16384
                        &&& forall|e: int| 0 <= e < 2048 ==> #[trigger] entry(final(self).bytes@, nx, e) == 0
                    }
                    &&& entry(old(self).bytes@, t, index as int) != 0 ==> {
                        &&& final(self).bytes@ == old(self).bytes@
                        &&& nx == target(old(self).table_base, entry(old(self).bytes@, t, index as int))
                    }
                },
                Err(e) => e == Error::TableCapacity || e == Error::Allocation,
            },
            entry(old(self).bytes@, (table / 16384) as int, index as int) != 0 ==> r.0 is Ok,
            old(self).bytes@.len() + 16384 <= MAX_TABLE_BYTES ==> (r.0 matches Err(e) ==> e
                == Error::Allocation),
    {
        let ghost s0 = self.bytes@;
        let ghost tb = self.table_base;
        let ghost n = shape.len() as int;
        let ghost t: int = (table / 16384) as int;
        proof {
            assert(table + index * 8 + 8 <= n * 16384) by (nonlinear_arith)
                requires
                    table == t * 16384,
                    0 <= t < n,
                    index < 2048,
            ;
            assert(linked(s0, tb, shape, t, index as int));
        }
        let slot = table + index * 8;
        let descriptor = read_u64(&self.bytes, slot);
        assert(descriptor == entry(s0, t, index as int));
        if descriptor == 0 {
            let next = match self.allocate_table() {
                Ok(next) => next,
                Err(e) => return (Err(e), Ghost(shape)),
            };
            let ghost s1 = self.bytes@;
            let ghost shape2 = shape.push((shape[t].0 + 1, shape[t].1 * 2048 + index));
            proof {
                lemma_entries_after_append(s0, s1, n);
                lemma_link_target(tb, n, n + 1);
                assert(next == n * 16384);
            }
            let value = (self.table_base + next as u64) | 3;
            write_u64(&mut self.bytes, slot, value);
            proof {
                let s2 = self.bytes@;
                assert(value == link(tb, n));
                assert forall|t2: int, e2: int|
                    0 <= t2 <= n && 0 <= e2 < 2048 && (t2 != t || e2 != index) implies #[trigger] entry(
                    s2,
                    t2,
                    e2,
                ) == entry(s1, t2, e2) by {
                    let at = t2 * 16384 + e2 * 8;
                    assert(0 <= at && at + 8 <= (n + 1) * 16384 && (at + 8 <= slot || slot + 8
                        <= at)) by (nonlinear_arith)
                        requires
                            at == t2 * 16384 + e2 * 8,
                            slot == t * 16384 + index * 8,
                            0 <= t2 <= n,
                            0 <= e2 < 2048,
                            0 <= t < n,
                            index < 2048,
                            t2 != t || e2 != index,
                    ;
                    lemma_le_u64_window(s2, at, s1, at);
                }
                assert(entry(s2, t, index as int) == link(tb, n));
                assert forall|t2: int, e2: int|
                    0 <= t2 < n + 1 && 0 <= e2 < 2048 && shape2[t2].0 < 3 implies #[trigger] linked(
                    s2,
                    tb,
                    shape2,
                    t2,
                    e2,
                ) by {
                    if t2 == t && e2 == index {
                    } else if t2 == n {
                        assert(entry(s2, t2, e2) == 0);
                    } else {
                        assert(linked(s0, tb, shape, t2, e2));
                        assert(entry(s2, t2, e2) == entry(s0, t2, e2));
                    }
                }
                assert forall|t2: int| 2 <= t2 < n + 1 implies 2 <= (#[trigger] shape2[t2]).0
                    <= 3 by {
                    if t2 < n {
                        assert(shape2[t2] == shape[t2]);
                    }
                }
                assert(shaped(s2, tb, shape2));
                assert forall|q: int, j1: int, j2: int, j3: int|
                    0 <= q < 2 && 0 <= j1 < 2048 && 0 <= j2 < 2048 && 0 <= j3 < 2048 implies #[trigger] walk_tables(
                    s2,
                    tb,
                    q,
                    j1,
                    j2,
                    j3,
                ) == walk_tables(s0, tb, q, j1, j2, j3) by {
                    lemma_walk_link_fresh(s0, s2, tb, shape, t, index as int, q, j1, j2, j3);
                }
                assert forall|e: int| 0 <= e < 2048 implies #[trigger] entry(s2, n, e) == 0 by {
                    assert(entry(s2, n, e) == entry(s1, n, e));
                }
                assert(next / 16384 == n);
            }
            (Ok(next), Ghost(shape2))
        } else {
            proof {
                lemma_link_target(tb, target(tb, descriptor), n);
            }
            let next = ((descriptor & ADDRESS_MASK) - self.table_base) as usize;
            proof {
                let c = target(tb, descriptor);
                assert(next == c * 16384);
                assert(next % 16384 == 0 && next / 16384 == c) by (nonlinear_arith)
                    requires
                        next == c * 16384,
                ;
            }
            (Ok(next), Ghost(shape))
        }
    }

    /// Maps the page at `va` to `pa` from the root table at byte offset `root`.
    fn map_page(&mut self, root: usize, va: u64, pa: u64) -> (r: Result<(), Error>)
        requires
            tables_ok(old(self).bytes@, old(self).table_base),
            old(self).table_base <= LOW_END,
            old(self).bytes@.len() <= MAX_TABLE_BYTES,
            root == 0 || root == 16384,
            pa % 16384 == 0,
            pa < LOW_END,
        ensures
            final(self).table_base == old(self).table_base,
            final(self).ram_base == old(self).ram_base,
            final(self).virtual_base == old(self).virtual_base,
            final(self).memory_size == old(self).memory_size,
            final(self).bytes@.len() <= MAX_TABLE_BYTES,
            match r {
                Ok(()) => {
                    &&& tables_ok(final(self).bytes@, final(self).table_base)
                    &&& forall|q: int, j1: int, j2: int, j3: int|
                        0 <= q < 2 && 0 <= j1 < 2048 && 0 <= j2 < 2048 && 0 <= j3 < 2048
                            ==> #[trigger] walk_tables(final(self).bytes@, final(self).table_base, q, j1, j2, j3)
                            == if q == root / 16384 && j1 == (va >> 36u64) % 2048 && j2 == (va
                            >> 25u64) % 2048 && j3 == (va >> 14u64) % 2048 {
                            Some(pa)
                        } else {
                            walk_tables(old(self).bytes@, old(self).table_base, q, j1, j2, j3)
                        }
                },
                Err(e) => e == Error::TableCapacity || e == Error::Allocation,
            },
            r is Ok ==> final(self).bytes@.len() == old(self).bytes@.len() + 16384 * fresh_tables(
                old(self).bytes@,
                old(self).table_base,
                (root / 16384) as int,
                ((va >> 36u64) % 2048) as int,
                ((va >> 25u64) % 2048) as int,
            ),
            old(self).bytes@.len() + 16384 * fresh_tables(
                old(self).bytes@,
                old(self).table_base,
                (root / 16384) as int,
                ((va >> 36u64) % 2048) as int,
                ((va >> 25u64) % 2048) as int,
            ) <= MAX_TABLE_BYTES ==> (r matches Err(e) ==> e == Error::Allocation),
    {
        let ghost tb = self.table_base;
        let ghost s0 = self.bytes@;
        let ghost shape0 = choose|shape: Seq<(int, int)>| shaped(s0, tb, shape);
        let i1 = ((va >> 36u64) & 0x7ff) as usize;
        let i2 = ((va >> 25u64) & 0x7ff) as usize;
        let i3 = ((va >> 14u64) & 0x7ff) as usize;
        proof {
            assert((va >> 36u64) & 0x7ff == (va >> 36u64) % 2048 && (va >> 25u64) & 0x7ff == (va
                >> 25u64) % 2048 && (va >> 14u64) & 0x7ff == (va >> 14u64) % 2048) by (bit_vector);
        }
        let ghost t1: int = (root / 16384) as int;
        let (first, Ghost(shape1)) = self.next_table(root, i1, Ghost(shape0));
        let l2 = match first {
            Ok(next) => next,
            Err(e) => return Err(e),
        };
        let ghost s1 = self.bytes@;
        let ghost t2: int = (l2 / 16384) as int;
        proof {
            let d1 = entry(s0, t1, i1 as int);
            if d1 == 0 {
                assert(entry(s1, t2, i2 as int) == 0);
            } else {
                assert(s1 == s0);
                assert(t2 == target(tb, d1));
            }
        }
        let (second, Ghost(shape2)) = self.next_table(l2, i2, Ghost(shape1));
        let l3 = match second {
            Ok(next) => next,
            Err(e) => return Err(e),
        };
        let ghost s2 = self.bytes@;
        let ghost t3: int = (l3 / 16384) as int;
        let ghost n = shape2.len() as int;
        proof {
            assert(l3 + i3 * 8 + 8 <= n * 16384) by (nonlinear_arith)
                requires
                    l3 == t3 * 16384,
                    0 <= t3 < n,
                    i3 < 2048,
            ;
            lemma_page_bits(pa);
            assert(entry(s2, t1, i1 as int) == entry(s1, t1, i1 as int));
            assert(shape2[t2] == shape1[t2]);
        }
        let slot = l3 + i3 * 8;
        write_u64(&mut self.bytes, slot, pa | 0x403);
        proof {
            let s3 = self.bytes@;
            let key3 = (t1 * 2048 + i1) * 2048 + i2;
            assert(shape2[t3] == (3int, key3));
            assert forall|t: int, e: int|
                0 <= t < n && 0 <= e < 2048 && (t != t3 || e != i3) implies #[trigger] entry(
                s3,
                t,
                e,
            ) == entry(s2, t, e) by {
                let at = t * 16384 + e * 8;
                assert(0 <= at && at + 8 <= n * 16384 && (at + 8 <= slot || slot + 8 <= at))
                    by (nonlinear_arith)
                    requires
                        at == t * 16384 + e * 8,
                        slot == t3 * 16384 + i3 * 8,
                        0 <= t < n,
                        0 <= e < 2048,
                        0 <= t3 < n,
                        i3 < 2048,
                        t != t3 || e != i3,
                ;
                lemma_le_u64_window(s3, at, s2, at);
            }
            assert(entry(s3, t3, i3 as int) == pa | 0x403);
            assert forall|t: int, e: int|
                0 <= t < n && 0 <= e < 2048 && shape2[t].0 < 3 implies #[trigger] linked(
                s3,
                tb,
                shape2,
                t,
                e,
            ) by {
                assert(linked(s2, tb, shape2, t, e));
            }
            assert(shaped(s3, tb, shape2));
            assert forall|q: int, j1: int, j2: int, j3: int|
                0 <= q < 2 && 0 <= j1 < 2048 && 0 <= j2 < 2048 && 0 <= j3 < 2048 implies #[trigger] walk_tables(
                s3,
                tb,
                q,
                j1,
                j2,
                j3,
            ) == if q == t1 && j1 == i1 && j2 == i2 && j3 == i3 {
                Some(pa)
            } else {
                walk_tables(s0, tb, q, j1, j2, j3)
            } by {
                if q == t1 && j1 == i1 && j2 == i2 && j3 == i3 {
                    lemma_link_target(tb, t2, n);
                    lemma_link_target(tb, t3, n);
                    assert(entry(s3, t1, i1 as int) == link(tb, t2));
                    assert(entry(s3, t2, i2 as int) == link(tb, t3));
                } else {
                    if shape2[t3] == (3int, (q * 2048 + j1) * 2048 + j2) && i3 == j3 {
                        lemma_key_unique(t1, i1 as int, i2 as int, q, j1, j2);
                    }
                    lemma_walk_frame(s2, s3, tb, shape2, t3, i3 as int, q, j1, j2, j3);
                }
            }
        }
        Ok(())
    }

    /// Maps RAM page `offset / 16384` at itself below the low root.
    fn map_low(&mut self, offset: u64) -> (r: Result<(), Error>)
        requires
            old(self).step_ok(),
            offset % 16384 == 0,
            offset < old(self).memory_size,
            walks_match(old(self).bytes@, old(self).table_base, old(self).ram_base, old(self).virtual_base, (offset / 16384) as int, (offset / 16384) as int),
            old(self).bytes@.len() <= 16384 * (2 + tables_for((old(self).ram_base / 16384) as int, (offset / 16384) as int)
                + tables_for((old(self).virtual_base - HIGH_START) / 16384, (offset / 16384) as int)),
        ensures
            final(self).table_base == old(self).table_base,
            final(self).ram_base == old(self).ram_base,
            final(self).virtual_base == old(self).virtual_base,
            final(self).memory_size == old(self).memory_size,
            r is Ok ==> {
                &&& final(self).step_ok()
                &&& walks_match(final(self).bytes@, final(self).table_base, final(self).ram_base, final(self).virtual_base, offset / 16384 + 1, (offset / 16384) as int)
                &&& final(self).bytes@.len() <= 16384 * (2 + tables_for((final(self).ram_base / 16384) as int, offset / 16384 + 1)
                    + tables_for((final(self).virtual_base - HIGH_START) / 16384, (offset / 16384) as int))
            },
            r matches Err(e) ==> e == Error::Allocation,
    {
        let ghost pb = self.ram_base;
        let ghost vb = self.virtual_base;
        let ghost fl: int = (pb / 16384) as int;
        let ghost fh: int = (vb - HIGH_START) / 16384;
        let ghost k: int = (offset / 16384) as int;
        let pa = self.ram_base + offset;
        let ghost s0 = self.bytes@;
        proof {
            lemma_va_indices(pa);
            assert(pa / 16384 == pb / 16384 + k) by (nonlinear_arith)
                requires
                    pa == pb + offset,
                    pb % 16384 == 0,
                    offset % 16384 == 0,
                    k == offset / 16384,
            ;
            assert(pa % 16384 == 0) by (nonlinear_arith)
                requires
                    pa == pb + offset,
                    pb % 16384 == 0,
                    offset % 16384 == 0,
            ;
        }
        assert(s0.len() + 16384 * fresh_tables(s0, self.table_base, 0, ((pa >> 36u64) % 2048) as int, ((pa
            >> 25u64) % 2048) as int) <= 16384 * (2 + tables_for(fl, k + 1) + tables_for(fh, k)) <= MAX_TABLE_BYTES)
            by {
            let pn = fl + k;
            assert(pn < 8589934592);
            assert(((pa >> 14u64) % 8589934592) as int == pn);
            if k > 0 {
                lemma_page_split(pn - 1);
                let q1 = (pn - 1) / 4194304;
                let q2 = ((pn - 1) / 2048) % 2048;
                let q3 = (pn - 1) % 2048;
                assert(walk_tables(s0, self.table_base, 0, q1, q2, q3) == mapped_page(pb, vb, k, k, 0, page_number(q1, q2, q3)));
            }
            lemma_tables_for_bound(fh, k);
            lemma_step_budget(s0, self.table_base, 0, pa, fl, k, tables_for(fh, k));
        }
        if let Err(e) = self.map_page(0, pa, pa) {
            return Err(e);
        }
        let ghost s1 = self.bytes@;
        proof {
            assert forall|q: int, j1: int, j2: int, j3: int|
                0 <= q < 2 && 0 <= j1 < 2048 && 0 <= j2 < 2048 && 0 <= j3 < 2048 implies #[trigger] walk_tables(
                s1,
                self.table_base,
                q,
                j1,
                j2,
                j3,
            ) == mapped_page(pb, vb, k + 1, k, q, page_number(j1, j2, j3)) by {
                lemma_page_number(j1, j2, j3);
                let p1 = ((pa >> 36u64) % 2048) as int;
                let p2 = ((pa >> 25u64) % 2048) as int;
                let p3 = ((pa >> 14u64) % 2048) as int;
                lemma_page_number(p1, p2, p3);
                assert(walk_tables(s0, self.table_base, q, j1, j2, j3) == mapped_page(
                    pb,
                    vb,
                    k,
                    k,
                    q,
                    page_number(j1, j2, j3),
                ));
                if q == 0 && page_number(j1, j2, j3) == pb / 16384 + k {
                    assert(j1 == p1 && j2 == p2 && j3 == p3);
                    assert((page_number(j1, j2, j3) * 16384) as u64 == pa);
                }
            }
        }
        Ok(())
    }

    /// Maps RAM page `offset / 16384` at its alias below the high root.
    fn map_high(&mut self, offset: u64) -> (r: Result<(), Error>)
        requires
            old(self).step_ok(),
            offset % 16384 == 0,
            offset < old(self).memory_size,
            walks_match(old(self).bytes@, old(self).table_base, old(self).ram_base, old(self).virtual_base, offset / 16384 + 1, (offset / 16384) as int),
            old(self).bytes@.len() <= 16384 * (2 + tables_for((old(self).ram_base / 16384) as int, offset / 16384 + 1)
                + tables_for((old(self).virtual_base - HIGH_START) / 16384, (offset / 16384) as int)),
        ensures
            final(self).table_base == old(self).table_base,
            final(self).ram_base == old(self).ram_base,
            final(self).virtual_base == old(self).virtual_base,
            final(self).memory_size == old(self).memory_size,
            r is Ok ==> {
                &&& final(self).step_ok()
                &&& walks_match(final(self).bytes@, final(self).table_base, final(self).ram_base, final(self).virtual_base, offset / 16384 + 1, offset / 16384 + 1)
                &&& final(self).bytes@.len() <= 16384 * (2 + tables_for((final(self).ram_base / 16384) as int, offset / 16384 + 1)
                    + tables_for((final(self).virtual_base - HIGH_START) / 16384, offset / 16384 + 1))
            },
            r matches Err(e) ==> e == Error::Allocation,
    {
        let ghost pb = self.ram_base;
        let ghost vb = self.virtual_base;
        let ghost fl: int = (pb / 16384) as int;
        let ghost fh: int = (vb - HIGH_START) / 16384;
        let ghost k: int = (offset / 16384) as int;
        let pa = self.ram_base + offset;
        let ghost s1 = self.bytes@;
        let va = self.virtual_base + offset;
        proof {
            lemma_va_indices(va);
            let q0 = (vb - HIGH_START) / 16384;
            assert((va - HIGH_START) / 16384 == q0 + k && pa == pb + k * 16384)
                by (nonlinear_arith)
                requires
                    va == vb + offset,
                    pa == pb + offset,
                    vb >= HIGH_START,
                    q0 == (vb - HIGH_START) / 16384,
                    vb % 16384 == 0,
                    HIGH_START % 16384 == 0,
                    offset % 16384 == 0,
                    k == offset / 16384,
            ;
        }
        assert(s1.len() + 16384 * fresh_tables(s1, self.table_base, 1, ((va >> 36u64) % 2048) as int, ((va
            >> 25u64) % 2048) as int) <= 16384 * (2 + tables_for(fl, k + 1) + tables_for(fh, k + 1))
            <= MAX_TABLE_BYTES) by {
            let pn = fh + k;
            assert(pn < 8589934592);
            assert(((va >> 14u64) % 8589934592) as int == pn);
            if k > 0 {
                lemma_page_split(pn - 1);
                let q1 = (pn - 1) / 4194304;
                let q2 = ((pn - 1) / 2048) % 2048;
                let q3 = (pn - 1) % 2048;
                assert(walk_tables(s1, self.table_base, 1, q1, q2, q3) == mapped_page(pb, vb, k + 1, k, 1, page_number(q1, q2, q3)));
            }
            lemma_tables_for_bound(fl, k + 1);
            lemma_step_budget(s1, self.table_base, 1, va, fh, k, tables_for(fl, k + 1));
        }
        if let Err(e) = self.map_page(PAGE_SIZE as usize, va, pa) {
            return Err(e);
        }
        proof {
            let s2 = self.bytes@;
            assert forall|q: int, j1: int, j2: int, j3: int|
                0 <= q < 2 && 0 <= j1 < 2048 && 0 <= j2 < 2048 && 0 <= j3 < 2048 implies #[trigger] walk_tables(
                s2,
                self.table_base,
                q,
                j1,
                j2,
                j3,
            ) == mapped_page(pb, vb, k + 1, k + 1, q, page_number(j1, j2, j3)) by {
                lemma_page_number(j1, j2, j3);
                let p1 = ((va >> 36u64) % 2048) as int;
                let p2 = ((va >> 25u64) % 2048) as int;
                let p3 = ((va >> 14u64) % 2048) as int;
                lemma_page_number(p1, p2, p3);
                assert(walk_tables(s1, self.table_base, q, j1, j2, j3) == mapped_page(
                    pb,
                    vb,
                    k + 1,
                    k,
                    q,
                    page_number(j1, j2, j3),
                ));
                let q0 = (vb - HIGH_START) / 16384;
                if q == 1 && page_number(j1, j2, j3) == q0 + k {
                    assert(j1 == p1 && j2 == p2 && j3 == p3);
                }
            }
        }
        Ok(())
    }

    pub fn new(physical_base: u64, virtual_base: u64, memory_size: u64) -> (r: Result<Self, Error>)
        ensures
            match stage1_input_error(physical_base, virtual_base, memory_size) {
                Some(e) => r == Err::<Self, Error>(e),
                None => match r {
                    Ok(t) => {
                        &&& t.wf()
                        &&& t.table_bytes().len() <= MAX_TABLE_BYTES
                        &&& t.table_address() == physical_base + memory_size
                        &&& t.ram_start() == physical_base
                        &&& t.alias_start() == virtual_base
                        &&& t.ram_size() == memory_size
                        &&& forall|va: u64|
                            #[trigger] t.translate(va) == expected_translation(
                                physical_base,
                                virtual_base,
                                memory_size,
                                va,
                            )
                    },
                    Err(e) => e == Error::Allocation,
                },
            },
    {
        if physical_base % PAGE_SIZE != 0 || virtual_base % PAGE_SIZE != 0 || memory_size
            % PAGE_SIZE != 0 {
            return Err(Error::Alignment);
        }
        if memory_size == 0 || memory_size > MAX_MEMORY_SIZE {
            return Err(Error::InvalidRange);
        }
        let table_base = match physical_base.checked_add(memory_size) {
            Some(end) => end,
            None => return Err(Error::AddressOverflow),
        };
        if virtual_base.checked_add(memory_size).is_none() {
            return Err(Error::AddressOverflow);
        }
        // Separate canonical halves make alias overlap impossible.
        if table_base > LOW_END || virtual_base < HIGH_START {
            return Err(Error::InvalidRange);
        }
        let mut result = Self {
            bytes: Vec::new(),
            table_base,
            ram_base: physical_base,
            virtual_base,
            memory_size,
        };
        if let Err(e) = result.allocate_table() {
            return Err(e);
        }
        if let Err(e) = result.allocate_table() {
            return Err(e);
        }
        let ghost pb = physical_base;
        let ghost vb = virtual_base;
        proof {
            let s = result.bytes@;
            let shape = seq![(1int, 0int), (1int, 1int)];
            assert(s =~= Seq::<u8>::empty() + zero_page() + zero_page());
            lemma_entries_after_append(Seq::<u8>::empty(), Seq::<u8>::empty() + zero_page(), 0);
            lemma_entries_after_append(Seq::<u8>::empty() + zero_page(), s, 1);
            assert(table_base % 16384 == 0) by (nonlinear_arith)
                requires
                    table_base == physical_base + memory_size,
                    physical_base % 16384 == 0,
                    memory_size % 16384 == 0,
            ;
            assert forall|t: int, e: int|
                0 <= t < 2 && 0 <= e < 2048 && shape[t].0 < 3 implies #[trigger] linked(
                s,
                table_base,
                shape,
                t,
                e,
            ) by {
                assert(entry(s, t, e) == 0);
            }
            assert(shaped(s, table_base, shape));
            assert forall|q: int, j1: int, j2: int, j3: int|
                0 <= q < 2 && 0 <= j1 < 2048 && 0 <= j2 < 2048 && 0 <= j3 < 2048 implies #[trigger] walk_tables(
                s,
                table_base,
                q,
                j1,
                j2,
                j3,
            ) == mapped_page(pb, vb, 0, 0, q, page_number(j1, j2, j3)) by {
                assert(entry(s, q, j1) == 0);
            }
        }
        let mut offset: u64 = 0;
        while offset < memory_size
            invariant
                offset % 16384 == 0,
                offset <= memory_size,
                pb == physical_base,
                vb == virtual_base,
                result.table_base == table_base,
                result.ram_base == physical_base,
                result.virtual_base == virtual_base,
                result.memory_size == memory_size,
                result.step_ok(),
                result.bytes@.len() <= 16384 * (2 + tables_for((pb / 16384) as int, (offset / 16384) as int)
                    + tables_for((vb - HIGH_START) / 16384, (offset / 16384) as int)),
                walks_match(result.bytes@, table_base, pb, vb, (offset / 16384) as int, (offset / 16384) as int),
            decreases memory_size - offset,
        {
            if let Err(e) = result.map_low(offset) {
                return Err(e);
            }
            if let Err(e) = result.map_high(offset) {
                return Err(e);
            }
            offset = offset + PAGE_SIZE;
            assert(offset / 16384 == (offset - PAGE_SIZE) / 16384 + 1);
        }
        proof {
            let s = result.bytes@;
            let shape = choose|shape: Seq<(int, int)>| shaped(s, table_base, shape);
            let size = memory_size;
            assert(offset == memory_size);
            assert forall|va: u64| #[trigger] result.translate(va) == expected_translation(
                physical_base,
                virtual_base,
                memory_size,
                va,
            ) by {
                lemma_va_indices(va);
                let j1 = ((va >> 36u64) % 2048) as int;
                let j2 = ((va >> 25u64) % 2048) as int;
                let j3 = ((va >> 14u64) % 2048) as int;
                if va < LOW_END {
                    lemma_walk_by_tables(s, table_base, shape, 0, j1, j2, j3);
                    lemma_page_range(va as int, pb as int, size as int);
                    assert((table_base + 0 * 16384) as u64 == table_base);
                    assert(walk_tables(s, table_base, 0, j1, j2, j3) == mapped_page(
                        pb,
                        vb,
                        (size / 16384) as int,
                        (size / 16384) as int,
                        0,
                        page_number(j1, j2, j3),
                    ));
                } else if va >= HIGH_START {
                    lemma_walk_by_tables(s, table_base, shape, 1, j1, j2, j3);
                    lemma_page_range(
                        (va - HIGH_START) as int,
                        (vb - HIGH_START) as int,
                        size as int,
                    );
                    assert(HIGH_START % 16384 == 0);
                    assert(walk_tables(s, table_base, 1, j1, j2, j3) == mapped_page(
                        pb,
                        vb,
                        (size / 16384) as int,
                        (size / 16384) as int,
                        1,
                        page_number(j1, j2, j3),
                    ));
                    let v = (va - HIGH_START) / 16384;
                    let q0 = (vb - HIGH_START) / 16384;
                    if q0 <= v < q0 + size / 16384 {
                        assert(pb + (v - q0) * 16384 + va % 16384 == pb + (va - vb))
                            by (nonlinear_arith)
                            requires
                                v == (va - HIGH_START) / 16384,
                                q0 == (vb - HIGH_START) / 16384,
                                (vb - HIGH_START) % 16384 == 0,
                                va >= HIGH_START,
                                vb >= HIGH_START,
                                HIGH_START % 16384 == 0,
                        ;
                    }
                }
            }
        }
        Ok(result)
    }

    pub fn bytes(&self) -> (r: &[u8])
        ensures
            r@ == self.table_bytes(),
    {
        self.bytes.as_slice()
    }

    /// Guest table address, not the address of the host allocation.
    pub fn physical_base(&self) -> (r: u64)
        ensures
            r == self.table_address(),
    {
        self.table_base
    }

    pub fn ttbr0(&self) -> (r: u64)
        ensures
            r == self.table_address(),
    {
        self.table_base
    }

    pub fn ttbr1(&self) -> (r: u64)
        requires
            self.wf(),
        ensures
            r == self.table_address() + PAGE_SIZE,
    {
        self.table_base + PAGE_SIZE
    }

    pub fn tcr(&self) -> (r: u64)
        ensures
            r == TCR,
    {
        TCR
    }

    /// The alias of RAM address `pa`.
    pub fn virtual_address(&self, pa: u64) -> (r: Result<u64, Error>)
        ensures
            r == if pa < self.ram_start() || pa - self.ram_start() >= self.ram_size() {
                Err::<u64, Error>(Error::UnmappedAddress)
            } else if self.alias_start() + (pa - self.ram_start()) > u64::MAX {
                Err(Error::AddressOverflow)
            } else {
                Ok((self.alias_start() + (pa - self.ram_start())) as u64)
            },
    {
        let offset = match pa.checked_sub(self.ram_base) {
            Some(offset) => offset,
            None => return Err(Error::UnmappedAddress),
        };
        if offset >= self.memory_size {
            return Err(Error::UnmappedAddress);
        }
        match self.virtual_base.checked_add(offset) {
            Some(va) => Ok(va),
            None => Err(Error::AddressOverflow),
        }
    }

    /// What holds of a table set while construction maps one page after another.
    spec fn step_ok(&self) -> bool {
        &&& self.ram_base % 16384 == 0
        &&& self.virtual_base % 16384 == 0
        &&& self.memory_size % 16384 == 0
        &&& self.memory_size <= MAX_MEMORY_SIZE
        &&& self.table_base == self.ram_base + self.memory_size
        &&& self.table_base <= LOW_END
        &&& self.virtual_base >= HIGH_START
        &&& self.virtual_base + self.memory_size <= u64::MAX
        &&& self.bytes@.len() <= MAX_TABLE_BYTES
        &&& tables_ok(self.bytes@, self.table_base)
    }

    pub closed spec fn wf(&self) -> bool {
        &&& tables_ok(self.bytes@, self.table_base)
        &&& self.table_base == self.ram_base + self.memory_size
        &&& self.table_base <= LOW_END
        &&& self.bytes@.len() <= MAX_TABLE_BYTES
        &&& self.virtual_base >= HIGH_START
        &&& self.virtual_base + self.memory_size <= u64::MAX
        &&& forall|va: u64|
            #[trigger] self.translate(va) == expected_translation(
                self.ram_base,
                self.virtual_base,
                self.memory_size,
                va,
            )
    }
}

/// Every RAM address is reached through both roots: at itself through the low root, and
/// at the alias that `virtual_address` gives for it through the high root.
pub proof fn lemma_both_aliases(t: &Arm64Stage1Tables, pa: u64)
    requires
        t.wf(),
        t.ram_start() <= pa < t.ram_start() + t.ram_size(),
    ensures
        t.translate(pa) == Some(pa),
        t.translate((t.alias_start() + (pa - t.ram_start())) as u64) == Some(pa),
{
    assert(t.translate(pa) == expected_translation(t.ram_start(), t.alias_start(), t.ram_size(), pa));
    let va = (t.alias_start() + (pa - t.ram_start())) as u64;
    assert(t.translate(va) == expected_translation(t.ram_start(), t.alias_start(), t.ram_size(), va));
}

} // verus!

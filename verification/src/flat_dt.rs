//! Bounded structural codec for the public x86 flattened device-tree format.
//!
//! This is not the FDT format. Structural validity does not establish sufficient
//! entropy, EFI, memory, platform or other properties for an operating system.
use vstd::prelude::*;
use vstd::utf8::encode_utf8;

use crate::bytes::{le_u32, push_slice, push_u32, push_zeros, read_u32, u32_bytes};

verus! {

pub const MAX_SERIALIZED_SIZE: usize = 1048576;

/// Root is depth 0. A node at depth 32 is allowed but cannot have children.
pub const MAX_DEPTH: usize = 32;

pub const MAX_NODES: usize = 1024;

pub const MAX_PROPERTIES: usize = 4096;

/// Includes the automatically inserted `name` property.
pub const MAX_PROPERTIES_PER_NODE: usize = 64;

pub const MAX_CHILDREN_PER_NODE: usize = 64;

pub const MAX_NODE_NAME: usize = 63;

pub const MAX_PROPERTY_NAME: usize = 31;

#[derive(Debug)]
pub struct FlatNode {
    /// Printable ASCII; an empty name is accepted only for the root.
    /// Serialized as a NUL-terminated `name` property before other properties.
    pub name: String,
    pub properties: Vec<FlatProperty>,
    pub children: Vec<FlatNode>,
}

#[derive(Clone, Debug, PartialEq, Eq)]
pub struct FlatProperty {
    /// Printable ASCII, 1..=31 bytes. `name` is reserved for FlatNode::name.
    pub name: String,
    /// Opaque bytes; string values must explicitly include their final NUL.
    pub value: Vec<u8>,
}

#[derive(Clone, Copy, Debug, PartialEq, Eq)]
pub enum FlatDtError {
    InvalidNodeName,
    InvalidPropertyName,
    DuplicateProperty,
    DuplicateChild,
    InvalidNameProperty,
    LimitsExceeded,
    Truncated,
    InvalidPadding,
    TrailingData,
    AllocationFailed,
}

impl FlatDtError {
    /// The fixed token of each variant.
    pub open spec fn token_text(&self) -> Seq<char> {
        match self {
            FlatDtError::InvalidNodeName => "INVALID_NODE_NAME"@,
            FlatDtError::InvalidPropertyName => "INVALID_PROPERTY_NAME"@,
            FlatDtError::DuplicateProperty => "DUPLICATE_PROPERTY"@,
            FlatDtError::DuplicateChild => "DUPLICATE_CHILD"@,
            FlatDtError::InvalidNameProperty => "INVALID_NAME_PROPERTY"@,
            FlatDtError::LimitsExceeded => "DT_LIMITS_EXCEEDED"@,
            FlatDtError::Truncated => "TRUNCATED_DT"@,
            FlatDtError::InvalidPadding => "INVALID_DT_PADDING"@,
            FlatDtError::TrailingData => "TRAILING_DT_DATA"@,
            FlatDtError::AllocationFailed => "DT_ALLOCATION_FAILED"@,
        }
    }

    /// The fixed diagnostic token of this error; it never carries input text.
    pub fn token(&self) -> (r: &'static str)
        ensures
            r@ == self.token_text(),
    {
        match self {
            FlatDtError::InvalidNodeName => "INVALID_NODE_NAME",
            FlatDtError::InvalidPropertyName => "INVALID_PROPERTY_NAME",
            FlatDtError::DuplicateProperty => "DUPLICATE_PROPERTY",
            FlatDtError::DuplicateChild => "DUPLICATE_CHILD",
            FlatDtError::InvalidNameProperty => "INVALID_NAME_PROPERTY",
            FlatDtError::LimitsExceeded => "DT_LIMITS_EXCEEDED",
            FlatDtError::Truncated => "TRUNCATED_DT",
            FlatDtError::InvalidPadding => "INVALID_DT_PADDING",
            FlatDtError::TrailingData => "TRAILING_DT_DATA",
            FlatDtError::AllocationFailed => "DT_ALLOCATION_FAILED",
        }
    }

    /// The diagnostic token as an owned string.
    pub fn to_string(&self) -> (r: String)
        ensures
            r@ == self.token_text(),
    {
        self.token().to_owned()
    }
}

/// The UTF-8 bytes of a string.
pub open spec fn str_bytes(s: String) -> Seq<u8> {
    encode_utf8(s@)
}

/// The reserved key of the node-name property.
pub open spec fn name_key() -> Seq<u8> {
    seq![110u8, 97u8, 109u8, 101u8]
}

pub open spec fn printable(s: Seq<u8>) -> bool {
    forall|i: int| 0 <= i < s.len() ==> 0x20 <= #[trigger] s[i] <= 0x7e
}

pub open spec fn node_name_ok(name: Seq<u8>, depth: int) -> bool {
    &&& name.len() <= MAX_NODE_NAME
    &&& (name.len() == 0 ==> depth == 0)
    &&& printable(name)
}

pub open spec fn property_name_ok(name: Seq<u8>) -> bool {
    &&& 0 < name.len() <= MAX_PROPERTY_NAME
    &&& printable(name)
}

/// Per-node structure of a model tree: limits, canonical names, uniqueness.
pub open spec fn tree_ok(n: FlatNode, depth: int) -> bool
    decreases n,
{
    &&& depth <= MAX_DEPTH
    &&& n.properties@.len() + 1 <= MAX_PROPERTIES_PER_NODE
    &&& n.children@.len() <= MAX_CHILDREN_PER_NODE
    &&& node_name_ok(str_bytes(n.name), depth)
    &&& forall|i: int|
        0 <= i < n.properties@.len() ==> {
            &&& property_name_ok(#[trigger] str_bytes(n.properties@[i].name))
            &&& str_bytes(n.properties@[i].name) != name_key()
        }
    &&& forall|i: int, j: int|
        0 <= i < j < n.properties@.len() ==> #[trigger] n.properties@[i].name@
            != #[trigger] n.properties@[j].name@
    &&& forall|i: int, j: int|
        0 <= i < j < n.children@.len() ==> #[trigger] n.children@[i].name@
            != #[trigger] n.children@[j].name@
    &&& forall|i: int|
        0 <= i < n.children@.len() ==> tree_ok(#[trigger] n.children@[i], depth + 1)
}

/// Some node of the tree has a property keyed `name` among its own properties, or
/// two of its properties with one name.
pub open spec fn has_key_clash(n: FlatNode) -> bool
    decreases n,
{
    ||| exists|i: int| 0 <= i < n.properties@.len() && #[trigger] str_bytes(n.properties@[i].name) == name_key()
    ||| exists|i: int, j: int|
        0 <= i < j < n.properties@.len() && #[trigger] n.properties@[i].name@ == #[trigger] n.properties@[j].name@
    ||| exists|i: int| 0 <= i < n.children@.len() && has_key_clash(#[trigger] n.children@[i])
}

/// Some node of the tree has two children with one name.
pub open spec fn has_child_clash(n: FlatNode) -> bool
    decreases n,
{
    ||| exists|i: int, j: int|
        0 <= i < j < n.children@.len() && #[trigger] n.children@[i].name@ == #[trigger] n.children@[j].name@
    ||| exists|i: int| 0 <= i < n.children@.len() && has_child_clash(#[trigger] n.children@[i])
}

pub open spec fn zero_seq(n: int) -> Seq<u8> {
    Seq::new(n as nat, |k: int| 0u8)
}

pub open spec fn pad_len(n: int) -> int {
    (4 - n % 4) % 4
}

/// One property on the wire: a NUL-padded 32-byte key, a LE u32 length, the
/// value and zero padding to a four-byte boundary.
pub open spec fn wire_property(name: Seq<u8>, value: Seq<u8>) -> Seq<u8> {
    name + zero_seq(32 - name.len()) + u32_bytes(value.len() as u32) + value + zero_seq(
        pad_len(value.len() as int),
    )
}

pub open spec fn wire_properties(ps: Seq<FlatProperty>) -> Seq<u8>
    decreases ps.len(),
{
    if ps.len() == 0 {
        seq![]
    } else {
        wire_properties(ps.drop_last()) + wire_property(str_bytes(ps.last().name), ps.last().value@)
    }
}

/// A node on the wire: property and child counts, the `name` property, the
/// remaining properties in order, then every child subtree in order.
pub open spec fn wire_node(n: FlatNode) -> Seq<u8>
    decreases n, 1int,
{
    u32_bytes((n.properties@.len() + 1) as u32) + u32_bytes(n.children@.len() as u32)
        + wire_property(name_key(), str_bytes(n.name).push(0u8)) + wire_properties(n.properties@)
        + wire_children(n.children@)
}

pub open spec fn wire_children(cs: Seq<FlatNode>) -> Seq<u8>
    decreases cs, 0int,
{
    if cs.len() == 0 {
        seq![]
    } else {
        wire_children(cs.subrange(0, cs.len() - 1)) + wire_node(cs[cs.len() - 1])
    }
}

/// The nodes of a tree.
pub open spec fn node_count(n: FlatNode) -> nat
    decreases n, 1int,
{
    1 + nodes_in(n.children@)
}

pub open spec fn nodes_in(cs: Seq<FlatNode>) -> nat
    decreases cs, 0int,
{
    if cs.len() == 0 {
        0
    } else {
        nodes_in(cs.subrange(0, cs.len() - 1)) + node_count(cs[cs.len() - 1])
    }
}

/// The properties of a tree, the name property of every node among them.
pub open spec fn property_count(n: FlatNode) -> nat
    decreases n, 1int,
{
    n.properties@.len() + 1 + properties_in(n.children@)
}

pub open spec fn properties_in(cs: Seq<FlatNode>) -> nat
    decreases cs, 0int,
{
    if cs.len() == 0 {
        0
    } else {
        properties_in(cs.subrange(0, cs.len() - 1)) + property_count(cs[cs.len() - 1])
    }
}

/// A model tree that the encoder takes: well formed node by node, and within the
/// codec's limits on nodes, properties and encoded size.
pub open spec fn encodable(root: FlatNode) -> bool {
    &&& tree_ok(root, 0)
    &&& node_count(root) <= MAX_NODES
    &&& property_count(root) <= MAX_PROPERTIES
    &&& wire_node(root).len() <= MAX_SERIALIZED_SIZE
}

/// Counts and encodings of a prefix of children are at most those of all of them.
proof fn lemma_children_prefix(cs: Seq<FlatNode>, j: int)
    requires
        0 <= j <= cs.len(),
    ensures
        nodes_in(cs.subrange(0, j)) <= nodes_in(cs),
        properties_in(cs.subrange(0, j)) <= properties_in(cs),
        wire_children(cs.subrange(0, j)).len() <= wire_children(cs).len(),
    decreases cs.len(),
{
    if j == cs.len() {
        assert(cs.subrange(0, j) =~= cs);
    } else {
        let p = cs.subrange(0, cs.len() - 1);
        lemma_children_prefix(p, j);
        assert(p.subrange(0, j) =~= cs.subrange(0, j));
    }
}

/// The encoding of a prefix of properties is at most that of all of them.
proof fn lemma_properties_prefix(ps: Seq<FlatProperty>, j: int)
    requires
        0 <= j <= ps.len(),
    ensures
        wire_properties(ps.subrange(0, j)).len() <= wire_properties(ps).len(),
    decreases ps.len(),
{
    if j == ps.len() {
        assert(ps.subrange(0, j) =~= ps);
    } else {
        let p = ps.drop_last();
        lemma_properties_prefix(p, j);
        assert(p.subrange(0, j) =~= ps.subrange(0, j));
    }
}

/// The key and value of property `i` of a node on the wire, its name property first.
pub open spec fn wire_prop(t: FlatNode, i: int) -> (Seq<u8>, Seq<u8>) {
    if i == 0 {
        (name_key(), str_bytes(t.name).push(0u8))
    } else {
        (str_bytes(t.properties@[i - 1].name), t.properties@[i - 1].value@)
    }
}

/// Where property `i` of a node starts within the node's wire form.
pub open spec fn prop_offset(t: FlatNode, i: int) -> int {
    if i == 0 {
        8
    } else {
        (8 + wire_property(name_key(), str_bytes(t.name).push(0u8)).len() + wire_properties(
            t.properties@.subrange(0, i - 1),
        ).len()) as int
    }
}

/// Where child `j` of a node starts within the node's wire form.
pub open spec fn child_offset(t: FlatNode, j: int) -> int {
    prop_offset(t, (t.properties@.len() + 1) as int) + wire_children(t.children@.subrange(0, j)).len()
}

/// The wire form of a prefix of properties is a prefix of theirs.
proof fn lemma_properties_wire_prefix(ps: Seq<FlatProperty>, j: int)
    requires
        0 <= j <= ps.len(),
    ensures
        wire_properties(ps).subrange(0, wire_properties(ps.subrange(0, j)).len() as int)
            == wire_properties(ps.subrange(0, j)),
        wire_properties(ps.subrange(0, j)).len() <= wire_properties(ps).len(),
    decreases ps.len(),
{
    if j == ps.len() {
        assert(ps.subrange(0, j) =~= ps);
    } else {
        let p = ps.drop_last();
        lemma_properties_wire_prefix(p, j);
        assert(p.subrange(0, j) =~= ps.subrange(0, j));
        let n = wire_properties(ps.subrange(0, j)).len() as int;
        assert(wire_properties(ps).subrange(0, n) =~= wire_properties(p).subrange(0, n));
    }
}

/// The wire form of a prefix of children is a prefix of theirs.
proof fn lemma_children_wire_prefix(cs: Seq<FlatNode>, j: int)
    requires
        0 <= j <= cs.len(),
    ensures
        wire_children(cs).subrange(0, wire_children(cs.subrange(0, j)).len() as int)
            == wire_children(cs.subrange(0, j)),
        wire_children(cs.subrange(0, j)).len() <= wire_children(cs).len(),
    decreases cs.len(),
{
    if j == cs.len() {
        assert(cs.subrange(0, j) =~= cs);
    } else {
        let p = cs.subrange(0, cs.len() - 1);
        lemma_children_wire_prefix(p, j);
        assert(p.subrange(0, j) =~= cs.subrange(0, j));
        let n = wire_children(cs.subrange(0, j)).len() as int;
        assert(wire_children(cs).subrange(0, n) =~= wire_children(p).subrange(0, n));
    }
}

/// A node's wire form: its two counts, its name property, its other properties and its
/// children, one after another.
proof fn lemma_node_layout(t: FlatNode)
    ensures
        wire_node(t) == (u32_bytes((t.properties@.len() + 1) as u32) + u32_bytes(t.children@.len() as u32))
            + wire_property(name_key(), str_bytes(t.name).push(0u8)) + wire_properties(t.properties@)
            + wire_children(t.children@),
        (u32_bytes((t.properties@.len() + 1) as u32) + u32_bytes(t.children@.len() as u32)).len() == 8,
{
    crate::bytes::lemma_u32_bytes((t.properties@.len() + 1) as u32);
    crate::bytes::lemma_u32_bytes(t.children@.len() as u32);
}

/// Property `i` of a node occupies the node's wire bytes from its offset to the next.
proof fn lemma_prop_bytes(t: FlatNode, i: int)
    requires
        0 <= i <= t.properties@.len(),
    ensures
        prop_offset(t, i + 1) == prop_offset(t, i) + wire_property(wire_prop(t, i).0, wire_prop(t, i).1).len(),
        wire_node(t).subrange(prop_offset(t, i), prop_offset(t, i + 1)) == wire_property(
            wire_prop(t, i).0,
            wire_prop(t, i).1,
        ),
        prop_offset(t, i + 1) <= prop_offset(t, (t.properties@.len() + 1) as int),
{
    let ps = t.properties@;
    let head = u32_bytes((ps.len() + 1) as u32) + u32_bytes(t.children@.len() as u32);
    let wn = wire_property(name_key(), str_bytes(t.name).push(0u8));
    let wp = wire_properties(ps);
    let w = wire_node(t);
    lemma_node_layout(t);
    assert(ps.subrange(0, ps.len() as int) =~= ps);
    lemma_properties_prefix(ps, i);
    if i == 0 {
        assert(ps.subrange(0, 0) =~= Seq::<FlatProperty>::empty());
        assert(w.subrange(8, 8 + wn.len() as int) =~= wn);
    } else {
        let a = ps.subrange(0, i - 1);
        let b = ps.subrange(0, i);
        assert(b.drop_last() =~= a);
        lemma_properties_wire_prefix(ps, i);
        let wa = wire_properties(a);
        let wb = wire_properties(b);
        assert(wb == wa + wire_property(str_bytes(ps[i - 1].name), ps[i - 1].value@));
        assert(wp.subrange(0, wb.len() as int) == wb);
        let off: int = 8 + wn.len() as int;
        assert(w.subrange(off + wa.len() as int, off + wb.len() as int) =~= wp.subrange(wa.len() as int, wb.len() as int)) by {
            assert(w == head + wn + wp + wire_children(t.children@));
        }
        assert(wp.subrange(wa.len() as int, wb.len() as int) =~= wb.subrange(wa.len() as int, wb.len() as int));
    }
}

/// Child `j` of a node occupies the node's wire bytes from its offset to the next.
proof fn lemma_child_bytes(t: FlatNode, j: int)
    requires
        0 <= j < t.children@.len(),
    ensures
        child_offset(t, j + 1) == child_offset(t, j) + wire_node(t.children@[j]).len(),
        wire_node(t).subrange(child_offset(t, j), child_offset(t, j + 1)) == wire_node(t.children@[j]),
        child_offset(t, j + 1) <= wire_node(t).len(),
{
    let ps = t.properties@;
    let cs = t.children@;
    let head = u32_bytes((ps.len() + 1) as u32) + u32_bytes(cs.len() as u32);
    let wn = wire_property(name_key(), str_bytes(t.name).push(0u8));
    crate::bytes::lemma_u32_bytes((ps.len() + 1) as u32);
    crate::bytes::lemma_u32_bytes(cs.len() as u32);
    assert(ps.subrange(0, ps.len() as int) =~= ps);
    assert(wire_node(t) == head + wn + wire_properties(ps) + wire_children(cs));
    let base = prop_offset(t, (ps.len() + 1) as int);
    assert(base == head.len() + wn.len() + wire_properties(ps).len());
    let a = cs.subrange(0, j);
    let b = cs.subrange(0, j + 1);
    assert(b.subrange(0, b.len() - 1) =~= a);
    lemma_children_wire_prefix(cs, j + 1);
    let wb = wire_children(b);
    assert(wb == wire_children(a) + wire_node(cs[j]));
    assert(wire_node(t).subrange(child_offset(t, j), child_offset(t, j + 1)) =~= wb.subrange(
        wire_children(a).len() as int,
        wb.len() as int,
    ));
}

/// The parts of a property's wire form found at `at` in `b`: the padded key, the
/// length word, the value and the zero padding.
proof fn lemma_read_prop(b: Seq<u8>, at: int, name: Seq<u8>, value: Seq<u8>)
    requires
        0 <= at,
        name.len() <= 31,
        value.len() <= u32::MAX,
        at + wire_property(name, value).len() <= b.len(),
        b.subrange(at, at + wire_property(name, value).len()) == wire_property(name, value),
    ensures
        wire_property(name, value).len() == 36 + value.len() + pad_len(value.len() as int),
        b.subrange(at, at + 32) == name + zero_seq(32 - name.len()),
        le_u32(b, at + 32) == value.len(),
        b.subrange(at + 36, at + 36 + value.len()) == value,
        b.subrange(at + 36 + value.len(), at + 36 + value.len() + pad_len(value.len() as int))
            == zero_seq(pad_len(value.len() as int)),
{
    lemma_wire_property_len(name, value);
    crate::bytes::lemma_u32_bytes(value.len() as u32);
    let w = wire_property(name, value);
    let key = name + zero_seq(32 - name.len());
    let word = u32_bytes(value.len() as u32);
    let pad = zero_seq(pad_len(value.len() as int));
    assert(w == key + word + value + pad);
    assert(key.len() == 32);
    assert forall|k: int| 0 <= k < w.len() implies #[trigger] b[at + k] == w[k] by {
        assert(b.subrange(at, at + w.len())[k] == b[at + k]);
    }
    assert(b.subrange(at, at + 32) =~= key) by {
        assert forall|k: int| 0 <= k < 32 implies b.subrange(at, at + 32)[k] == key[k] by {
            assert(b[at + k] == w[k]);
        }
    }
    assert(b[at + 32] == word[0] && b[at + 33] == word[1] && b[at + 34] == word[2] && b[at + 35] == word[3])
        by {
        assert(b[at + 32] == w[32] && b[at + 33] == w[33] && b[at + 34] == w[34] && b[at + 35] == w[35]);
    }
    assert(le_u32(b, at + 32) == le_u32(word, 0));
    assert(b.subrange(at + 36, at + 36 + value.len()) =~= value) by {
        assert forall|k: int| 0 <= k < value.len() implies b.subrange(at + 36, at + 36 + value.len())[k] == value[k] by {
            assert(b[at + 36 + k] == w[36 + k]);
        }
    }
    assert(b.subrange(at + 36 + value.len(), at + 36 + value.len() + pad_len(value.len() as int)) =~= pad) by {
        assert forall|k: int| 0 <= k < pad.len() implies b.subrange(
            at + 36 + value.len(),
            at + 36 + value.len() + pad_len(value.len() as int),
        )[k] == pad[k] by {
            assert(b[at + 36 + value.len() + k] == w[36 + value.len() + k]);
        }
    }
}

/// The little-endian word of four bytes that encode `x`.
proof fn lemma_word_at(b: Seq<u8>, at: int, x: u32)
    requires
        0 <= at,
        at + 4 <= b.len(),
        b.subrange(at, at + 4) == u32_bytes(x),
    ensures
        le_u32(b, at) == x,
{
    crate::bytes::lemma_u32_bytes(x);
    let w = u32_bytes(x);
    assert(b[at] == w[0] && b[at + 1] == w[1] && b[at + 2] == w[2] && b[at + 3] == w[3]);
}

/// Distinct strings have distinct UTF-8 bytes.
proof fn lemma_str_bytes_injective(a: String, b: String)
    requires
        a@ != b@,
    ensures
        str_bytes(a) != str_bytes(b),
{
    vstd::utf8::encode_utf8_decode_utf8(a@);
    vstd::utf8::encode_utf8_decode_utf8(b@);
}

/// A window of bytes inside a window: what lies at `c + lo .. c + hi` of `b` where `w`
/// lies at `c`.
proof fn lemma_window(b: Seq<u8>, c: int, w: Seq<u8>, lo: int, hi: int)
    requires
        0 <= c,
        c + w.len() <= b.len(),
        b.subrange(c, c + w.len()) == w,
        0 <= lo <= hi <= w.len(),
    ensures
        b.subrange(c + lo, c + hi) == w.subrange(lo, hi),
{
    assert forall|k: int| 0 <= k < hi - lo implies b.subrange(c + lo, c + hi)[k] == w.subrange(lo, hi)[k] by {
        assert(b.subrange(c, c + w.len())[lo + k] == b[c + lo + k]);
    }
    assert(b.subrange(c + lo, c + hi) =~= w.subrange(lo, hi));
}

/// The wire form of `t` lies in `b` at `c`, `t` is well formed at `depth`, and the
/// budget has room for all of `t`.
spec fn fits_at(b: Seq<u8>, c: int, t: FlatNode, depth: int, budget: Budget) -> bool {
    &&& 0 <= c
    &&& c + wire_node(t).len() <= b.len()
    &&& b.subrange(c, c + wire_node(t).len()) == wire_node(t)
    &&& tree_ok(t, depth)
    &&& budget.nodes + node_count(t) <= MAX_NODES
    &&& budget.properties + property_count(t) <= MAX_PROPERTIES
    &&& budget.bytes + wire_node(t).len() <= MAX_SERIALIZED_SIZE
}

/// Where a node's properties end its children begin, and its children end the node.
proof fn lemma_node_end(t: FlatNode)
    ensures
        child_offset(t, 0) == prop_offset(t, (t.properties@.len() + 1) as int),
        child_offset(t, t.children@.len() as int) == wire_node(t).len(),
        prop_offset(t, (t.properties@.len() + 1) as int) <= wire_node(t).len(),
{
    let ps = t.properties@;
    let cs = t.children@;
    lemma_node_layout(t);
    assert(ps.subrange(0, ps.len() as int) =~= ps);
    assert(cs.subrange(0, cs.len() as int) =~= cs);
    assert(cs.subrange(0, 0) =~= Seq::<FlatNode>::empty());
}

/// The two counts at the head of a node's wire form.
proof fn lemma_header(b: Seq<u8>, c: int, t: FlatNode)
    requires
        0 <= c,
        c + wire_node(t).len() <= b.len(),
        b.subrange(c, c + wire_node(t).len()) == wire_node(t),
        t.properties@.len() + 1 <= u32::MAX,
        t.children@.len() <= u32::MAX,
    ensures
        le_u32(b, c) == t.properties@.len() + 1,
        le_u32(b, c + 4) == t.children@.len(),
        wire_node(t).len() >= 8,
{
    let w = wire_node(t);
    let h0 = u32_bytes((t.properties@.len() + 1) as u32);
    let h1 = u32_bytes(t.children@.len() as u32);
    lemma_node_layout(t);
    crate::bytes::lemma_u32_bytes((t.properties@.len() + 1) as u32);
    crate::bytes::lemma_u32_bytes(t.children@.len() as u32);
    assert(w.subrange(0, 4) =~= h0);
    assert(w.subrange(4, 8) =~= h1);
    lemma_window(b, c, w, 0, 4);
    lemma_window(b, c, w, 4, 8);
    lemma_word_at(b, c, (t.properties@.len() + 1) as u32);
    lemma_word_at(b, c + 4, t.children@.len() as u32);
}

/// Property `i` of a node whose wire form lies in `b` at `c`, as a reader finds it.
proof fn lemma_prop_at(b: Seq<u8>, c: int, t: FlatNode, depth: int, i: int)
    requires
        0 <= c,
        c + wire_node(t).len() <= b.len(),
        b.subrange(c, c + wire_node(t).len()) == wire_node(t),
        tree_ok(t, depth),
        wire_node(t).len() <= MAX_SERIALIZED_SIZE,
        0 <= i <= t.properties@.len(),
    ensures
        prop_offset(t, i + 1) == prop_offset(t, i) + 36 + wire_prop(t, i).1.len() + pad_len(
            wire_prop(t, i).1.len() as int,
        ),
        prop_offset(t, i + 1) <= prop_offset(t, (t.properties@.len() + 1) as int),
        prop_offset(t, (t.properties@.len() + 1) as int) <= wire_node(t).len(),
        property_name_ok(wire_prop(t, i).0),
        wire_prop(t, i).1.len() <= MAX_SERIALIZED_SIZE,
        b.subrange(c + prop_offset(t, i), c + prop_offset(t, i) + 32) == wire_prop(t, i).0
            + zero_seq(32 - wire_prop(t, i).0.len()),
        le_u32(b, c + prop_offset(t, i) + 32) == wire_prop(t, i).1.len(),
        b.subrange(c + prop_offset(t, i) + 36, c + prop_offset(t, i) + 36 + wire_prop(t, i).1.len())
            == wire_prop(t, i).1,
        b.subrange(
            c + prop_offset(t, i) + 36 + wire_prop(t, i).1.len(),
            c + prop_offset(t, i + 1),
        ) == zero_seq(pad_len(wire_prop(t, i).1.len() as int)),
        (i == 0) == (wire_prop(t, i).0 == name_key()),
        i == 0 ==> wire_prop(t, i).1 == str_bytes(t.name).push(0u8),
{
    let key = wire_prop(t, i).0;
    let val = wire_prop(t, i).1;
    lemma_prop_bytes(t, i);
    lemma_node_end(t);
    let w = wire_node(t);
    let lo = prop_offset(t, i);
    let hi = prop_offset(t, i + 1);
    lemma_wire_property_len(name_key(), val);
    if i > 0 {
        assert(property_name_ok(str_bytes(t.properties@[i - 1].name)));
        lemma_wire_property_len(key, val);
    } else {
        assert(property_name_ok(key)) by {
            assert(key == name_key());
        }
        assert(key.len() == 4);
    }
    assert(0 <= lo);
    assert(lo <= hi);
    lemma_window(b, c, w, lo, hi);
    lemma_read_prop(b, c + lo, key, val);
    if i > 0 {
        assert(key != name_key());
    }
}

/// A node as the wire holds it: its properties, keys and values in wire order, the
/// `name` property among them, and its children.
pub struct WireNode {
    pub properties: Seq<(Seq<u8>, Seq<u8>)>,
    pub children: Seq<WireNode>,
}

/// The wire form of a run of properties.
pub open spec fn wire_props_of(ps: Seq<(Seq<u8>, Seq<u8>)>) -> Seq<u8>
    decreases ps.len(),
{
    if ps.len() == 0 {
        seq![]
    } else {
        wire_props_of(ps.drop_last()) + wire_property(ps.last().0, ps.last().1)
    }
}

/// The wire form of a wire node: its two counts, its properties, its children.
pub open spec fn wire_of(w: WireNode) -> Seq<u8>
    decreases w, 1int,
{
    u32_bytes(w.properties.len() as u32) + u32_bytes(w.children.len() as u32) + wire_props_of(w.properties)
        + wire_children_of(w.children)
}

pub open spec fn wire_children_of(cs: Seq<WireNode>) -> Seq<u8>
    decreases cs, 0int,
{
    if cs.len() == 0 {
        seq![]
    } else {
        wire_children_of(cs.subrange(0, cs.len() - 1)) + wire_of(cs[cs.len() - 1])
    }
}

/// The name a wire node gives itself: the value of its `name` property without the NUL.
pub open spec fn wire_name(w: WireNode) -> Seq<u8> {
    let i = choose|i: int| 0 <= i < w.properties.len() && w.properties[i].0 == name_key();
    w.properties[i].1.drop_last()
}

/// The structure the validator accepts at `depth`: limits, canonical keys without
/// repeats, one `name` property holding a NUL-terminated node name, children with
/// distinct names, each of them accepted one level down.
pub open spec fn wire_tree_ok(w: WireNode, depth: int) -> bool
    decreases w,
{
    let ps = w.properties;
    let cs = w.children;
    &&& depth <= MAX_DEPTH
    &&& 0 < ps.len() <= MAX_PROPERTIES_PER_NODE
    &&& cs.len() <= MAX_CHILDREN_PER_NODE
    &&& forall|i: int| 0 <= i < ps.len() ==> property_name_ok(#[trigger] ps[i].0)
    &&& forall|i: int, j: int| 0 <= i < j < ps.len() ==> #[trigger] ps[i].0 != #[trigger] ps[j].0
    &&& exists|i: int| 0 <= i < ps.len() && #[trigger] ps[i].0 == name_key()
    &&& forall|i: int|
        0 <= i < ps.len() && #[trigger] ps[i].0 == name_key() ==> ps[i].1.len() > 0 && ps[i].1.last() == 0
            && node_name_ok(ps[i].1.drop_last(), depth)
    &&& forall|i: int, j: int| 0 <= i < j < cs.len() ==> wire_name(#[trigger] cs[i]) != wire_name(#[trigger] cs[j])
    &&& forall|i: int| 0 <= i < cs.len() ==> wire_tree_ok(#[trigger] cs[i], depth + 1)
}

/// Where the property at `at` ends, found by its key field and length word alone.
pub open spec fn flat_prop_end(b: Seq<u8>, at: int) -> Option<int> {
    if at < 0 || at + 36 > b.len() {
        None
    } else {
        let len = le_u32(b, at + 32);
        let end = at + 36 + len + pad_len(len);
        if end > b.len() {
            None
        } else {
            Some(end)
        }
    }
}

/// Where a run of `n` properties from `at` ends.
pub open spec fn flat_props_end(b: Seq<u8>, at: int, n: nat) -> Option<int>
    decreases n,
{
    if n == 0 {
        Some(at)
    } else {
        match flat_props_end(b, at, (n - 1) as nat) {
            None => None,
            Some(e) => flat_prop_end(b, e),
        }
    }
}

/// Where the node at `at` ends, found by its counts and length words alone.
pub open spec fn flat_node_end(b: Seq<u8>, at: int) -> Option<int>
    decreases b.len() - at, 0int, 0nat,
{
    if at < 0 || at + 8 > b.len() {
        None
    } else {
        match flat_props_end(b, at + 8, le_u32(b, at) as nat) {
            None => None,
            Some(e) => if at < e <= b.len() {
                flat_children_end(b, e, le_u32(b, at + 4) as nat)
            } else {
                None
            },
        }
    }
}

/// Where a run of `n` nodes from `at` ends.
pub open spec fn flat_children_end(b: Seq<u8>, at: int, n: nat) -> Option<int>
    decreases b.len() - at, 1int, n,
{
    if n == 0 {
        Some(at)
    } else {
        match flat_children_end(b, at, (n - 1) as nat) {
            None => None,
            Some(e) => if at <= e <= b.len() {
                flat_node_end(b, e)
            } else {
                None
            },
        }
    }
}

/// The input is the encoding of one tree that the validator's structure admits.
pub open spec fn accepted_wire(b: Seq<u8>) -> bool {
    exists|w: WireNode| wire_tree_ok(w, 0) && #[trigger] wire_of(w) == b
}

/// A window that holds `x + y` holds `x` and then `y`.
proof fn lemma_window_split(b: Seq<u8>, at: int, x: Seq<u8>, y: Seq<u8>)
    requires
        0 <= at,
        at + x.len() + y.len() <= b.len(),
        b.subrange(at, at + x.len() + y.len()) == x + y,
    ensures
        b.subrange(at, at + x.len()) == x,
        b.subrange(at + x.len(), at + x.len() + y.len()) == y,
{
    let whole = b.subrange(at, at + x.len() + y.len());
    assert forall|k: int| 0 <= k < x.len() implies b.subrange(at, at + x.len())[k] == x[k] by {
        assert(whole[k] == (x + y)[k]);
    }
    assert forall|k: int| 0 <= k < y.len() implies b.subrange(at + x.len(), at + x.len() + y.len())[k] == y[k] by {
        assert(whole[x.len() + k] == (x + y)[x.len() + k]);
    }
    assert(b.subrange(at, at + x.len()) =~= x);
    assert(b.subrange(at + x.len(), at + x.len() + y.len()) =~= y);
}

/// A word inside a window reads as the same word of what the window holds.
proof fn lemma_window_word(b: Seq<u8>, at: int, s: Seq<u8>, off: int)
    requires
        0 <= at,
        at + s.len() <= b.len(),
        b.subrange(at, at + s.len()) == s,
        0 <= off,
        off + 4 <= s.len(),
    ensures
        le_u32(b, at + off) == le_u32(s, off),
{
    let w = b.subrange(at, at + s.len());
    assert(w[off] == b[at + off] && w[off + 1] == b[at + off + 1] && w[off + 2] == b[at + off + 2] && w[off + 3]
        == b[at + off + 3]);
}

/// An encoded property ends where its encoding ends.
proof fn lemma_flat_prop(b: Seq<u8>, at: int, key: Seq<u8>, value: Seq<u8>)
    requires
        key.len() <= 32,
        value.len() <= u32::MAX,
        0 <= at,
        at + wire_property(key, value).len() <= b.len(),
        b.subrange(at, at + wire_property(key, value).len()) == wire_property(key, value),
    ensures
        flat_prop_end(b, at) == Some(at + wire_property(key, value).len()),
{
    lemma_wire_property_len(key, value);
    let wp = wire_property(key, value);
    let v = value.len() as u32;
    crate::bytes::lemma_u32_bytes(v);
    let u = u32_bytes(v);
    assert(wp[32] == u[0] && wp[33] == u[1] && wp[34] == u[2] && wp[35] == u[3]);
    lemma_window_word(b, at, wp, 32);
    assert(le_u32(wp, 32) == le_u32(u, 0));
}

/// A run of encoded properties ends where its encoding ends.
proof fn lemma_flat_props(b: Seq<u8>, at: int, ps: Seq<(Seq<u8>, Seq<u8>)>)
    requires
        0 <= at,
        at + wire_props_of(ps).len() <= b.len(),
        b.len() <= u32::MAX,
        b.subrange(at, at + wire_props_of(ps).len()) == wire_props_of(ps),
        forall|i: int| 0 <= i < ps.len() ==> (#[trigger] ps[i]).0.len() <= 32,
    ensures
        flat_props_end(b, at, ps.len()) == Some(at + wire_props_of(ps).len()),
    decreases ps.len(),
{
    if ps.len() > 0 {
        let q = ps.drop_last();
        let (key, value) = ps.last();
        lemma_wire_property_len(key, value);
        lemma_window_split(b, at, wire_props_of(q), wire_property(key, value));
        assert forall|i: int| 0 <= i < q.len() implies (#[trigger] q[i]).0.len() <= 32 by {
            assert(q[i] == ps[i]);
        }
        lemma_flat_props(b, at, q);
        lemma_flat_prop(b, at + wire_props_of(q).len(), key, value);
    }
}

/// An encoded node ends where its encoding ends.
proof fn lemma_flat_node(b: Seq<u8>, at: int, w: WireNode, depth: int)
    requires
        0 <= at,
        at + wire_of(w).len() <= b.len(),
        b.len() <= u32::MAX,
        b.subrange(at, at + wire_of(w).len()) == wire_of(w),
        wire_tree_ok(w, depth),
    ensures
        flat_node_end(b, at) == Some(at + wire_of(w).len()),
    decreases w, 1int,
{
    let pl = w.properties.len() as u32;
    let cl = w.children.len() as u32;
    let h1 = u32_bytes(pl);
    let h2 = u32_bytes(cl);
    let ps = wire_props_of(w.properties);
    let cs = wire_children_of(w.children);
    crate::bytes::lemma_u32_bytes(pl);
    crate::bytes::lemma_u32_bytes(cl);
    lemma_window_split(b, at, h1 + h2 + ps, cs);
    lemma_window_split(b, at, h1 + h2, ps);
    lemma_window_split(b, at, h1, h2);
    lemma_window_word(b, at, h1, 0);
    lemma_window_word(b, at + 4, h2, 0);
    assert forall|i: int| 0 <= i < w.properties.len() implies (#[trigger] w.properties[i]).0.len() <= 32 by {
        assert(property_name_ok(w.properties[i].0));
    }
    lemma_flat_props(b, at + 8, w.properties);
    lemma_flat_children(b, at + 8 + ps.len(), w.children, depth + 1);
}

/// A run of encoded nodes ends where its encoding ends.
proof fn lemma_flat_children(b: Seq<u8>, at: int, cs: Seq<WireNode>, depth: int)
    requires
        0 <= at,
        at + wire_children_of(cs).len() <= b.len(),
        b.len() <= u32::MAX,
        b.subrange(at, at + wire_children_of(cs).len()) == wire_children_of(cs),
        forall|i: int| 0 <= i < cs.len() ==> wire_tree_ok(#[trigger] cs[i], depth),
    ensures
        flat_children_end(b, at, cs.len()) == Some(at + wire_children_of(cs).len()),
    decreases cs, 0int,
{
    if cs.len() > 0 {
        let q = cs.subrange(0, cs.len() - 1);
        let last = cs[cs.len() - 1];
        lemma_window_split(b, at, wire_children_of(q), wire_of(last));
        assert forall|i: int| 0 <= i < q.len() implies wire_tree_ok(#[trigger] q[i], depth) by {
            assert(q[i] == cs[i]);
        }
        lemma_flat_children(b, at, q, depth);
        lemma_flat_node(b, at + wire_children_of(q).len(), last, depth);
    }
}

/// A property that lies inside a prefix lies in the same place in the whole.
proof fn lemma_flat_prop_extends(p: Seq<u8>, b: Seq<u8>, at: int)
    requires
        p.len() <= b.len(),
        p == b.subrange(0, p.len() as int),
        flat_prop_end(p, at) is Some,
    ensures
        flat_prop_end(b, at) == flat_prop_end(p, at),
{
    lemma_window_word(b, 0, p, at + 32);
}

proof fn lemma_flat_props_extends(p: Seq<u8>, b: Seq<u8>, at: int, n: nat)
    requires
        p.len() <= b.len(),
        p == b.subrange(0, p.len() as int),
        flat_props_end(p, at, n) is Some,
    ensures
        flat_props_end(b, at, n) == flat_props_end(p, at, n),
    decreases n,
{
    if n > 0 {
        lemma_flat_props_extends(p, b, at, (n - 1) as nat);
        lemma_flat_prop_extends(p, b, flat_props_end(p, at, (n - 1) as nat)->0);
    }
}

proof fn lemma_flat_node_extends(p: Seq<u8>, b: Seq<u8>, at: int)
    requires
        p.len() <= b.len(),
        p == b.subrange(0, p.len() as int),
        flat_node_end(p, at) is Some,
    ensures
        flat_node_end(b, at) == flat_node_end(p, at),
    decreases p.len() - at, 0int, 0nat,
{
    lemma_window_word(b, 0, p, at);
    lemma_window_word(b, 0, p, at + 4);
    lemma_flat_props_extends(p, b, at + 8, le_u32(p, at) as nat);
    let e = flat_props_end(p, at + 8, le_u32(p, at) as nat)->0;
    lemma_flat_children_extends(p, b, e, le_u32(p, at + 4) as nat);
}

proof fn lemma_flat_children_extends(p: Seq<u8>, b: Seq<u8>, at: int, n: nat)
    requires
        p.len() <= b.len(),
        p == b.subrange(0, p.len() as int),
        flat_children_end(p, at, n) is Some,
    ensures
        flat_children_end(b, at, n) == flat_children_end(p, at, n),
    decreases p.len() - at, 1int, n,
{
    if n > 0 {
        lemma_flat_children_extends(p, b, at, (n - 1) as nat);
        lemma_flat_node_extends(p, b, flat_children_end(p, at, (n - 1) as nat)->0);
    }
}

/// Of an input within the size limit and a strict prefix of it, at most one is
/// the encoding of a tree the validator admits: no encoding is cut short or
/// followed by more bytes and still read as a whole tree.
pub proof fn lemma_accepted_wire_prefix_free(p: Seq<u8>, b: Seq<u8>)
    requires
        p.len() < b.len() <= MAX_SERIALIZED_SIZE,
        p == b.subrange(0, p.len() as int),
    ensures
        !(accepted_wire(p) && accepted_wire(b)),
{
    if accepted_wire(p) && accepted_wire(b) {
        let w1 = choose|w: WireNode| wire_tree_ok(w, 0) && #[trigger] wire_of(w) == p;
        let w2 = choose|w: WireNode| wire_tree_ok(w, 0) && #[trigger] wire_of(w) == b;
        assert(p.subrange(0, p.len() as int) =~= p);
        assert(b.subrange(0, b.len() as int) =~= b);
        lemma_flat_node(p, 0, w1, 0);
        lemma_flat_node(b, 0, w2, 0);
        lemma_flat_node_extends(p, b, 0);
    }
}

/// Four bytes are the little-endian form of the word they hold.
proof fn lemma_word_bytes(b: Seq<u8>, at: int)
    requires
        0 <= at,
        at + 4 <= b.len(),
    ensures
        b.subrange(at, at + 4) == u32_bytes(le_u32(b, at) as u32),
{
    let y0 = b[at] as u32;
    let y1 = b[at + 1] as u32;
    let y2 = b[at + 2] as u32;
    let y3 = b[at + 3] as u32;
    let v: u32 = (y0 + y1 * 256 + y2 * 65536 + y3 * 16777216) as u32;
    assert(le_u32(b, at) == y0 + y1 * 256 + y2 * 65536 + y3 * 16777216);
    assert(v % 256 == y0 && (v / 256) % 256 == y1 && (v / 65536) % 256 == y2 && v / 16777216 == y3) by (bit_vector)
        requires
            y0 < 256,
            y1 < 256,
            y2 < 256,
            y3 < 256,
            v == y0 + y1 * 256 + y2 * 65536 + y3 * 16777216,
    ;
    assert(b.subrange(at, at + 4) =~= u32_bytes(v));
}

/// A window of `b` split at `m` is its two halves one after the other.
proof fn lemma_split(b: Seq<u8>, a: int, m: int, c: int)
    requires
        0 <= a <= m <= c <= b.len(),
    ensures
        b.subrange(a, c) == b.subrange(a, m) + b.subrange(m, c),
{
    assert(b.subrange(a, c) =~= b.subrange(a, m) + b.subrange(m, c));
}

struct Budget {
    nodes: usize,
    properties: usize,
    bytes: usize,
}

impl Budget {
    fn new() -> (r: Budget)
        ensures
            r.nodes == 0 && r.properties == 0 && r.bytes == 0,
    {
        Budget { nodes: 0, properties: 0, bytes: 0 }
    }

    fn node(&mut self, depth: usize, properties: usize, children: usize) -> (r: Result<
        (),
        FlatDtError,
    >)
        ensures
            r is Ok ==> {
                &&& depth <= MAX_DEPTH
                &&& 0 < properties <= MAX_PROPERTIES_PER_NODE
                &&& children <= MAX_CHILDREN_PER_NODE
                &&& final(self).nodes == old(self).nodes + 1 <= MAX_NODES
                &&& final(self).properties == old(self).properties + properties <= MAX_PROPERTIES
                &&& final(self).bytes == old(self).bytes + 8 <= MAX_SERIALIZED_SIZE
            },
            r is Err ==> r == Err::<(), FlatDtError>(FlatDtError::LimitsExceeded),
            final(self).nodes >= old(self).nodes,
            final(self).properties >= old(self).properties,
            final(self).bytes >= old(self).bytes,
            depth <= MAX_DEPTH && 0 < properties <= MAX_PROPERTIES_PER_NODE && children
                <= MAX_CHILDREN_PER_NODE && old(self).nodes + 1 <= MAX_NODES && old(self).properties
                + properties <= MAX_PROPERTIES && old(self).bytes + 8 <= MAX_SERIALIZED_SIZE ==> r is Ok,
    {
        if depth > MAX_DEPTH || properties == 0 || properties > MAX_PROPERTIES_PER_NODE || children
            > MAX_CHILDREN_PER_NODE {
            return Err(FlatDtError::LimitsExceeded);
        }
        self.nodes = match self.nodes.checked_add(1) {
            Some(v) => v,
            None => return Err(FlatDtError::LimitsExceeded),
        };
        self.properties = match self.properties.checked_add(properties) {
            Some(v) => v,
            None => return Err(FlatDtError::LimitsExceeded),
        };
        if self.nodes > MAX_NODES || self.properties > MAX_PROPERTIES {
            return Err(FlatDtError::LimitsExceeded);
        }
        self.add_bytes(8)
    }

    fn add_bytes(&mut self, bytes: usize) -> (r: Result<(), FlatDtError>)
        ensures
            final(self).nodes == old(self).nodes,
            final(self).properties == old(self).properties,
            final(self).bytes >= old(self).bytes,
            r is Ok ==> final(self).bytes == old(self).bytes + bytes <= MAX_SERIALIZED_SIZE,
            r is Err ==> r == Err::<(), FlatDtError>(FlatDtError::LimitsExceeded),
            old(self).bytes + bytes <= MAX_SERIALIZED_SIZE ==> r is Ok,
    {
        self.bytes = match self.bytes.checked_add(bytes) {
            Some(v) => v,
            None => return Err(FlatDtError::LimitsExceeded),
        };
        if self.bytes > MAX_SERIALIZED_SIZE {
            return Err(FlatDtError::LimitsExceeded);
        }
        Ok(())
    }
}

fn property_size(value_size: usize) -> (r: Result<usize, FlatDtError>)
    ensures
        r is Ok <==> value_size <= MAX_SERIALIZED_SIZE,
        r matches Ok(n) ==> n == 36 + value_size + pad_len(value_size as int),
        r is Err ==> r == Err::<usize, FlatDtError>(FlatDtError::LimitsExceeded),
{
    if value_size > MAX_SERIALIZED_SIZE {
        return Err(FlatDtError::LimitsExceeded);
    }
    Ok(36 + value_size + (4 - value_size % 4) % 4)
}

fn printable_bytes(bytes: &[u8]) -> (r: bool)
    ensures
        r == printable(bytes@),
{
    let mut i: usize = 0;
    while i < bytes.len()
        invariant
            i <= bytes@.len(),
            forall|k: int| 0 <= k < i ==> 0x20 <= #[trigger] bytes@[k] <= 0x7e,
        decreases bytes@.len() - i,
    {
        if bytes[i] < 0x20 || bytes[i] > 0x7e {
            return false;
        }
        i = i + 1;
    }
    true
}

fn check_node_name(name: &[u8], depth: usize) -> (r: Result<(), FlatDtError>)
    ensures
        r is Ok <==> node_name_ok(name@, depth as int),
        r is Err ==> r == Err::<(), FlatDtError>(FlatDtError::InvalidNodeName),
{
    if name.len() > MAX_NODE_NAME || (name.len() == 0 && depth != 0) || !printable_bytes(name) {
        return Err(FlatDtError::InvalidNodeName);
    }
    Ok(())
}

fn check_property_name(name: &[u8]) -> (r: Result<(), FlatDtError>)
    ensures
        r is Ok <==> property_name_ok(name@),
        r is Err ==> r == Err::<(), FlatDtError>(FlatDtError::InvalidPropertyName),
{
    if name.len() == 0 || name.len() > MAX_PROPERTY_NAME || !printable_bytes(name) {
        return Err(FlatDtError::InvalidPropertyName);
    }
    Ok(())
}

fn is_name_key(name: &[u8]) -> (r: bool)
    ensures
        r == (name@ == name_key()),
{
    if name.len() == 4 && name[0] == 110 && name[1] == 97 && name[2] == 109 && name[3] == 101 {
        assert(name@ =~= name_key());
        true
    } else {
        false
    }
}

pub(crate) fn string_bytes(s: &String) -> (r: &[u8])
    ensures
        r@ == str_bytes(*s),
{
    s.as_str().as_bytes()
}

/// Preflight the complete model before allocating the bounded output buffer.
pub fn encode(root: &FlatNode) -> (r: Result<Vec<u8>, FlatDtError>)
    ensures
        r matches Ok(b) ==> encodable(*root) && b@ == wire_node(*root),
        encodable(*root) ==> r is Ok || r == Err::<Vec<u8>, FlatDtError>(FlatDtError::AllocationFailed),
        r matches Err(e) ==> e != FlatDtError::Truncated && e != FlatDtError::InvalidPadding
            && e != FlatDtError::TrailingData && e != FlatDtError::InvalidNameProperty,
        r == Err::<Vec<u8>, FlatDtError>(FlatDtError::DuplicateProperty) ==> has_key_clash(*root),
        r == Err::<Vec<u8>, FlatDtError>(FlatDtError::DuplicateChild) ==> has_child_clash(*root),
{
    let mut budget = Budget::new();
    measure_node(root, 0, &mut budget)?;
    let mut bytes: Vec<u8> = Vec::new();
    if bytes.try_reserve(budget.bytes).is_err() {
        return Err(FlatDtError::AllocationFailed);
    }
    write_node(root, &mut bytes, Ghost(0))?;
    Ok(bytes)
}

proof fn lemma_wire_property_len(name: Seq<u8>, value: Seq<u8>)
    requires
        name.len() <= 32,
    ensures
        wire_property(name, value).len() == 36 + value.len() + pad_len(value.len() as int),
{
    crate::bytes::lemma_u32_bytes(value.len() as u32);
}

#[verifier::spinoff_prover]
fn measure_node(node: &FlatNode, depth: usize, budget: &mut Budget) -> (r: Result<(), FlatDtError>)
    ensures
        r is Ok ==> tree_ok(*node, depth as int),
        r is Ok ==> final(budget).bytes == old(budget).bytes + wire_node(*node).len(),
        r is Ok ==> final(budget).bytes <= MAX_SERIALIZED_SIZE,
        final(budget).bytes >= old(budget).bytes,
        final(budget).nodes >= old(budget).nodes,
        final(budget).properties >= old(budget).properties,
        r matches Err(e) ==> e != FlatDtError::Truncated && e != FlatDtError::InvalidPadding
            && e != FlatDtError::TrailingData && e != FlatDtError::InvalidNameProperty
            && e != FlatDtError::AllocationFailed,
        r == Err::<(), FlatDtError>(FlatDtError::DuplicateProperty) ==> has_key_clash(*node),
        r == Err::<(), FlatDtError>(FlatDtError::DuplicateChild) ==> has_child_clash(*node),
        r is Ok ==> final(budget).nodes == old(budget).nodes + node_count(*node) <= MAX_NODES,
        r is Ok ==> final(budget).properties == old(budget).properties + property_count(*node)
            <= MAX_PROPERTIES,
        tree_ok(*node, depth as int) && old(budget).nodes + node_count(*node) <= MAX_NODES
            && old(budget).properties + property_count(*node) <= MAX_PROPERTIES && old(budget).bytes
            + wire_node(*node).len() <= MAX_SERIALIZED_SIZE ==> r is Ok,
    decreases node,
{
    let ghost good = tree_ok(*node, depth as int) && old(budget).nodes + node_count(*node) <= MAX_NODES
        && old(budget).properties + property_count(*node) <= MAX_PROPERTIES && old(budget).bytes
        + wire_node(*node).len() <= MAX_SERIALIZED_SIZE;
    proof {
        lemma_wire_property_len(name_key(), str_bytes(node.name).push(0u8));
        crate::bytes::lemma_u32_bytes((node.properties@.len() + 1) as u32);
        crate::bytes::lemma_u32_bytes(node.children@.len() as u32);
        assert(wire_node(*node).len() == 8 + wire_property(name_key(), str_bytes(node.name).push(0u8)).len()
            + wire_properties(node.properties@).len() + wire_children(node.children@).len());
    }
    let own_properties = match node.properties.len().checked_add(1) {
        Some(v) => v,
        None => return Err(FlatDtError::LimitsExceeded),
    };
    budget.node(depth, own_properties, node.children.len())?;
    let name = string_bytes(&node.name);
    check_node_name(name, depth)?;
    let ps = property_size(name.len() + 1)?;
    budget.add_bytes(ps)?;
    let ghost start = old(budget).bytes;
    proof {
        assert(str_bytes(node.name).push(0u8).len() == name@.len() + 1);
        lemma_wire_property_len(name_key(), str_bytes(node.name).push(0u8));
        assert(node.properties@.subrange(0, 0) =~= Seq::<FlatProperty>::empty());
        assert(node.children@.subrange(0, 0) =~= Seq::<FlatNode>::empty());
    }
    let mut index: usize = 0;
    while index < node.properties.len()
        invariant
            index <= node.properties@.len(),
            node.properties@.len() + 1 <= MAX_PROPERTIES_PER_NODE,
            budget.bytes >= old(budget).bytes,
            budget.nodes >= old(budget).nodes,
            budget.properties >= old(budget).properties,
            budget.bytes <= MAX_SERIALIZED_SIZE,
            budget.bytes == start + 8 + wire_property(name_key(), str_bytes(node.name).push(0u8)).len()
                + wire_properties(node.properties@.subrange(0, index as int)).len(),
            forall|i: int|
                0 <= i < index ==> {
                    &&& property_name_ok(#[trigger] str_bytes(node.properties@[i].name))
                    &&& str_bytes(node.properties@[i].name) != name_key()
                },
            forall|i: int, j: int|
                0 <= i < j < index ==> #[trigger] node.properties@[i].name@
                    != #[trigger] node.properties@[j].name@,
            good == (tree_ok(*node, depth as int) && old(budget).nodes + node_count(*node) <= MAX_NODES
                && old(budget).properties + property_count(*node) <= MAX_PROPERTIES && old(budget).bytes
                + wire_node(*node).len() <= MAX_SERIALIZED_SIZE),
            start == old(budget).bytes,
            budget.nodes == old(budget).nodes + 1 <= MAX_NODES,
            budget.properties == old(budget).properties + node.properties@.len() + 1 <= MAX_PROPERTIES,
            wire_node(*node).len() == 8 + wire_property(name_key(), str_bytes(node.name).push(0u8)).len()
                + wire_properties(node.properties@).len() + wire_children(node.children@).len(),
        decreases node.properties@.len() - index,
    {
        let property = &node.properties[index];
        let pname = string_bytes(&property.name);
        proof {
            if good {
                let ps = node.properties@.subrange(0, index + 1);
                assert(ps.drop_last() =~= node.properties@.subrange(0, index as int));
                lemma_properties_prefix(node.properties@, index + 1);
                lemma_wire_property_len(str_bytes(property.name), property.value@);
                assert(property_name_ok(str_bytes(node.properties@[index as int].name)));
                assert forall|i: int| 0 <= i < index implies node.properties@[i].name@ != property.name@ by {
                    assert(node.properties@[i].name@ != node.properties@[index as int].name@);
                }
            }
        }
        check_property_name(pname)?;
        if is_name_key(pname) {
            assert(str_bytes(node.properties@[index as int].name) == name_key());
            return Err(FlatDtError::DuplicateProperty);
        }
        let mut k: usize = 0;
        while k < index
            invariant
                k <= index < node.properties@.len(),
                property == node.properties@[index as int],
                budget.bytes >= old(budget).bytes,
                budget.nodes >= old(budget).nodes,
                budget.properties >= old(budget).properties,
                forall|i: int| 0 <= i < k ==> node.properties@[i].name@ != property.name@,
                good ==> forall|i: int| 0 <= i < index ==> node.properties@[i].name@ != property.name@,
            decreases index - k,
        {
            if node.properties[k].name == property.name {
                assert(node.properties@[k as int].name@ == node.properties@[index as int].name@);
                return Err(FlatDtError::DuplicateProperty);
            }
            k = k + 1;
        }
        let vs = property_size(property.value.len())?;
        budget.add_bytes(vs)?;
        proof {
            let ps = node.properties@.subrange(0, index + 1);
            assert(ps.drop_last() =~= node.properties@.subrange(0, index as int));
            lemma_wire_property_len(str_bytes(property.name), property.value@);
        }
        index = index + 1;
    }
    assert(node.properties@.subrange(0, node.properties@.len() as int) =~= node.properties@);
    let ghost mid = budget.bytes;
    let mut index: usize = 0;
    while index < node.children.len()
        invariant
            index <= node.children@.len(),
            depth <= MAX_DEPTH,
            node.children@.len() <= MAX_CHILDREN_PER_NODE,
            budget.bytes >= old(budget).bytes,
            budget.nodes >= old(budget).nodes,
            budget.properties >= old(budget).properties,
            budget.bytes <= MAX_SERIALIZED_SIZE,
            budget.bytes == mid + wire_children(node.children@.subrange(0, index as int)).len(),
            forall|i: int, j: int|
                0 <= i < j < index ==> #[trigger] node.children@[i].name@
                    != #[trigger] node.children@[j].name@,
            forall|i: int|
                0 <= i < index ==> tree_ok(#[trigger] node.children@[i], depth + 1),
            good == (tree_ok(*node, depth as int) && old(budget).nodes + node_count(*node) <= MAX_NODES
                && old(budget).properties + property_count(*node) <= MAX_PROPERTIES && old(budget).bytes
                + wire_node(*node).len() <= MAX_SERIALIZED_SIZE),
            budget.nodes == old(budget).nodes + 1 + nodes_in(node.children@.subrange(0, index as int)) <= MAX_NODES,
            budget.properties == old(budget).properties + node.properties@.len() + 1 + properties_in(
                node.children@.subrange(0, index as int),
            ) <= MAX_PROPERTIES,
            mid + wire_children(node.children@).len() == old(budget).bytes + wire_node(*node).len(),
        decreases node.children@.len() - index,
    {
        let child = &node.children[index];
        proof {
            let cs = node.children@.subrange(0, index + 1);
            assert(cs.subrange(0, cs.len() - 1) =~= node.children@.subrange(0, index as int));
            assert(cs[cs.len() - 1] == node.children@[index as int]);
            if good {
                lemma_children_prefix(node.children@, index + 1);
                assert(tree_ok(node.children@[index as int], depth + 1));
                assert forall|i: int| 0 <= i < index implies node.children@[i].name@ != child.name@ by {
                    assert(node.children@[i].name@ != node.children@[index as int].name@);
                }
            }
        }
        let mut k: usize = 0;
        while k < index
            invariant
                k <= index < node.children@.len(),
                child == node.children@[index as int],
                budget.bytes >= old(budget).bytes,
                budget.nodes >= old(budget).nodes,
                budget.properties >= old(budget).properties,
                forall|i: int| 0 <= i < k ==> node.children@[i].name@ != child.name@,
                good ==> forall|i: int| 0 <= i < index ==> node.children@[i].name@ != child.name@,
            decreases index - k,
        {
            if node.children[k].name == child.name {
                assert(node.children@[k as int].name@ == node.children@[index as int].name@);
                return Err(FlatDtError::DuplicateChild);
            }
            k = k + 1;
        }
        match measure_node(child, depth + 1, budget) {
            Ok(()) => {},
            Err(e) => {
                proof {
                    if e == FlatDtError::DuplicateProperty {
                        assert(has_key_clash(node.children@[index as int]));
                    }
                    if e == FlatDtError::DuplicateChild {
                        assert(has_child_clash(node.children@[index as int]));
                    }
                }
                return Err(e);
            },
        }
        proof {
            let cs = node.children@.subrange(0, index + 1);
            assert(cs.subrange(0, cs.len() - 1) =~= node.children@.subrange(0, index as int));
        }
        index = index + 1;
    }
    assert(node.children@.subrange(0, node.children@.len() as int) =~= node.children@);
    Ok(())
}

fn write_property(name: &[u8], value: &[u8], bytes: &mut Vec<u8>) -> (r: Result<(), FlatDtError>)
    requires
        name@.len() <= 32,
    ensures
        r is Ok ==> final(bytes)@ == old(bytes)@ + wire_property(name@, value@),
        r is Err ==> r == Err::<(), FlatDtError>(FlatDtError::LimitsExceeded),
        value@.len() <= 0xffff_ffff ==> r is Ok,
{
    if value.len() > 0xffff_ffff {
        return Err(FlatDtError::LimitsExceeded);
    }
    let length = value.len() as u32;
    push_slice(bytes, name);
    push_zeros(bytes, 32 - name.len());
    push_u32(bytes, length);
    push_slice(bytes, value);
    push_zeros(bytes, (4 - value.len() % 4) % 4);
    Ok(())
}

#[verifier::spinoff_prover]
fn write_node(node: &FlatNode, bytes: &mut Vec<u8>, Ghost(depth): Ghost<int>) -> (r: Result<(), FlatDtError>)
    ensures
        r is Ok ==> final(bytes)@ == old(bytes)@ + wire_node(*node),
        r matches Err(e) ==> e == FlatDtError::LimitsExceeded || e == FlatDtError::InvalidNodeName
            || e == FlatDtError::InvalidPropertyName,
        tree_ok(*node, depth) && wire_node(*node).len() <= MAX_SERIALIZED_SIZE ==> r is Ok,
    decreases node,
{
    let ghost good = tree_ok(*node, depth) && wire_node(*node).len() <= MAX_SERIALIZED_SIZE;
    let ghost whole = wire_node(*node);
    if node.properties.len() >= 0xffff_ffff || node.children.len() > 0xffff_ffff {
        return Err(FlatDtError::LimitsExceeded);
    }
    let properties = (node.properties.len() + 1) as u32;
    let children = node.children.len() as u32;
    push_u32(bytes, properties);
    push_u32(bytes, children);
    let name = string_bytes(&node.name);
    if name.len() > MAX_NODE_NAME {
        return Err(FlatDtError::InvalidNodeName);
    }
    let mut name_value: Vec<u8> = Vec::new();
    push_slice(&mut name_value, name);
    name_value.push(0);
    let key: [u8; 4] = [110, 97, 109, 101];
    assert(key@ =~= name_key());
    write_property(key.as_slice(), name_value.as_slice(), bytes)?;
    let ghost after_name = bytes@;
    let mut index: usize = 0;
    while index < node.properties.len()
        invariant
            index <= node.properties@.len(),
            bytes@ == after_name + wire_properties(node.properties@.subrange(0, index as int)),
            good == (tree_ok(*node, depth) && wire_node(*node).len() <= MAX_SERIALIZED_SIZE),
            whole == wire_node(*node),
        decreases node.properties@.len() - index,
    {
        let property = &node.properties[index];
        let pname = string_bytes(&property.name);
        proof {
            if good {
                assert(property_name_ok(str_bytes(node.properties@[index as int].name)));
                let ps = node.properties@.subrange(0, index + 1);
                assert(ps.drop_last() =~= node.properties@.subrange(0, index as int));
                lemma_properties_prefix(node.properties@, index + 1);
                lemma_wire_property_len(str_bytes(property.name), property.value@);
                assert(wire_properties(node.properties@).len() <= whole.len());
                assert(property.value@.len() <= whole.len());
            }
        }
        if pname.len() > 32 {
            return Err(FlatDtError::InvalidPropertyName);
        }
        write_property(pname, property.value.as_slice(), bytes)?;
        proof {
            let ps = node.properties@.subrange(0, index + 1);
            assert(ps.drop_last() =~= node.properties@.subrange(0, index as int));
            assert(bytes@ =~= after_name + wire_properties(ps));
        }
        index = index + 1;
    }
    assert(node.properties@.subrange(0, node.properties@.len() as int) =~= node.properties@);
    let ghost after_props = bytes@;
    let mut index: usize = 0;
    while index < node.children.len()
        invariant
            index <= node.children@.len(),
            bytes@ == after_props + wire_children(node.children@.subrange(0, index as int)),
            good == (tree_ok(*node, depth) && wire_node(*node).len() <= MAX_SERIALIZED_SIZE),
            whole == wire_node(*node),
        decreases node.children@.len() - index,
    {
        proof {
            if good {
                assert(tree_ok(node.children@[index as int], depth + 1));
                let cs = node.children@.subrange(0, index + 1);
                assert(cs.subrange(0, cs.len() - 1) =~= node.children@.subrange(0, index as int));
                lemma_children_prefix(node.children@, index + 1);
                assert(wire_children(node.children@).len() <= whole.len());
                assert(wire_children(cs) == wire_children(node.children@.subrange(0, index as int)) + wire_node(node.children@[index as int]));
                assert(wire_node(node.children@[index as int]).len() <= whole.len());
            }
        }
        write_node(&node.children[index], bytes, Ghost(depth + 1))?;
        proof {
            let cs = node.children@.subrange(0, index + 1);
            assert(cs.subrange(0, cs.len() - 1) =~= node.children@.subrange(0, index as int));
            assert(bytes@ =~= after_props + wire_children(cs));
        }
        index = index + 1;
    }
    assert(node.children@.subrange(0, node.children@.len() as int) =~= node.children@);
    assert(bytes@ =~= old(bytes)@ + wire_node(*node));
    Ok(())
}

/// Validate this codec's bounded profile without trusting counts.
/// Names and padding must be canonical: no bytes after a name's terminator and
/// zero alignment padding. Opaque property payloads are not interpreted.
/// The encoding of every tree that `encode` accepts validates, and what validates is
/// the wire form of a tree of the accepted structure (`wire_tree_ok`).
pub fn validate(bytes: &[u8]) -> (r: Result<(), FlatDtError>)
    ensures
        r is Ok ==> bytes@.len() <= MAX_SERIALIZED_SIZE,
        bytes@.len() > MAX_SERIALIZED_SIZE ==> r == Err::<(), FlatDtError>(
            FlatDtError::LimitsExceeded,
        ),
        r matches Err(e) ==> e != FlatDtError::AllocationFailed,
        forall|t: FlatNode| encodable(t) && wire_node(t) == bytes@ ==> r is Ok,
        r is Ok ==> accepted_wire(bytes@),
        bytes@.len() < 8 ==> r == Err::<(), FlatDtError>(FlatDtError::Truncated),
{
    if bytes.len() > MAX_SERIALIZED_SIZE {
        return Err(FlatDtError::LimitsExceeded);
    }
    let ghost model: Option<FlatNode> = if exists|t: FlatNode| encodable(t) && wire_node(t) == bytes@ {
        Some(choose|t: FlatNode| encodable(t) && wire_node(t) == bytes@)
    } else {
        None
    };
    let mut cursor: usize = 0;
    let mut budget = Budget::new();
    proof {
        if model is Some {
            assert(bytes@.subrange(0, bytes@.len() as int) =~= bytes@);
        }
    }
    let (_, tree) = read_node(bytes, &mut cursor, 0, &mut budget, Ghost(model))?;
    if cursor != bytes.len() {
        return Err(FlatDtError::TrailingData);
    }
    proof {
        assert(bytes@.subrange(0, bytes@.len() as int) =~= bytes@);
        assert(wire_tree_ok(tree@, 0) && wire_of(tree@) == bytes@);
    }
    Ok(())
}

fn take<'a>(bytes: &'a [u8], cursor: &mut usize, size: usize) -> (r: Result<&'a [u8], FlatDtError>)
    ensures
        r matches Ok(s) ==> {
            &&& old(cursor) + size <= bytes@.len()
            &&& *final(cursor) == old(cursor) + size
            &&& s@ == bytes@.subrange(*old(cursor) as int, old(cursor) + size)
        },
        r is Err ==> r == Err::<&[u8], FlatDtError>(FlatDtError::Truncated)
            && *final(cursor) == *old(cursor),
        old(cursor) + size <= bytes@.len() ==> r is Ok,
{
    proof {
        assert(bytes@.len() == bytes.len());
    }
    let end = match cursor.checked_add(size) {
        Some(e) => e,
        None => return Err(FlatDtError::Truncated),
    };
    if end > bytes.len() {
        return Err(FlatDtError::Truncated);
    }
    let slice = &bytes[*cursor..end];
    *cursor = end;
    Ok(slice)
}

fn take_u32(bytes: &[u8], cursor: &mut usize) -> (r: Result<u32, FlatDtError>)
    ensures
        r matches Ok(v) ==> {
            &&& old(cursor) + 4 <= bytes@.len()
            &&& *final(cursor) == old(cursor) + 4
            &&& v == le_u32(bytes@, *old(cursor) as int)
        },
        r is Err ==> r == Err::<u32, FlatDtError>(FlatDtError::Truncated),
        old(cursor) + 4 <= bytes@.len() ==> r is Ok,
{
    let value = take(bytes, cursor, 4)?;
    Ok(read_u32(value, 0))
}

fn first_zero(s: &[u8]) -> (r: Option<usize>)
    ensures
        r matches Some(i) ==> i < s@.len() && s@[i as int] == 0 && forall|k: int|
            0 <= k < i ==> s@[k] != 0,
        r is None ==> forall|k: int| 0 <= k < s@.len() ==> s@[k] != 0,
{
    let mut i: usize = 0;
    while i < s.len()
        invariant
            i <= s@.len(),
            forall|k: int| 0 <= k < i ==> s@[k] != 0,
        decreases s@.len() - i,
    {
        if s[i] == 0 {
            return Some(i);
        }
        i = i + 1;
    }
    None
}

fn all_zero(s: &[u8]) -> (r: bool)
    ensures
        r == forall|k: int| 0 <= k < s@.len() ==> s@[k] == 0,
{
    let mut i: usize = 0;
    while i < s.len()
        invariant
            i <= s@.len(),
            forall|k: int| 0 <= k < i ==> s@[k] == 0,
        decreases s@.len() - i,
    {
        if s[i] != 0 {
            return false;
        }
        i = i + 1;
    }
    true
}

fn contains_name(names: &Vec<&[u8]>, name: &[u8]) -> (r: bool)
    ensures
        r == exists|k: int| 0 <= k < names@.len() && names@[k]@ == name@,
{
    let mut i: usize = 0;
    while i < names.len()
        invariant
            i <= names@.len(),
            forall|k: int| 0 <= k < i ==> names@[k]@ != name@,
        decreases names@.len() - i,
    {
        if crate::bytes::bytes_eq(names[i], name) {
            return true;
        }
        i = i + 1;
    }
    false
}

#[verifier::spinoff_prover]
#[verifier::rlimit(50)]
fn read_node<'a>(
    bytes: &'a [u8],
    cursor: &mut usize,
    depth: usize,
    budget: &mut Budget,
    Ghost(model): Ghost<Option<FlatNode>>,
) -> (r: Result<(&'a [u8], Ghost<WireNode>), FlatDtError>)
    ensures
        *final(cursor) <= bytes@.len() || r is Err,
        final(budget).nodes >= old(budget).nodes,
        final(budget).properties >= old(budget).properties,
        final(budget).bytes >= old(budget).bytes,
        r matches Ok((name, _)) ==> node_name_ok(name@, depth as int),
        *old(cursor) + 8 > bytes@.len() ==> r == Err::<(&'a [u8], Ghost<WireNode>), FlatDtError>(FlatDtError::Truncated),
        r matches Ok((name, w)) ==> {
            &&& *old(cursor) <= *final(cursor)
            &&& wire_of(w@) == bytes@.subrange(*old(cursor) as int, *final(cursor) as int)
            &&& wire_tree_ok(w@, depth as int)
            &&& wire_name(w@) == name@
        },
        r is Ok ==> final(budget).nodes <= MAX_NODES,
        r matches Err(e) ==> e != FlatDtError::AllocationFailed,
        model matches Some(t) ==> (fits_at(bytes@, *old(cursor) as int, t, depth as int, *old(budget))
            ==> {
            &&& r is Ok
            &&& r matches Ok((name, _)) ==> name@ == str_bytes(t.name)
            &&& *final(cursor) == *old(cursor) + wire_node(t).len()
            &&& final(budget).nodes == old(budget).nodes + node_count(t)
            &&& final(budget).properties == old(budget).properties + property_count(t)
            &&& final(budget).bytes == old(budget).bytes + wire_node(t).len()
        }),
    decreases MAX_NODES + 1 - old(budget).nodes,
{
    let ghost c0: int = *cursor as int;
    let ghost b0: Budget = *budget;
    let ghost t: FlatNode = match model {
        Some(m) => m,
        None => arbitrary(),
    };
    let ghost ok: bool = model is Some && fits_at(bytes@, c0, t, depth as int, b0);
    proof {
        if ok {
            lemma_header(bytes@, c0, t);
            lemma_node_end(t);
        }
    }
    let properties = take_u32(bytes, cursor)? as usize;
    let children = take_u32(bytes, cursor)? as usize;
    proof {
        lemma_word_bytes(bytes@, c0);
        lemma_word_bytes(bytes@, c0 + 4);
        lemma_split(bytes@, c0, c0 + 4, c0 + 8);
        assert(bytes@.subrange(c0 + 8, c0 + 8) =~= wire_props_of(Seq::empty()));
    }
    let ghost head = bytes@.subrange(c0, c0 + 8);
    budget.node(depth, properties, children)?;
    let mut property_names: Vec<&[u8]> = Vec::new();
    let mut node_name: Option<&[u8]> = None;
    let ghost mut ps: Seq<(Seq<u8>, Seq<u8>)> = Seq::empty();
    let ghost mut name_at: int = -1;
    let mut index: usize = 0;
    while index < properties
        invariant
            index <= properties <= MAX_PROPERTIES_PER_NODE,
            property_names@.len() == index,
            *cursor <= bytes@.len(),
            depth <= MAX_DEPTH,
            budget.nodes >= old(budget).nodes + 1,
            budget.nodes <= MAX_NODES,
            budget.properties >= old(budget).properties,
            budget.bytes >= old(budget).bytes,
            node_name matches Some(n) ==> node_name_ok(n@, depth as int),
            b0 == *old(budget),
            c0 == *old(cursor),
            ok == (model is Some && fits_at(bytes@, c0, t, depth as int, b0)),
            model is Some ==> model == Some(t),
            0 < properties,
            head == u32_bytes(properties as u32) + u32_bytes(children as u32),
            head == bytes@.subrange(c0, c0 + 8),
            c0 + 8 <= *cursor,
            ps.len() == index,
            bytes@.subrange(c0 + 8, *cursor as int) == wire_props_of(ps),
            forall|k: int| 0 <= k < index ==> #[trigger] ps[k].0 == property_names@[k]@,
            forall|k: int| 0 <= k < index ==> property_name_ok(#[trigger] ps[k].0),
            forall|i: int, j: int| 0 <= i < j < index ==> #[trigger] ps[i].0 != #[trigger] ps[j].0,
            forall|k: int|
                0 <= k < index && #[trigger] ps[k].0 == name_key() ==> ps[k].1.len() > 0 && ps[k].1.last() == 0
                    && node_name_ok(ps[k].1.drop_last(), depth as int),
            node_name matches Some(n) ==> 0 <= name_at < index && ps[name_at].0 == name_key() && ps[name_at].1
                == n@.push(0u8),
            node_name is None ==> forall|k: int| 0 <= k < index ==> #[trigger] ps[k].0 != name_key(),
            ok ==> {
                &&& fits_at(bytes@, c0, t, depth as int, b0)
                &&& properties == t.properties@.len() + 1
                &&& children == t.children@.len()
                &&& *cursor == c0 + prop_offset(t, index as int)
                &&& budget.nodes == b0.nodes + 1
                &&& budget.properties == b0.properties + properties
                &&& budget.bytes == b0.bytes + prop_offset(t, index as int)
                &&& forall|k: int| 0 <= k < index ==> #[trigger] property_names@[k]@ == wire_prop(t, k).0
                &&& index > 0 ==> (node_name matches Some(n) && n@ == str_bytes(t.name))
            },
        decreases properties - index,
    {
        proof {
            if ok {
                lemma_prop_at(bytes@, c0, t, depth as int, index as int);
                crate::bytes::lemma_u32_bytes(0u32);
            }
        }
        let ghost key = wire_prop(t, index as int).0;
        let ghost val = wire_prop(t, index as int).1;
        let ghost at = *cursor as int;
        let wire_name = take(bytes, cursor, 32)?;
        proof {
            if ok {
                assert(wire_name@ == key + zero_seq(32 - key.len()));
                assert(wire_name@[key.len() as int] == 0);
                assert forall|k: int| 0 <= k < key.len() implies wire_name@[k] != 0 by {
                    assert(wire_name@[k] == key[k]);
                }
            }
        }
        let terminator = match first_zero(wire_name) {
            Some(t) => t,
            None => return Err(FlatDtError::InvalidPropertyName),
        };
        let name = &wire_name[0..terminator];
        proof {
            if ok {
                assert(terminator == key.len());
                assert(name@ =~= key);
            }
        }
        check_property_name(name)?;
        proof {
            if ok {
                assert(wire_name@.subrange(terminator as int, 32) =~= zero_seq(32 - key.len()));
            }
        }
        if !all_zero(&wire_name[terminator..32]) {
            return Err(FlatDtError::InvalidPropertyName);
        }
        proof {
            if ok {
                assert forall|k: int| 0 <= k < property_names@.len() implies property_names@[k]@
                    != name@ by {
                    assert(property_names@[k]@ == wire_prop(t, k).0);
                    if k > 0 {
                        assert(t.properties@[k - 1].name@ != t.properties@[index - 1].name@);
                        lemma_str_bytes_injective(t.properties@[k - 1].name, t.properties@[index - 1].name);
                    }
                }
            }
        }
        if contains_name(&property_names, name) {
            return Err(FlatDtError::DuplicateProperty);
        }
        let ghost names_before = property_names@;
        property_names.push(name);
        proof {
            let tail = wire_name@.subrange(terminator as int, 32);
            assert forall|k: int| 0 <= k < 32 implies wire_name@[k] == (name@ + zero_seq(32 - name@.len()))[k] by {
                if k >= terminator {
                    assert(tail[k - terminator] == 0);
                }
            }
            assert(wire_name@ =~= name@ + zero_seq(32 - name@.len()));
        }
        let size = take_u32(bytes, cursor)? as usize;
        proof {
            lemma_word_bytes(bytes@, at + 32);
        }
        let psize = property_size(size)?;
        budget.add_bytes(psize)?;
        let value = take(bytes, cursor, size)?;
        if is_name_key(name) {
            if value.len() == 0 || value[value.len() - 1] != 0 {
                return Err(FlatDtError::InvalidNameProperty);
            }
            let value_name = &value[0..value.len() - 1];
            proof {
                if ok {
                    assert(value_name@ =~= str_bytes(t.name));
                }
            }
            check_node_name(value_name, depth)?;
            node_name = Some(value_name);
        }
        let padding = take(bytes, cursor, (4 - size % 4) % 4)?;
        if !all_zero(padding) {
            return Err(FlatDtError::InvalidPadding);
        }
        proof {
            let p = (name@, value@);
            let end = *cursor as int;
            assert(padding@ =~= zero_seq(pad_len(size as int)));
            lemma_split(bytes@, at, at + 32, end);
            lemma_split(bytes@, at + 32, at + 36, end);
            lemma_split(bytes@, at + 36, at + 36 + size, end);
            assert(bytes@.subrange(at, end) =~= wire_property(name@, value@));
            lemma_split(bytes@, c0 + 8, at, end);
            assert(ps.push(p).drop_last() =~= ps);
            let old_ps = ps;
            ps = ps.push(p);
            assert(wire_props_of(ps) == wire_props_of(old_ps) + wire_property(name@, value@));
            if name@ == name_key() {
                name_at = index as int;
                assert(value@ =~= node_name->0@.push(0u8));
            }
            assert forall|i: int, j: int| 0 <= i < j < index + 1 implies #[trigger] ps[i].0 != #[trigger] ps[j].0 by {
                if j == index {
                    assert(ps[i].0 == names_before[i]@);
                }
            }
        }
        proof {
            if ok {
                assert forall|k: int| 0 <= k <= index implies #[trigger] property_names@[k]@ == wire_prop(
                    t,
                    k,
                ).0 by {
                    if k < index {
                        assert(property_names@[k] == names_before[k]);
                    }
                }
            }
        }
        index = index + 1;
    }
    let node_name = match node_name {
        Some(n) => n,
        None => return Err(FlatDtError::InvalidNameProperty),
    };
    let ghost cs = t.children@;
    proof {
        if ok {
            assert(cs.subrange(0, 0) =~= Seq::<FlatNode>::empty());
        }
    }
    let mut child_names: Vec<&[u8]> = Vec::new();
    let ghost mut ws: Seq<WireNode> = Seq::empty();
    let ghost cstart = *cursor as int;
    proof {
        assert(bytes@.subrange(cstart, cstart) =~= wire_children_of(Seq::empty()));
    }
    let mut index: usize = 0;
    while index < children
        invariant
            index <= children <= MAX_CHILDREN_PER_NODE,
            *cursor <= bytes@.len(),
            depth <= MAX_DEPTH,
            budget.nodes >= old(budget).nodes + 1,
            budget.nodes <= MAX_NODES,
            budget.properties >= old(budget).properties,
            budget.bytes >= old(budget).bytes,
            b0 == *old(budget),
            c0 == *old(cursor),
            ok == (model is Some && fits_at(bytes@, c0, t, depth as int, b0)),
            model is Some ==> model == Some(t),
            cs == t.children@,
            child_names@.len() == index,
            c0 + 8 <= cstart <= *cursor,
            ws.len() == index,
            bytes@.subrange(cstart, *cursor as int) == wire_children_of(ws),
            forall|k: int| 0 <= k < index ==> wire_tree_ok(#[trigger] ws[k], depth + 1),
            forall|k: int| 0 <= k < index ==> #[trigger] child_names@[k]@ == wire_name(ws[k]),
            forall|i: int, j: int| 0 <= i < j < index ==> #[trigger] child_names@[i]@ != #[trigger] child_names@[j]@,
            ok ==> {
                &&& fits_at(bytes@, c0, t, depth as int, b0)
                &&& properties == t.properties@.len() + 1
                &&& children == cs.len()
                &&& node_name@ == str_bytes(t.name)
                &&& *cursor == c0 + child_offset(t, index as int)
                &&& budget.nodes == b0.nodes + 1 + nodes_in(cs.subrange(0, index as int))
                &&& budget.properties == b0.properties + properties + properties_in(
                    cs.subrange(0, index as int),
                )
                &&& budget.bytes == b0.bytes + child_offset(t, index as int)
                &&& forall|k: int| 0 <= k < index ==> #[trigger] child_names@[k]@ == str_bytes(cs[k].name)
            },
        decreases children - index,
    {
        let ghost child = cs[index as int];
        proof {
            if ok {
                let j = index as int;
                lemma_child_bytes(t, j);
                lemma_node_end(t);
                lemma_children_prefix(cs, j + 1);
                assert(cs.subrange(0, j + 1).subrange(0, j) =~= cs.subrange(0, j));
                assert(cs.subrange(0, j + 1)[j] == child);
                lemma_window(bytes@, c0, wire_node(t), child_offset(t, j), child_offset(t, j + 1));
                assert(tree_ok(child, depth + 1));
                assert(fits_at(bytes@, *cursor as int, child, depth + 1, *budget));
            }
        }
        let ghost before_child = *cursor as int;
        let (name, gw) = read_node(bytes, cursor, depth + 1, budget, Ghost(Some(child)))?;
        proof {
            if ok {
                assert forall|k: int| 0 <= k < child_names@.len() implies child_names@[k]@ != name@ by {
                    assert(child_names@[k]@ == str_bytes(cs[k].name));
                    assert(cs[k].name@ != cs[index as int].name@);
                    lemma_str_bytes_injective(cs[k].name, cs[index as int].name);
                }
            }
        }
        if contains_name(&child_names, name) {
            return Err(FlatDtError::DuplicateChild);
        }
        let ghost names_before = child_names@;
        child_names.push(name);
        proof {
            let old_ws = ws;
            ws = ws.push(gw@);
            assert(ws.subrange(0, ws.len() - 1) =~= old_ws);
            lemma_split(bytes@, cstart, before_child, *cursor as int);
            assert(wire_children_of(ws) == wire_children_of(old_ws) + wire_of(gw@));
            assert forall|k: int| 0 <= k < index + 1 implies #[trigger] child_names@[k]@ == wire_name(ws[k]) by {
                if k < index {
                    assert(child_names@[k] == names_before[k]);
                }
            }
            assert forall|i: int, j: int| 0 <= i < j < index + 1 implies #[trigger] child_names@[i]@ != #[trigger] child_names@[j]@ by {
                if j == index {
                    assert(child_names@[i] == names_before[i]);
                } else {
                    assert(child_names@[i] == names_before[i] && child_names@[j] == names_before[j]);
                }
            }
        }
        proof {
            if ok {
                assert forall|k: int| 0 <= k <= index implies #[trigger] child_names@[k]@ == str_bytes(
                    cs[k].name,
                ) by {
                    if k < index {
                        assert(child_names@[k] == names_before[k]);
                    }
                }
            }
        }
        index = index + 1;
    }
    proof {
        if ok {
            assert(cs.subrange(0, cs.len() as int) =~= cs);
        }
    }
    let ghost w = WireNode { properties: ps, children: ws };
    proof {
        lemma_split(bytes@, c0, c0 + 8, *cursor as int);
        lemma_split(bytes@, c0 + 8, cstart, *cursor as int);
        assert(bytes@.subrange(c0, *cursor as int) =~= wire_of(w));
        assert forall|i: int, j: int| 0 <= i < j < ws.len() implies wire_name(#[trigger] ws[i]) != wire_name(#[trigger] ws[j]) by {
            assert(child_names@[i]@ != child_names@[j]@);
        }
        let i = choose|i: int| 0 <= i < w.properties.len() && w.properties[i].0 == name_key();
        if i != name_at {
            if i < name_at {
                assert(ps[i].0 != ps[name_at].0);
            } else {
                assert(ps[name_at].0 != ps[i].0);
            }
        }
        assert(node_name@.push(0u8).drop_last() =~= node_name@);
        assert(wire_name(w) == node_name@);
        assert(wire_tree_ok(w, depth as int));
    }
    Ok((node_name, Ghost(w)))
}

} // verus!

//! Materialize explicit provider values into a checked runtime DeviceTree.
//! No expression interpreter, platform defaults, allocator or execution right.
use vstd::prelude::*;
use vstd::string::StringSliceAdditionalSpecFns;

use sha2::{Digest, Sha256};

use crate::bytes::{push_slice, push_u32, push_zeros, u32_bytes};
use crate::firmware_dt::{
    self, FirmwareDeviceTree, FirmwareDtError, FirmwareNode, FirmwareProperty, PropertyKind,
};
use crate::flat_dt::{self, zero_seq, pad_len, FlatDtError};

verus! {

pub const MAX_OUTPUT_BYTES: usize = 1048576;

pub const MAX_BINDINGS: usize = 4096;

#[derive(Clone, Copy, Debug, PartialEq, Eq)]
pub struct PropertyId {
    pub source_sha256: [u8; 32],
    pub property_offset: usize,
}

/// Caller-supplied bytes and provenance label. A label is not authentication.
pub struct ProvidedValue<'a> {
    pub property: PropertyId,
    pub provider: &'a str,
    pub value: &'a [u8],
}

#[derive(Debug, PartialEq, Eq)]
pub enum Error {
    Firmware(FirmwareDtError),
    Runtime(FlatDtError),
    Limits,
    Allocation,
    SourceIdentity,
    StructuralTemplate,
    InvalidProvider,
    DuplicateBinding,
    UnknownBinding,
    MissingProviders(Vec<PropertyId>),
    ArithmeticOverflow,
    InvalidRam,
    InvalidReservation,
    DestinationCapacity,
}

/// The SHA-256 digest of a byte string, as `sha2` computes it.
pub uninterp spec fn sha256(data: Seq<u8>) -> Seq<u8>;

/// `sha2::Sha256::digest`: the digest is a function of the input bytes alone.
#[verifier::external_body]
fn sha256_digest(data: &[u8]) -> (r: [u8; 32])
    ensures
        r@ == sha256(data@),
{
    Sha256::digest(data).into()
}

pub fn source_identity(source: &[u8]) -> (r: [u8; 32])
    ensures
        r@ == sha256(source@),
{
    sha256_digest(source)
}

/// The offsets of the template properties of a sequence, in order.
pub open spec fn template_offsets(ps: Seq<FirmwareProperty>) -> Seq<usize>
    decreases ps.len(),
{
    if ps.len() == 0 {
        seq![]
    } else {
        let rest = template_offsets(ps.drop_last());
        if ps.last().spec_kind() == PropertyKind::Template {
            rest.push(ps.last().spec_offset())
        } else {
            rest
        }
    }
}

/// Template offsets of a subtree in document order: a node's own properties,
/// then each child subtree.
pub open spec fn tree_templates(n: FirmwareNode) -> Seq<usize>
    decreases n, n.spec_children().len() + 1,
{
    template_offsets(n.spec_properties()) + children_templates(n, n.spec_children().len() as int)
}

pub open spec fn children_templates(n: FirmwareNode, k: int) -> Seq<usize>
    decreases n, k,
{
    if k <= 0 || k > n.spec_children().len() {
        seq![]
    } else {
        proof {
            n.lemma_child_smaller(k - 1);
        }
        children_templates(n, k - 1) + tree_templates(n.spec_children()[k - 1])
    }
}

/// The first binding, in order, that names the property at `offset`.
pub open spec fn find_binding(ps: Seq<ProvidedValue>, offset: usize) -> Option<ProvidedValue>
    decreases ps.len(),
{
    if ps.len() == 0 {
        None
    } else if ps[0].property.property_offset == offset {
        Some(ps[0])
    } else {
        find_binding(ps.drop_first(), offset)
    }
}

/// Every template of the subtree has a binding whose value fits the wire.
pub open spec fn covered(n: FirmwareNode, provided: Seq<ProvidedValue>) -> bool
    decreases n, n.spec_children().len() + 1,
{
    &&& forall|i: int|
        0 <= i < n.spec_properties().len() && (#[trigger] n.spec_properties()[i]).spec_kind()
            == PropertyKind::Template ==> {
            &&& find_binding(provided, n.spec_properties()[i].spec_offset()) is Some
            &&& find_binding(provided, n.spec_properties()[i].spec_offset())->0.value@.len()
                < firmware_dt::TEMPLATE_FLAG
        }
    &&& children_covered(n, provided, n.spec_children().len() as int)
}

pub open spec fn children_covered(n: FirmwareNode, provided: Seq<ProvidedValue>, k: int) -> bool
    decreases n, k,
{
    if k <= 0 || k > n.spec_children().len() {
        true
    } else {
        proof {
            n.lemma_child_smaller(k - 1);
        }
        children_covered(n, provided, k - 1) && covered(n.spec_children()[k - 1], provided)
    }
}

/// One property of the materialized tree: literals keep their wire bytes and
/// templates carry their bound value as a literal with canonical padding.
pub open spec fn materialized_property(p: FirmwareProperty, provided: Seq<ProvidedValue>) -> Seq<u8> {
    if p.spec_kind() == PropertyKind::Literal {
        p.spec_raw_name()@ + u32_bytes(p.spec_raw_length()) + p.spec_value()@ + p.spec_padding()@
    } else {
        let v = find_binding(provided, p.spec_offset())->0.value@;
        p.spec_raw_name()@ + u32_bytes(v.len() as u32) + v + zero_seq(pad_len(v.len() as int))
    }
}

pub open spec fn materialized_properties(ps: Seq<FirmwareProperty>, provided: Seq<ProvidedValue>) -> Seq<u8>
    decreases ps.len(),
{
    if ps.len() == 0 {
        seq![]
    } else {
        materialized_properties(ps.drop_last(), provided) + materialized_property(ps.last(), provided)
    }
}

/// The materialized subtree: counts, properties in order, then children.
pub open spec fn materialized(n: FirmwareNode, provided: Seq<ProvidedValue>) -> Seq<u8>
    decreases n, n.spec_children().len() + 1,
{
    u32_bytes(n.spec_properties().len() as u32) + u32_bytes(n.spec_children().len() as u32)
        + materialized_properties(n.spec_properties(), provided) + materialized_children(
        n,
        provided,
        n.spec_children().len() as int,
    )
}

pub open spec fn materialized_children(n: FirmwareNode, provided: Seq<ProvidedValue>, k: int) -> Seq<u8>
    decreases n, k,
{
    if k <= 0 || k > n.spec_children().len() {
        seq![]
    } else {
        proof {
            n.lemma_child_smaller(k - 1);
        }
        materialized_children(n, provided, k - 1) + materialized(n.spec_children()[k - 1], provided)
    }
}

fn is_name_str(s: &str) -> (r: bool)
    ensures
        r == (s.spec_bytes() == flat_dt::name_key()),
{
    let b = s.as_bytes();
    if b.len() == 4 && b[0] == 110 && b[1] == 97 && b[2] == 109 && b[3] == 101 {
        assert(b@ =~= flat_dt::name_key());
        true
    } else {
        false
    }
}

fn digest_eq(a: &[u8; 32], b: &[u8; 32]) -> (r: bool)
    ensures
        r == (a@ == b@),
{
    let mut i: usize = 0;
    while i < 32
        invariant
            i <= 32,
            a@.len() == 32,
            b@.len() == 32,
            forall|k: int| 0 <= k < i ==> a@[k] == b@[k],
        decreases 32 - i,
    {
        if a[i] != b[i] {
            return false;
        }
        i = i + 1;
    }
    assert(a@ =~= b@);
    true
}

fn same_id(a: &PropertyId, b: &PropertyId) -> (r: bool)
    ensures
        r == (a.source_sha256@ == b.source_sha256@ && a.property_offset == b.property_offset),
{
    a.property_offset == b.property_offset && digest_eq(&a.source_sha256, &b.source_sha256)
}

fn collect_templates(node: &FirmwareNode<'_>, digest: [u8; 32], ids: &mut Vec<PropertyId>) -> (r:
    Result<(), Error>)
    requires
        old(ids)@.len() <= MAX_BINDINGS,
    ensures
        final(ids)@.len() <= MAX_BINDINGS,
        r is Ok ==> final(ids)@.len() == old(ids)@.len() + tree_templates(*node).len(),
        r is Ok ==> forall|i: int|
            0 <= i < tree_templates(*node).len() ==> (#[trigger] final(ids)@[old(ids)@.len() + i])
                == (PropertyId { source_sha256: digest, property_offset: tree_templates(*node)[i] }),
        r is Ok ==> forall|i: int|
            0 <= i < old(ids)@.len() ==> #[trigger] final(ids)@[i] == old(ids)@[i],
        r matches Err(e) ==> e == Error::StructuralTemplate || e == Error::Limits || e
            == Error::Allocation,
    decreases node, node.spec_children().len() + 1,
{
    let properties = node.properties();
    let mut index: usize = 0;
    while index < properties.len()
        invariant
            index <= properties@.len(),
            properties@ == node.spec_properties(),
            ids@.len() <= MAX_BINDINGS,
            ids@.len() == old(ids)@.len() + template_offsets(properties@.subrange(0, index as int)).len(),
            forall|i: int| 0 <= i < old(ids)@.len() ==> #[trigger] ids@[i] == old(ids)@[i],
            forall|i: int|
                0 <= i < template_offsets(properties@.subrange(0, index as int)).len() ==> (
                #[trigger] ids@[old(ids)@.len() + i]) == (PropertyId {
                    source_sha256: digest,
                    property_offset: template_offsets(properties@.subrange(0, index as int))[i],
                }),
        decreases properties@.len() - index,
    {
        let property = &properties[index];
        proof {
            let ps = properties@.subrange(0, index + 1);
            assert(ps.drop_last() =~= properties@.subrange(0, index as int));
        }
        if property.kind() == PropertyKind::Template {
            if is_name_str(property.name()) {
                return Err(Error::StructuralTemplate);
            }
            if ids.len() == MAX_BINDINGS {
                return Err(Error::Limits);
            }
            if ids.try_reserve(1).is_err() {
                return Err(Error::Allocation);
            }
            ids.push(PropertyId { source_sha256: digest, property_offset: property.offset() });
        }
        index = index + 1;
    }
    assert(properties@.subrange(0, properties@.len() as int) =~= properties@);
    let ghost mid = ids@;
    let ghost a = template_offsets(node.spec_properties());
    let children = node.children();
    let mut index: usize = 0;
    while index < children.len()
        invariant
            index <= children@.len(),
            children@ == node.spec_children(),
            ids@.len() <= MAX_BINDINGS,
            mid.len() == old(ids)@.len() + template_offsets(node.spec_properties()).len(),
            a == template_offsets(node.spec_properties()),
            forall|i: int| 0 <= i < old(ids)@.len() ==> #[trigger] mid[i] == old(ids)@[i],
            forall|i: int|
                0 <= i < a.len() ==> (#[trigger] mid[old(ids)@.len() + i]) == (PropertyId {
                    source_sha256: digest,
                    property_offset: a[i],
                }),
            forall|i: int| 0 <= i < mid.len() ==> #[trigger] ids@[i] == mid[i],
            ids@.len() == mid.len() + children_templates(*node, index as int).len(),
            forall|i: int|
                0 <= i < children_templates(*node, index as int).len() ==> (#[trigger] ids@[mid.len()
                    + i]) == (PropertyId {
                    source_sha256: digest,
                    property_offset: children_templates(*node, index as int)[i],
                }),
        decreases children@.len() - index,
    {
        proof {
            node.lemma_child_smaller(index as int);
        }
        let ghost before = ids@;
        collect_templates(&children[index], digest, ids)?;
        proof {
            let a = children_templates(*node, index as int);
            let b = tree_templates(children@[index as int]);
            assert(children_templates(*node, index + 1) =~= a + b);
            assert forall|i: int| 0 <= i < (a + b).len() implies (#[trigger] ids@[mid.len() + i])
                == (PropertyId { source_sha256: digest, property_offset: (a + b)[i] }) by {
                if i < a.len() {
                    assert(ids@[mid.len() + i] == before[mid.len() + i]);
                } else {
                    assert(ids@[before.len() + (i - a.len())] == ids@[mid.len() + i]);
                }
            }
            assert forall|i: int| 0 <= i < mid.len() implies #[trigger] ids@[i] == mid[i] by {
                assert(ids@[i] == before[i]);
            }
        }
        index = index + 1;
    }
    proof {
        let t = tree_templates(*node);
        let b = children_templates(*node, children@.len() as int);
        assert(t =~= a + b);
        assert forall|i: int| 0 <= i < t.len() implies (#[trigger] ids@[old(ids)@.len() + i])
            == (PropertyId { source_sha256: digest, property_offset: t[i] }) by {
            if i < a.len() {
                assert(ids@[old(ids)@.len() + i] == mid[old(ids)@.len() + i]);
            } else {
                assert(ids@[mid.len() + (i - a.len())] == ids@[old(ids)@.len() + i]);
            }
        }
        assert forall|i: int| 0 <= i < old(ids)@.len() implies #[trigger] ids@[i] == old(ids)@[i] by {
            assert(ids@[i] == mid[i]);
        }
    }
    Ok(())
}

/// Stable within the exact source digest; no template expression is returned.
pub fn template_ids(source: &[u8]) -> (r: Result<Vec<PropertyId>, Error>)
    ensures
        r matches Ok(ids) ==> ids@.len() <= MAX_BINDINGS,
        r matches Ok(ids) ==> firmware_dt::whole_tree(source@) && forall|i: int|
            0 <= i < ids@.len() ==> (#[trigger] ids@[i]).source_sha256@ == sha256(source@),
        source@.len() > firmware_dt::MAX_INPUT_BYTES ==> r == Err::<Vec<PropertyId>, Error>(
            Error::Firmware(FirmwareDtError::InputTooLarge),
        ),
{
    let tree = match FirmwareDeviceTree::parse(source) {
        Ok(t) => t,
        Err(e) => return Err(Error::Firmware(e)),
    };
    let mut ids = Vec::new();
    let digest = source_identity(source);
    collect_templates(tree.root(), digest, &mut ids)?;
    assert forall|i: int| 0 <= i < ids@.len() implies (#[trigger] ids@[i]).source_sha256@ == sha256(source@) by {
        assert(ids@[0 + i] == ids@[i]);
    }
    Ok(ids)
}

pub open spec fn padded_len(n: int) -> int {
    n + pad_len(n)
}

/// Checked wire measurement without allocating the corresponding payload.
pub fn property_wire_bytes(value_length: u64) -> (r: Result<u64, Error>)
    ensures
        value_length + 3 > u64::MAX ==> r == Err::<u64, Error>(Error::ArithmeticOverflow),
        value_length + 3 <= u64::MAX && padded_len(value_length as int) + 36 > u64::MAX ==> r
            == Err::<u64, Error>(Error::ArithmeticOverflow),
        padded_len(value_length as int) + 36 <= u64::MAX && value_length
            >= firmware_dt::TEMPLATE_FLAG ==> r == Err::<u64, Error>(Error::Limits),
        value_length < firmware_dt::TEMPLATE_FLAG ==> r == Ok::<u64, Error>(
            (36 + padded_len(value_length as int)) as u64,
        ),
{
    let padded = match value_length.checked_add(3) {
        Some(v) => v - v % 4,
        None => return Err(Error::ArithmeticOverflow),
    };
    assert(padded == padded_len(value_length as int));
    let total = match padded.checked_add(36) {
        Some(v) => v,
        None => return Err(Error::ArithmeticOverflow),
    };
    if value_length >= firmware_dt::TEMPLATE_FLAG as u64 {
        return Err(Error::Limits);
    }
    Ok(total)
}

fn replacement<'a, 'b>(offset: usize, provided: &'a [ProvidedValue<'b>]) -> (r: Option<
    &'a ProvidedValue<'b>,
>)
    ensures
        r matches Some(p) ==> find_binding(provided@, offset) == Some(*p),
        r is None ==> find_binding(provided@, offset) is None,
{
    let mut i: usize = 0;
    assert(provided@.subrange(0, provided@.len() as int) =~= provided@);
    while i < provided.len()
        invariant
            i <= provided@.len(),
            find_binding(provided@, offset) == find_binding(provided@.subrange(i as int, provided@.len() as int), offset),
        decreases provided@.len() - i,
    {
        proof {
            let rest = provided@.subrange(i as int, provided@.len() as int);
            assert(rest.drop_first() =~= provided@.subrange(i + 1, provided@.len() as int));
        }
        if provided[i].property.property_offset == offset {
            return Some(&provided[i]);
        }
        i = i + 1;
    }
    None
}

fn measure(node: &FirmwareNode<'_>, provided: &[ProvidedValue<'_>], total: &mut u64) -> (r: Result<
    (),
    Error,
>)
    requires
        node.wf(),
    ensures
        r is Ok ==> covered(*node, provided@),
        r is Ok ==> *final(total) == *old(total) + materialized(*node, provided@).len(),
        r matches Err(e) ==> e == Error::UnknownBinding || e == Error::ArithmeticOverflow || e
            == Error::Limits,
    decreases node, node.spec_children().len() + 1,
{
    proof {
        node.lemma_wf_parts();
    }
    *total = match total.checked_add(8) {
        Some(v) => v,
        None => return Err(Error::ArithmeticOverflow),
    };
    let properties = node.properties();
    let mut index: usize = 0;
    while index < properties.len()
        invariant
            index <= properties@.len(),
            properties@ == node.spec_properties(),
            forall|i: int| 0 <= i < properties@.len() ==> (#[trigger] properties@[i]).wf(),
            *total == *old(total) + 8 + materialized_properties(properties@.subrange(0, index as int), provided@).len(),
            forall|i: int|
                0 <= i < index && (#[trigger] properties@[i]).spec_kind() == PropertyKind::Template
                    ==> {
                    &&& find_binding(provided@, properties@[i].spec_offset()) is Some
                    &&& find_binding(provided@, properties@[i].spec_offset())->0.value@.len()
                        < firmware_dt::TEMPLATE_FLAG
                },
        decreases properties@.len() - index,
    {
        let property = &properties[index];
        proof {
            property.lemma_wf_lengths();
            let ps = properties@.subrange(0, index + 1);
            assert(ps.drop_last() =~= properties@.subrange(0, index as int));
            crate::bytes::lemma_u32_bytes(property.spec_raw_length());
        }
        let length = match property.kind() {
            PropertyKind::Literal => property.value().len(),
            PropertyKind::Template => match replacement(property.offset(), provided) {
                Some(p) => p.value.len(),
                None => return Err(Error::UnknownBinding),
            },
        };
        let wire = property_wire_bytes(length as u64)?;
        proof {
            crate::bytes::lemma_u32_bytes(length as u32);
        }
        *total = match total.checked_add(wire) {
            Some(v) => v,
            None => return Err(Error::ArithmeticOverflow),
        };
        index = index + 1;
    }
    assert(properties@.subrange(0, properties@.len() as int) =~= properties@);
    let ghost mid = *total;
    let children = node.children();
    let mut index: usize = 0;
    while index < children.len()
        invariant
            index <= children@.len(),
            children@ == node.spec_children(),
            forall|i: int| 0 <= i < children@.len() ==> (#[trigger] children@[i]).wf(),
            *total == mid + materialized_children(*node, provided@, index as int).len(),
            children_covered(*node, provided@, index as int),
        decreases children@.len() - index,
    {
        proof {
            node.lemma_child_smaller(index as int);
        }
        measure(&children[index], provided, total)?;
        index = index + 1;
    }
    Ok(())
}

fn write(node: &FirmwareNode<'_>, provided: &[ProvidedValue<'_>], output: &mut Vec<u8>)
    requires
        node.wf(),
        covered(*node, provided@),
    ensures
        final(output)@ == old(output)@ + materialized(*node, provided@),
    decreases node, node.spec_children().len() + 1,
{
    proof {
        node.lemma_wf_parts();
    }
    let properties = node.properties();
    let children = node.children();
    push_u32(output, properties.len() as u32);
    push_u32(output, children.len() as u32);
    let ghost start = output@;
    let mut index: usize = 0;
    while index < properties.len()
        invariant
            index <= properties@.len(),
            properties@ == node.spec_properties(),
            forall|i: int| 0 <= i < properties@.len() ==> (#[trigger] properties@[i]).wf(),
            covered(*node, provided@),
            output@ == start + materialized_properties(properties@.subrange(0, index as int), provided@),
        decreases properties@.len() - index,
    {
        let property = &properties[index];
        proof {
            property.lemma_wf_lengths();
            let ps = properties@.subrange(0, index + 1);
            assert(ps.drop_last() =~= properties@.subrange(0, index as int));
        }
        push_slice(output, property.raw_name().as_slice());
        if property.kind() == PropertyKind::Literal {
            push_u32(output, property.raw_length());
            push_slice(output, property.value());
            push_slice(output, property.padding());
        } else {
            // Every binding was checked before the buffer was allocated.
            let value = match replacement(property.offset(), provided) {
                Some(p) => p.value,
                None => {
                    assert(false);
                    &[]
                },
            };
            push_u32(output, value.len() as u32);
            push_slice(output, value);
            push_zeros(output, (4 - value.len() % 4) % 4);
        }
        proof {
            assert(output@ =~= start + materialized_properties(properties@.subrange(0, index + 1), provided@));
        }
        index = index + 1;
    }
    assert(properties@.subrange(0, properties@.len() as int) =~= properties@);
    let ghost mid = output@;
    let mut index: usize = 0;
    while index < children.len()
        invariant
            index <= children@.len(),
            children@ == node.spec_children(),
            forall|i: int| 0 <= i < children@.len() ==> (#[trigger] children@[i]).wf(),
            children_covered(*node, provided@, children@.len() as int),
            output@ == mid + materialized_children(*node, provided@, index as int),
        decreases children@.len() - index,
    {
        proof {
            node.lemma_child_smaller(index as int);
            lemma_children_covered_prefix(*node, provided@, children@.len() as int, index + 1);
        }
        write(&children[index], provided, output);
        proof {
            assert(output@ =~= mid + materialized_children(*node, provided@, index + 1));
        }
        index = index + 1;
    }
    assert(output@ =~= old(output)@ + materialized(*node, provided@));
}

proof fn lemma_children_covered_prefix(n: FirmwareNode, provided: Seq<ProvidedValue>, k: int, j: int)
    requires
        children_covered(n, provided, k),
        0 < j <= k <= n.spec_children().len(),
    ensures
        covered(n.spec_children()[j - 1], provided),
    decreases k,
{
    if k > j {
        lemma_children_covered_prefix(n, provided, k - 1, j);
    }
}

#[derive(Debug)]
pub struct AppliedBinding {
    pub property: PropertyId,
    pub provider: String,
    pub value_sha256: [u8; 32],
    pub value_bytes: usize,
}

#[derive(Debug)]
pub struct MaterializedTree<'a> {
    source: &'a [u8],
    bytes: Vec<u8>,
    source_sha256: [u8; 32],
    replacement_count: usize,
    bindings: Vec<AppliedBinding>,
}

impl MaterializedTree<'_> {
    pub closed spec fn spec_bytes(&self) -> Seq<u8> {
        self.bytes@
    }

    pub closed spec fn spec_source(&self) -> Seq<u8> {
        self.source@
    }

    pub closed spec fn spec_source_sha256(&self) -> Seq<u8> {
        self.source_sha256@
    }

    pub closed spec fn spec_replacement_count(&self) -> usize {
        self.replacement_count
    }

    pub closed spec fn spec_bindings(&self) -> Seq<AppliedBinding> {
        self.bindings@
    }

    pub fn bytes(&self) -> (r: &[u8])
        ensures
            r@ == self.spec_bytes(),
    {
        self.bytes.as_slice()
    }

    pub fn source(&self) -> (r: &[u8])
        ensures
            r@ == self.spec_source(),
    {
        self.source
    }

    pub fn source_sha256(&self) -> (r: [u8; 32])
        ensures
            r@ == self.spec_source_sha256(),
    {
        self.source_sha256
    }

    pub fn replacement_count(&self) -> (r: usize)
        ensures
            r == self.spec_replacement_count(),
    {
        self.replacement_count
    }

    pub fn bindings(&self) -> (r: &[AppliedBinding])
        ensures
            r@ == self.spec_bindings(),
    {
        self.bindings.as_slice()
    }

    /// A full preflight precedes the sole copy. The reservation is a caller
    /// assertion; this method does not establish allocator ownership or MMU state.
    pub fn write_reserved(&self, ram: &mut [u8], base: u64, reservation: DeclaredReservation) -> (r:
        Result<(), Error>)
        ensures
            r is Err ==> final(ram)@ == old(ram)@,
            r is Ok ==> {
                let offset = reservation.address - base;
                &&& reservation_ok(old(ram)@.len() as int, base as int, reservation)
                &&& self.spec_bytes().len() <= reservation.capacity
                &&& offset + self.spec_bytes().len() <= old(ram)@.len()
                &&& final(ram)@ == old(ram)@.subrange(0, offset) + self.spec_bytes() + old(
                    ram,
                )@.subrange(offset + self.spec_bytes().len(), old(ram)@.len() as int)
            },
            !reservation_ok(old(ram)@.len() as int, base as int, reservation) ==> r is Err,
            reservation_ok(old(ram)@.len() as int, base as int, reservation) && self.spec_bytes().len()
                <= reservation.capacity ==> r is Ok,
            old(ram)@.len() == 0 ==> r == Err::<(), Error>(Error::InvalidRam),
            old(ram)@.len() > 0 && base + old(ram)@.len() > u64::MAX ==> r == Err::<(), Error>(Error::ArithmeticOverflow),
            old(ram)@.len() > 0 && base + old(ram)@.len() <= u64::MAX && reservation.address + reservation.capacity
                > u64::MAX ==> r == Err::<(), Error>(Error::ArithmeticOverflow),
            old(ram)@.len() > 0 && base + old(ram)@.len() <= u64::MAX && reservation.address + reservation.capacity
                <= u64::MAX && !reservation_ok(old(ram)@.len() as int, base as int, reservation) ==> r == Err::<(), Error>(
                Error::InvalidReservation,
            ),
            reservation_ok(old(ram)@.len() as int, base as int, reservation) && self.spec_bytes().len()
                > reservation.capacity ==> r == Err::<(), Error>(Error::DestinationCapacity),
    {
        let observed = RamExtent::from_backing(base, ram)?;
        let end = match reservation.address.checked_add(reservation.capacity) {
            Some(e) => e,
            None => return Err(Error::ArithmeticOverflow),
        };
        if reservation.capacity == 0 || reservation.address % 4 != 0 || reservation.address
            < observed.base || end > observed.end() {
            return Err(Error::InvalidReservation);
        }
        if self.bytes.len() as u64 > reservation.capacity {
            return Err(Error::DestinationCapacity);
        }
        let _n = ram.len();
        let offset = (reservation.address - base) as usize;
        let output_end = match offset.checked_add(self.bytes.len()) {
            Some(e) => e,
            None => return Err(Error::ArithmeticOverflow),
        };
        if output_end > ram.len() {
            return Err(Error::DestinationCapacity);
        }
        crate::bytes::copy_into(ram, offset, self.bytes.as_slice());
        Ok(())
    }
}

/// The reservation lies inside the declared RAM window, is four-byte aligned
/// and holds at least one byte.
pub open spec fn reservation_ok(ram_len: int, base: int, reservation: DeclaredReservation) -> bool {
    &&& 0 < ram_len
    &&& base + ram_len <= u64::MAX
    &&& reservation.capacity > 0
    &&& reservation.address % 4 == 0
    &&& base <= reservation.address
    &&& reservation.address + reservation.capacity <= base + ram_len
}

fn provider_ok(provider: &str) -> (r: bool)
    ensures
        r == provider_label_ok(provider.spec_bytes()),
{
    let b = provider.as_bytes();
    if b.len() == 0 || b.len() > 64 {
        return false;
    }
    let mut i: usize = 0;
    while i < b.len()
        invariant
            i <= b@.len(),
            0 < b@.len() <= 64,
            b@ == provider.spec_bytes(),
            forall|k: int| 0 <= k < i ==> label_byte(#[trigger] b@[k]),
        decreases b@.len() - i,
    {
        if !label_byte_exec(b[i]) {
            assert(!label_byte(b@[i as int]));
            return false;
        }
        i = i + 1;
    }
    true
}

pub open spec fn label_byte(c: u8) -> bool {
    (0x30 <= c <= 0x39) || (0x41 <= c <= 0x5a) || (0x61 <= c <= 0x7a) || c == 0x2d || c == 0x5f
        || c == 0x2e || c == 0x3a || c == 0x2f
}

/// A provenance label: 1..=64 bytes of ASCII alphanumerics and `-_.:/`.
pub open spec fn provider_label_ok(s: Seq<u8>) -> bool {
    &&& 0 < s.len() <= 64
    &&& forall|k: int| 0 <= k < s.len() ==> label_byte(#[trigger] s[k])
}

fn label_byte_exec(c: u8) -> (r: bool)
    ensures
        r == label_byte(c),
{
    (0x30 <= c && c <= 0x39) || (0x41 <= c && c <= 0x5a) || (0x61 <= c && c <= 0x7a) || c == 0x2d
        || c == 0x5f || c == 0x2e || c == 0x3a || c == 0x2f
}

#[verifier::loop_isolation(false)]
/// Parse the source, bind every template to exactly one provided value, and
/// produce the materialized runtime tree after a complete preflight.
pub fn prepare<'a>(source: &'a [u8], provided: &[ProvidedValue<'_>], maximum_output: usize) -> (r:
    Result<MaterializedTree<'a>, Error>)
    ensures
        (maximum_output == 0 || maximum_output > MAX_OUTPUT_BYTES || provided@.len() > MAX_BINDINGS)
            ==> r == Err::<MaterializedTree<'a>, Error>(Error::Limits),
        r matches Ok(t) ==> {
            &&& t.spec_source() == source@
            &&& t.spec_source_sha256() == sha256(source@)
            &&& t.spec_bytes().len() <= maximum_output
            &&& flat_dt::accepted_wire(t.spec_bytes())
            &&& firmware_dt::whole_tree(source@)
            &&& t.spec_bindings().len() == provided@.len()
            &&& forall|i: int|
                0 <= i < provided@.len() ==> {
                    &&& provided@[i].property.source_sha256@ == sha256(source@)
                    &&& provider_label_ok(provided@[i].provider.spec_bytes())
                    &&& (#[trigger] t.spec_bindings()[i]).property == provided@[i].property
                    &&& t.spec_bindings()[i].provider@ == provided@[i].provider@
                    &&& t.spec_bindings()[i].value_sha256@ == sha256(provided@[i].value@)
                    &&& t.spec_bindings()[i].value_bytes == provided@[i].value@.len()
                }
            &&& forall|i: int, j: int|
                0 <= i < j < provided@.len() ==> (#[trigger] provided@[i]).property
                    != (#[trigger] provided@[j]).property
        },
{
    if maximum_output == 0 || maximum_output > MAX_OUTPUT_BYTES || provided.len() > MAX_BINDINGS {
        return Err(Error::Limits);
    }
    let tree = match FirmwareDeviceTree::parse(source) {
        Ok(t) => t,
        Err(e) => return Err(Error::Firmware(e)),
    };
    let digest = source_identity(source);
    let mut templates: Vec<PropertyId> = Vec::new();
    collect_templates(tree.root(), digest, &mut templates)?;
    let mut index: usize = 0;
    while index < provided.len()
        invariant
            index <= provided@.len(),
            digest@ == sha256(source@),
            forall|i: int|
                0 <= i < index ==> {
                    &&& (#[trigger] provided@[i]).property.source_sha256@ == sha256(source@)
                    &&& provider_label_ok(provided@[i].provider.spec_bytes())
                },
            forall|i: int, j: int|
                0 <= i < j < index ==> (#[trigger] provided@[i]).property
                    != (#[trigger] provided@[j]).property,
        decreases provided@.len() - index,
    {
        let binding = &provided[index];
        if !digest_eq(&binding.property.source_sha256, &digest) {
            return Err(Error::SourceIdentity);
        }
        if !provider_ok(binding.provider) {
            return Err(Error::InvalidProvider);
        }
        let mut k: usize = 0;
        while k < index
            invariant
                k <= index < provided@.len(),
                binding == provided@[index as int],
                forall|i: int| 0 <= i < k ==> (#[trigger] provided@[i]).property != binding.property,
            decreases index - k,
        {
            if same_id(&provided[k].property, &binding.property) {
                return Err(Error::DuplicateBinding);
            }
            proof {
                if provided@[k as int].property == binding.property {
                    assert(provided@[k as int].property.source_sha256@ == binding.property.source_sha256@);
                }
            }
            k = k + 1;
        }
        let mut found = false;
        let mut k: usize = 0;
        while k < templates.len()
            invariant
                k <= templates@.len(),
            decreases templates@.len() - k,
        {
            if same_id(&templates[k], &binding.property) {
                found = true;
            }
            k = k + 1;
        }
        if !found {
            return Err(Error::UnknownBinding);
        }
        index = index + 1;
    }
    let mut missing: Vec<PropertyId> = Vec::new();
    if missing.try_reserve(templates.len()).is_err() {
        return Err(Error::Allocation);
    }
    let mut k: usize = 0;
    while k < templates.len()
        invariant
            k <= templates@.len(),
        decreases templates@.len() - k,
    {
        if replacement(templates[k].property_offset, provided).is_none() {
            missing.push(templates[k]);
        }
        k = k + 1;
    }
    if missing.len() != 0 {
        return Err(Error::MissingProviders(missing));
    }
    let mut length: u64 = 0;
    measure(tree.root(), provided, &mut length)?;
    if length > maximum_output as u64 {
        return Err(Error::Limits);
    }
    let mut bytes: Vec<u8> = Vec::new();
    if bytes.try_reserve(length as usize).is_err() {
        return Err(Error::Allocation);
    }
    write(tree.root(), provided, &mut bytes);
    if let Err(e) = flat_dt::validate(bytes.as_slice()) {
        return Err(Error::Runtime(e));
    }
    let mut bindings: Vec<AppliedBinding> = Vec::new();
    if bindings.try_reserve(provided.len()).is_err() {
        return Err(Error::Allocation);
    }
    let mut index: usize = 0;
    while index < provided.len()
        invariant
            index <= provided@.len(),
            bindings@.len() == index,
            forall|i: int|
                0 <= i < index ==> {
                    &&& (#[trigger] bindings@[i]).property == provided@[i].property
                    &&& bindings@[i].provider@ == provided@[i].provider@
                    &&& bindings@[i].value_sha256@ == sha256(provided@[i].value@)
                    &&& bindings@[i].value_bytes == provided@[i].value@.len()
                },
        decreases provided@.len() - index,
    {
        let binding = &provided[index];
        let provider = binding.provider.to_owned();
        bindings.push(
            AppliedBinding {
                property: binding.property,
                provider,
                value_sha256: source_identity(binding.value),
                value_bytes: binding.value.len(),
            },
        );
        index = index + 1;
    }
    Ok(MaterializedTree {
        source,
        bytes,
        source_sha256: digest,
        replacement_count: templates.len(),
        bindings,
    })
}

/// A caller-declared guest mapping base plus an observed backing byte length.
/// The base is not an observed host PA.
#[derive(Clone, Copy, Debug, PartialEq, Eq)]
pub struct RamExtent {
    base: u64,
    size: u64,
}

impl RamExtent {
    pub closed spec fn spec_base(&self) -> u64 {
        self.base
    }

    pub closed spec fn spec_size(&self) -> u64 {
        self.size
    }

    pub fn from_backing(base: u64, bytes: &[u8]) -> (r: Result<Self, Error>)
        ensures
            bytes@.len() == 0 ==> r == Err::<Self, Error>(Error::InvalidRam),
            bytes@.len() > 0 && base + bytes@.len() > u64::MAX ==> r == Err::<Self, Error>(
                Error::ArithmeticOverflow,
            ),
            bytes@.len() > 0 && base + bytes@.len() <= u64::MAX ==> (r matches Ok(e) && e.spec_base()
                == base && e.spec_size() == bytes@.len()),
    {
        let size = bytes.len() as u64;
        if size == 0 {
            return Err(Error::InvalidRam);
        }
        if base.checked_add(size).is_none() {
            return Err(Error::ArithmeticOverflow);
        }
        Ok(RamExtent { base, size })
    }

    pub fn base(&self) -> (r: u64)
        ensures
            r == self.spec_base(),
    {
        self.base
    }

    pub fn size(&self) -> (r: u64)
        ensures
            r == self.spec_size(),
    {
        self.size
    }

    fn end(&self) -> (r: u64)
        requires
            self.base + self.size <= u64::MAX,
        ensures
            r == self.base + self.size,
    {
        self.base + self.size
    }

    pub fn little_endian_values(&self) -> (r: [[u8; 8]; 2])
        ensures
            r[0]@ == crate::bytes::u64_bytes(self.spec_base()),
            r[1]@ == crate::bytes::u64_bytes(self.spec_size()),
    {
        [crate::bytes::u64_le(self.base), crate::bytes::u64_le(self.size)]
    }
}

#[derive(Clone, Copy, Debug)]
pub struct DeclaredReservation {
    pub address: u64,
    pub capacity: u64,
}

/// Atomic with respect to all returned errors; neither input nor destination is
/// changed until the complete output and reservation have passed validation.
pub fn materialize_into(
    source: &[u8],
    provided: &[ProvidedValue<'_>],
    maximum_output: usize,
    ram: &mut [u8],
    base: u64,
    reservation: DeclaredReservation,
) -> (r: Result<usize, Error>)
    ensures
        r is Err ==> final(ram)@ == old(ram)@,
        r is Ok ==> reservation_ok(old(ram)@.len() as int, base as int, reservation),
        r matches Ok(n) ==> n <= maximum_output && final(ram)@.len() == old(ram)@.len(),
        r matches Ok(n) ==> n <= reservation.capacity && final(ram)@.subrange(0, reservation.address - base)
            == old(ram)@.subrange(0, reservation.address - base) && final(ram)@.subrange(
            reservation.address - base + n,
            old(ram)@.len() as int,
        ) == old(ram)@.subrange(reservation.address - base + n, old(ram)@.len() as int),
{
    let tree = prepare(source, provided, maximum_output)?;
    tree.write_reserved(ram, base, reservation)?;
    Ok(tree.bytes().len())
}

} // verus!

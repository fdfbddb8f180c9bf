//! Borrowed structural view of firmware device-tree properties and templates.
//!
//! This is separate from the XNU runtime format validated by `flat_dt`.
//! Template expressions remain opaque; no provider values are evaluated here.
use vstd::prelude::*;
use vstd::string::StringSliceAdditionalSpecFns;
use vstd::utf8::valid_utf8;

use crate::bytes::{le_u32, read_u32, utf8_str};
use crate::flat_dt::{self, printable, FlatDtError};

verus! {

pub const TEMPLATE_FLAG: u32 = 0x8000_0000;

pub const MAX_INPUT_BYTES: usize = 1048576;

pub const MAX_NODES: usize = 4096;

pub const MAX_PROPERTIES: usize = 16384;

pub const MAX_PROPERTIES_PER_NODE: usize = 1024;

pub const MAX_CHILDREN_PER_NODE: usize = 1024;

pub const MAX_DEPTH: usize = 32;

#[derive(Clone, Copy, Debug, PartialEq, Eq, Structural)]
pub enum PropertyKind {
    Literal,
    Template,
}

#[derive(Clone, Copy, Debug, Default, PartialEq, Eq)]
pub struct FirmwareDtStatistics {
    pub nodes: usize,
    pub properties: usize,
    pub templates: usize,
    pub maximum_depth: usize,
}

#[derive(Clone, Debug, PartialEq, Eq)]
pub enum FirmwareDtError {
    InputTooLarge,
    Truncated,
    LimitsExceeded,
    InvalidPropertyName,
    TrailingData,
    AllocationFailed,
    UnresolvedTemplates { count: usize },
    Runtime(FlatDtError),
}

/// `<&[u8; 32]>::try_from` on a slice that holds exactly 32 bytes.
#[verifier::external_body]
fn array32(bytes: &[u8]) -> (r: &[u8; 32])
    requires
        bytes@.len() == 32,
    ensures
        r@ == bytes@,
{
    bytes.try_into().unwrap()
}

/// Printable ASCII bytes are well-formed UTF-8.
pub proof fn lemma_printable_valid_utf8(s: Seq<u8>)
    requires
        printable(s),
    ensures
        valid_utf8(s),
    decreases s.len(),
{
    if s.len() != 0 {
        let rest = s.subrange(1, s.len() as int);
        assert(printable(rest)) by {
            assert forall|i: int| 0 <= i < rest.len() implies 0x20 <= #[trigger] rest[i] <= 0x7e by {
                assert(rest[i] == s[i + 1]);
            }
        }
        assert(s[0] <= 0x7e);
        lemma_printable_valid_utf8(rest);
        assert(vstd::utf8::pop_first_scalar(s) =~= rest);
    }
}

pub open spec fn template_raw(raw_length: u32) -> bool {
    raw_length & TEMPLATE_FLAG != 0
}

pub open spec fn length_of_raw(raw_length: u32) -> int {
    (raw_length & 0x7fff_ffffu32) as int
}

#[derive(Debug)]
pub struct FirmwareProperty<'a> {
    offset: usize,
    raw_name: &'a [u8; 32],
    name: &'a str,
    raw_length: u32,
    value: &'a [u8],
    padding: &'a [u8],
}

impl<'a> FirmwareProperty<'a> {
    /// Local wire facts: the key is canonical, its NUL-free prefix is the
    /// name, and the value and padding lengths follow the raw length word.
    pub closed spec fn wf(&self) -> bool {
        &&& self.raw_name@.len() == 32
        &&& 0 < self.name.spec_bytes().len() <= 32
        &&& self.name.spec_bytes() == self.raw_name@.subrange(0, self.name.spec_bytes().len() as int)
        &&& printable(self.name.spec_bytes())
        &&& forall|k: int|
            self.name.spec_bytes().len() <= k < 32 ==> #[trigger] self.raw_name@[k] == 0
        &&& self.value@.len() == length_of_raw(self.raw_length)
        &&& self.padding@.len() == flat_dt::pad_len(self.value@.len() as int)
    }

    pub closed spec fn spec_offset(&self) -> usize {
        self.offset
    }

    /// A well-formed property's value is shorter than the template flag.
    pub proof fn lemma_wf_lengths(&self)
        requires
            self.wf(),
        ensures
            self.spec_value()@.len() < TEMPLATE_FLAG,
            self.spec_raw_name()@.len() == 32,
            self.spec_padding()@.len() == flat_dt::pad_len(self.spec_value()@.len() as int),
            self.spec_kind() == PropertyKind::Literal ==> self.spec_raw_length()
                == self.spec_value()@.len(),
    {
        let r = self.raw_length;
        assert((r & 0x7fff_ffffu32) < 0x8000_0000u32) by (bit_vector);
        assert((r & 0x8000_0000u32) == 0 ==> (r & 0x7fff_ffffu32) == r) by (bit_vector);
    }

    pub closed spec fn spec_name(&self) -> &'a str {
        self.name
    }

    pub closed spec fn spec_raw_name(&self) -> &'a [u8; 32] {
        self.raw_name
    }

    pub closed spec fn spec_raw_length(&self) -> u32 {
        self.raw_length
    }

    pub closed spec fn spec_value(&self) -> &'a [u8] {
        self.value
    }

    pub closed spec fn spec_padding(&self) -> &'a [u8] {
        self.padding
    }

    pub closed spec fn spec_kind(&self) -> PropertyKind {
        if template_raw(self.raw_length) {
            PropertyKind::Template
        } else {
            PropertyKind::Literal
        }
    }

    pub fn offset(&self) -> (r: usize)
        ensures
            r == self.spec_offset(),
    {
        self.offset
    }

    pub fn raw_name(&self) -> (r: &'a [u8; 32])
        ensures
            r == self.spec_raw_name(),
    {
        self.raw_name
    }

    pub fn name(&self) -> (r: &'a str)
        ensures
            r == self.spec_name(),
    {
        self.name
    }

    pub fn raw_length(&self) -> (r: u32)
        ensures
            r == self.spec_raw_length(),
    {
        self.raw_length
    }

    pub fn kind(&self) -> (r: PropertyKind)
        ensures
            r == self.spec_kind(),
    {
        if self.raw_length & TEMPLATE_FLAG != 0 {
            PropertyKind::Template
        } else {
            PropertyKind::Literal
        }
    }

    pub fn value(&self) -> (r: &'a [u8])
        ensures
            r == self.spec_value(),
    {
        self.value
    }

    pub fn padding(&self) -> (r: &'a [u8])
        ensures
            r == self.spec_padding(),
    {
        self.padding
    }

    /// A checked view, not evaluation. Malformed/binary templates stay available
    /// through `value()` and retain their unresolved template classification.
    pub fn template_ascii_cstr(&self) -> (r: Option<&'a str>)
        ensures
            r is Some <==> {
                &&& self.spec_kind() == PropertyKind::Template
                &&& self.spec_value()@.len() > 0
                &&& self.spec_value()@.last() == 0
                &&& printable(self.spec_value()@.drop_last())
            },
            r matches Some(s) ==> s.spec_bytes() == self.spec_value()@.drop_last(),
    {
        if self.kind() != PropertyKind::Template {
            return None;
        }
        if self.value.len() == 0 || self.value[self.value.len() - 1] != 0 {
            return None;
        }
        let text = &self.value[0..self.value.len() - 1];
        assert(text@ =~= self.value@.drop_last());
        let mut i: usize = 0;
        while i < text.len()
            invariant
                i <= text@.len(),
                text@ == self.value@.drop_last(),
                forall|k: int| 0 <= k < i ==> 0x20 <= #[trigger] text@[k] <= 0x7e,
            decreases text@.len() - i,
        {
            if text[i] < 0x20 || text[i] > 0x7e {
                assert(text@[i as int] == self.value@.drop_last()[i as int]);
                assert(!printable(self.value@.drop_last()));
                return None;
            }
            i = i + 1;
        }
        proof {
            lemma_printable_valid_utf8(text@);
        }
        utf8_str(text)
    }
}

#[derive(Debug)]
pub struct FirmwareNode<'a> {
    offset: usize,
    properties: Vec<FirmwareProperty<'a>>,
    children: Vec<FirmwareNode<'a>>,
}

impl<'a> FirmwareNode<'a> {
    /// Every property of the subtree satisfies its local wire facts.
    pub closed spec fn wf(self) -> bool
        decreases self,
    {
        &&& forall|i: int| 0 <= i < self.properties@.len() ==> #[trigger] self.properties@[i].wf()
        &&& forall|i: int| 0 <= i < self.children@.len() ==> (#[trigger] self.children@[i]).wf()
    }

    pub closed spec fn spec_offset(&self) -> usize {
        self.offset
    }

    pub closed spec fn spec_properties(&self) -> Seq<FirmwareProperty<'a>> {
        self.properties@
    }

    pub closed spec fn spec_children(&self) -> Seq<FirmwareNode<'a>> {
        self.children@
    }

    /// A child is structurally smaller than its parent.
    pub proof fn lemma_child_smaller(self, i: int)
        requires
            0 <= i < self.spec_children().len(),
        ensures
            decreases_to!(self => self.spec_children()[i]),
    {
        assert(decreases_to!(self => self.children));
        assert(decreases_to!(self.children => self.children@));
        assert(decreases_to!(self.children@ => self.children@[i]));
    }

    /// Every node of a well-formed tree has well-formed children and properties.
    pub proof fn lemma_wf_parts(self)
        requires
            self.wf(),
        ensures
            forall|i: int| 0 <= i < self.spec_children().len() ==> (#[trigger] self.spec_children()[i]).wf(),
            forall|i: int| 0 <= i < self.spec_properties().len() ==> (#[trigger] self.spec_properties()[i]).wf(),
    {
    }

    pub fn offset(&self) -> (r: usize)
        ensures
            r == self.spec_offset(),
    {
        self.offset
    }

    pub fn properties(&self) -> (r: &[FirmwareProperty<'a>])
        ensures
            r@ == self.spec_properties(),
    {
        self.properties.as_slice()
    }

    pub fn children(&self) -> (r: &[FirmwareNode<'a>])
        ensures
            r@ == self.spec_children(),
    {
        self.children.as_slice()
    }
}

#[derive(Debug)]
pub struct FirmwareDeviceTree<'a> {
    source: &'a [u8],
    root: FirmwareNode<'a>,
    statistics: FirmwareDtStatistics,
}

/// The statistics before anything is counted.
pub open spec fn no_statistics() -> FirmwareDtStatistics {
    FirmwareDtStatistics { nodes: 0, properties: 0, templates: 0, maximum_depth: 0 }
}

/// The input is one firmware tree that ends where the input ends.
pub open spec fn whole_tree(b: Seq<u8>) -> bool {
    node_end(b, 0, 0, no_statistics()) matches Some((e, _)) && e == b.len()
}

/// A property's 32-byte name field: a printable name of 1 to 32 bytes, then zeros.
pub open spec fn name_field_ok(raw: Seq<u8>) -> bool {
    exists|t: int| 0 < t <= 32 && #[trigger] printable(raw.subrange(0, t)) && forall|k: int| t <= k < 32 ==> raw[k] == 0
}

/// Where the property at `at` ends and whether it is a template, if it is well formed:
/// its name field, its length word, its value and its padding inside `b`.
pub open spec fn prop_end(b: Seq<u8>, at: int) -> Option<(int, bool)> {
    if at < 0 || at + 36 > b.len() || !name_field_ok(b.subrange(at, at + 32)) {
        None
    } else {
        let raw = le_u32(b, at + 32) as u32;
        let len = length_of_raw(raw);
        let end = at + 36 + len + flat_dt::pad_len(len);
        if end > b.len() {
            None
        } else {
            Some((end, raw & TEMPLATE_FLAG != 0))
        }
    }
}

/// Where a run of `n` properties from `at` ends and how many of them are templates.
pub open spec fn props_end(b: Seq<u8>, at: int, n: nat) -> Option<(int, nat)>
    decreases n,
{
    if n == 0 {
        Some((at, 0))
    } else {
        match props_end(b, at, (n - 1) as nat) {
            None => None,
            Some((e, k)) => match prop_end(b, e) {
                None => None,
                Some((e2, t)) => Some((e2, k + if t { 1nat } else { 0nat })),
            },
        }
    }
}

/// The statistics after a node of `depth` with `properties` properties is counted.
pub open spec fn counted(st: FirmwareDtStatistics, properties: int, depth: int, templates: int) -> FirmwareDtStatistics {
    FirmwareDtStatistics {
        nodes: (st.nodes + 1) as usize,
        properties: (st.properties + properties) as usize,
        templates: (st.templates + templates) as usize,
        maximum_depth: if depth > st.maximum_depth { depth as usize } else { st.maximum_depth },
    }
}

/// Where the node at `at` of `depth` ends and the statistics after it, if it is well
/// formed within the limits, counting from `st`.
pub open spec fn node_end(b: Seq<u8>, at: int, depth: int, st: FirmwareDtStatistics) -> Option<(int, FirmwareDtStatistics)>
    decreases b.len() - at, 0int, 0nat,
{
    if depth > MAX_DEPTH || st.nodes == MAX_NODES || at < 0 || at + 8 > b.len() {
        None
    } else {
        let pc = le_u32(b, at);
        let cc = le_u32(b, at + 4);
        if pc > MAX_PROPERTIES_PER_NODE || cc > MAX_CHILDREN_PER_NODE || pc > MAX_PROPERTIES - st.properties
            || cc > MAX_NODES - st.nodes - 1 || pc * 36 + cc * 8 > b.len() - (at + 8) {
            None
        } else {
            match props_end(b, at + 8, pc as nat) {
                None => None,
                Some((e, k)) => if at < e <= b.len() {
                    children_end(b, e, cc as nat, depth + 1, counted(st, pc, depth, k as int))
                } else {
                    None
                },
            }
        }
    }
}

/// Where a run of `n` child nodes of `depth` from `at` ends and the statistics after them.
pub open spec fn children_end(b: Seq<u8>, at: int, n: nat, depth: int, st: FirmwareDtStatistics) -> Option<
    (int, FirmwareDtStatistics),
>
    decreases b.len() - at, 1int, n,
{
    if n == 0 {
        Some((at, st))
    } else {
        match children_end(b, at, (n - 1) as nat, depth, st) {
            None => None,
            Some((e, st2)) => if at <= e <= b.len() {
                node_end(b, e, depth, st2)
            } else {
                None
            },
        }
    }
}

pub open spec fn stats_ok(s: FirmwareDtStatistics) -> bool {
    &&& s.nodes <= MAX_NODES
    &&& s.properties <= MAX_PROPERTIES
    &&& s.templates <= s.properties
    &&& s.maximum_depth <= MAX_DEPTH
}

impl<'a> FirmwareDeviceTree<'a> {
    pub closed spec fn spec_source(&self) -> &'a [u8] {
        self.source
    }

    pub closed spec fn spec_root(&self) -> FirmwareNode<'a> {
        self.root
    }

    pub closed spec fn spec_statistics(&self) -> FirmwareDtStatistics {
        self.statistics
    }

    pub fn parse(source: &'a [u8]) -> (r: Result<Self, FirmwareDtError>)
        ensures
            r matches Ok(t) ==> {
                &&& t.spec_source() == source
                &&& t.spec_root().wf()
                &&& stats_ok(t.spec_statistics())
                &&& 1 <= t.spec_statistics().nodes
                &&& source@.len() <= MAX_INPUT_BYTES
                &&& node_end(source@, 0, 0, no_statistics()) == Some(
                    (source@.len() as int, t.spec_statistics()),
                )
            },
            source@.len() > MAX_INPUT_BYTES ==> r == Err::<Self, FirmwareDtError>(
                FirmwareDtError::InputTooLarge,
            ),
            source@.len() <= MAX_INPUT_BYTES ==> (node_end(source@, 0, 0, no_statistics()) matches Some((e, _))
                ==> if e == source@.len() {
                r is Ok || r == Err::<Self, FirmwareDtError>(FirmwareDtError::AllocationFailed)
            } else {
                r == Err::<Self, FirmwareDtError>(FirmwareDtError::TrailingData) || r == Err::<
                    Self,
                    FirmwareDtError,
                >(FirmwareDtError::AllocationFailed)
            }),
    {
        if source.len() > MAX_INPUT_BYTES {
            return Err(FirmwareDtError::InputTooLarge);
        }
        let mut parser = Parser {
            source,
            position: 0,
            statistics: FirmwareDtStatistics {
                nodes: 0,
                properties: 0,
                templates: 0,
                maximum_depth: 0,
            },
        };
        let root = match parser.node(0) {
            Ok(n) => n,
            Err(e) => return Err(e),
        };
        if parser.position != source.len() {
            return Err(FirmwareDtError::TrailingData);
        }
        Ok(FirmwareDeviceTree { source, root, statistics: parser.statistics })
    }

    pub fn source(&self) -> (r: &'a [u8])
        ensures
            r == self.spec_source(),
    {
        self.source
    }

    pub fn root(&self) -> (r: &FirmwareNode<'a>)
        ensures
            *r == self.spec_root(),
    {
        &self.root
    }

    pub fn statistics(&self) -> (r: FirmwareDtStatistics)
        ensures
            r == self.spec_statistics(),
    {
        self.statistics
    }

    /// Only the existing runtime validator can accept unmodified runtime
    /// bytes. Any template prevents this operation, regardless of its body.
    pub fn validated_runtime_bytes(&self) -> (r: Result<&'a [u8], FirmwareDtError>)
        ensures
            self.spec_statistics().templates != 0 ==> r == Err::<&'a [u8], FirmwareDtError>(
                FirmwareDtError::UnresolvedTemplates { count: self.spec_statistics().templates },
            ),
            r matches Ok(b) ==> b == self.spec_source() && self.spec_statistics().templates == 0,
            r matches Err(e) ==> self.spec_statistics().templates != 0 || e is Runtime,
            r matches Ok(b) ==> flat_dt::accepted_wire(b@),
            self.spec_statistics().templates == 0 && (exists|t: flat_dt::FlatNode| flat_dt::encodable(t)
                && #[trigger] flat_dt::wire_node(t) == self.spec_source()@) ==> r == Ok::<&'a [u8], FirmwareDtError>(
                self.spec_source(),
            ),
    {
        if self.statistics.templates != 0 {
            return Err(FirmwareDtError::UnresolvedTemplates { count: self.statistics.templates });
        }
        match flat_dt::validate(self.source) {
            Ok(()) => Ok(self.source),
            Err(e) => Err(FirmwareDtError::Runtime(e)),
        }
    }
}

struct Parser<'a> {
    source: &'a [u8],
    position: usize,
    statistics: FirmwareDtStatistics,
}

impl<'a> Parser<'a> {
    spec fn inv(&self) -> bool {
        &&& self.position <= self.source@.len()
        &&& stats_ok(self.statistics)
    }

    fn take(&mut self, count: usize) -> (r: Result<&'a [u8], FirmwareDtError>)
        requires
            old(self).inv(),
        ensures
            final(self).inv(),
            final(self).source == old(self).source,
            final(self).statistics == old(self).statistics,
            r matches Ok(b) ==> {
                &&& old(self).position + count <= old(self).source@.len()
                &&& final(self).position == old(self).position + count
                &&& b@ == old(self).source@.subrange(
                    old(self).position as int,
                    old(self).position + count,
                )
            },
            r is Err ==> r == Err::<&'a [u8], FirmwareDtError>(FirmwareDtError::Truncated),
            old(self).position + count <= old(self).source@.len() ==> r is Ok,
    {
        let available = self.source.len();
        let end = match self.position.checked_add(count) {
            Some(e) => e,
            None => return Err(FirmwareDtError::Truncated),
        };
        if end > available {
            return Err(FirmwareDtError::Truncated);
        }
        let bytes = &self.source[self.position..end];
        self.position = end;
        Ok(bytes)
    }

    fn word(&mut self) -> (r: Result<u32, FirmwareDtError>)
        requires
            old(self).inv(),
        ensures
            final(self).inv(),
            final(self).source == old(self).source,
            final(self).statistics == old(self).statistics,
            r matches Ok(v) ==> v == le_u32(old(self).source@, old(self).position as int),
            r is Err ==> r == Err::<u32, FirmwareDtError>(FirmwareDtError::Truncated),
            old(self).position + 4 <= old(self).source@.len() ==> r is Ok,
            r is Ok ==> final(self).position == old(self).position + 4,
    {
        let bytes = self.take(4)?;
        Ok(read_u32(bytes, 0))
    }

    #[verifier::loop_isolation(false)]
    #[verifier::rlimit(60)]
    fn node(&mut self, depth: usize) -> (r: Result<FirmwareNode<'a>, FirmwareDtError>)
        requires
            old(self).inv(),
        ensures
            final(self).inv(),
            final(self).source == old(self).source,
            final(self).statistics.nodes >= old(self).statistics.nodes,
            r matches Ok(n) ==> n.wf() && final(self).statistics.nodes > old(
                self,
            ).statistics.nodes && final(self).statistics.maximum_depth >= depth,
            r matches Ok(n) ==> depth <= MAX_DEPTH,
            r is Ok ==> final(self).position >= old(self).position,
            r is Ok ==> node_end(old(self).source@, old(self).position as int, depth as int, old(self).statistics)
                == Some((final(self).position as int, final(self).statistics)),
            node_end(old(self).source@, old(self).position as int, depth as int, old(self).statistics) is Some
                ==> r is Ok || r == Err::<FirmwareNode<'a>, FirmwareDtError>(FirmwareDtError::AllocationFailed),
        decreases MAX_NODES - old(self).statistics.nodes,
    {
        let ghost b = self.source@;
        let ghost at = self.position as int;
        let ghost st0 = self.statistics;
        let ghost complete = node_end(b, at, depth as int, st0) is Some;
        if depth > MAX_DEPTH || self.statistics.nodes == MAX_NODES {
            return Err(FirmwareDtError::LimitsExceeded);
        }
        let offset = self.position;
        let property_count = self.word()? as usize;
        let child_count = self.word()? as usize;
        if property_count > MAX_PROPERTIES_PER_NODE || child_count > MAX_CHILDREN_PER_NODE
            || property_count > MAX_PROPERTIES - self.statistics.properties || child_count
            > MAX_NODES - self.statistics.nodes - 1 {
            return Err(FirmwareDtError::LimitsExceeded);
        }
        // Even an empty property occupies 36 bytes; a child needs its header.
        let minimum = property_count * 36 + child_count * 8;
        if minimum > self.source.len() - self.position {
            return Err(FirmwareDtError::Truncated);
        }
        assert(complete ==> props_end(b, at + 8, property_count as nat) is Some);
        self.statistics.nodes = self.statistics.nodes + 1;
        self.statistics.properties = self.statistics.properties + property_count;
        if depth > self.statistics.maximum_depth {
            self.statistics.maximum_depth = depth;
        }
        let mut properties: Vec<FirmwareProperty<'a>> = Vec::new();
        if properties.try_reserve(property_count).is_err() {
            return Err(FirmwareDtError::AllocationFailed);
        }
        let ghost nodes_now = self.statistics.nodes;
        let mut index: usize = 0;
        while index < property_count
            invariant
                self.inv(),
                self.source == old(self).source,
                self.statistics.nodes == nodes_now,
                nodes_now > old(self).statistics.nodes,
                self.statistics.maximum_depth >= depth,
                index <= property_count,
                self.statistics.templates + (property_count - index) <= self.statistics.properties,
                forall|i: int| 0 <= i < properties@.len() ==> #[trigger] properties@[i].wf(),
                at + 8 <= self.position,
                self.statistics.nodes == st0.nodes + 1,
                self.statistics.properties == st0.properties + property_count,
                self.statistics.maximum_depth == (if depth > st0.maximum_depth { depth } else { st0.maximum_depth }),
                self.statistics.templates >= st0.templates,
                props_end(b, at + 8, index as nat) == Some(
                    (self.position as int, (self.statistics.templates - st0.templates) as nat),
                ),
                complete ==> props_end(b, at + 8, property_count as nat) is Some,
            decreases property_count - index,
        {
            let ghost pos = self.position as int;
            let ghost k0 = (self.statistics.templates - st0.templates) as nat;
            proof {
                if complete {
                    lemma_props_prefix(b, at + 8, property_count as nat, (index + 1) as nat);
                }
                assert(complete ==> prop_end(b, pos) is Some);
            }
            let offset = self.position;
            let raw = self.take(32)?;
            let raw_name = array32(raw);
            let mut terminator: usize = 0;
            while terminator < 32 && raw_name[terminator] != 0
                invariant
                    terminator <= 32,
                    raw_name@.len() == 32,
                    forall|k: int| 0 <= k < terminator ==> raw_name@[k] != 0,
                decreases 32 - terminator,
            {
                terminator = terminator + 1;
            }
            proof {
                lemma_name_field(raw_name@, terminator as int);
                assert(raw_name@ == b.subrange(pos, pos + 32));
            }
            if terminator == 0 {
                return Err(FirmwareDtError::InvalidPropertyName);
            }
            let mut k: usize = 0;
            while k < terminator
                invariant
                    k <= terminator <= 32,
                    raw_name@.len() == 32,
                    forall|j: int| 0 <= j < k ==> 0x20 <= #[trigger] raw_name@[j] <= 0x7e,
                decreases terminator - k,
            {
                if raw_name[k] < 0x20 || raw_name[k] > 0x7e {
                    assert(raw_name@.subrange(0, terminator as int)[k as int] == raw_name@[k as int]);
                    return Err(FirmwareDtError::InvalidPropertyName);
                }
                k = k + 1;
            }
            let mut k: usize = terminator;
            while k < 32
                invariant
                    terminator <= k <= 32,
                    raw_name@.len() == 32,
                    forall|j: int| terminator <= j < k ==> #[trigger] raw_name@[j] == 0,
                decreases 32 - k,
            {
                if raw_name[k] != 0 {
                    return Err(FirmwareDtError::InvalidPropertyName);
                }
                k = k + 1;
            }
            let name_bytes = &raw_name[0..terminator];
            proof {
                assert(printable(name_bytes@));
                lemma_printable_valid_utf8(name_bytes@);
                assert(name_field_ok(b.subrange(pos, pos + 32)));
            }
            let name = match utf8_str(name_bytes) {
                Some(n) => n,
                None => return Err(FirmwareDtError::InvalidPropertyName),
            };
            let raw_length = self.word()?;
            let length = (raw_length & 0x7fff_ffff) as usize;
            let value = self.take(length)?;
            let padding = self.take((4 - length % 4) % 4)?;
            if raw_length & TEMPLATE_FLAG != 0 {
                self.statistics.templates = self.statistics.templates + 1;
            }
            proof {
                assert(raw_length == le_u32(b, pos + 32) as u32);
                assert(prop_end(b, pos) == Some((self.position as int, raw_length & TEMPLATE_FLAG != 0)));
            }
            let property = FirmwareProperty { offset, raw_name, name, raw_length, value, padding };
            assert(property.wf());
            properties.push(property);
            index = index + 1;
        }
        let ghost e = self.position as int;
        let ghost stp = self.statistics;
        proof {
            assert(stp == counted(st0, property_count as int, depth as int, (stp.templates - st0.templates) as int));
            assert(complete ==> children_end(b, e, child_count as nat, depth + 1, stp) is Some);
        }
        let mut children: Vec<FirmwareNode<'a>> = Vec::new();
        if children.try_reserve(child_count).is_err() {
            return Err(FirmwareDtError::AllocationFailed);
        }
        let mut index: usize = 0;
        while index < child_count
            invariant
                self.inv(),
                self.source == old(self).source,
                self.statistics.nodes >= nodes_now,
                nodes_now > old(self).statistics.nodes,
                self.statistics.maximum_depth >= depth,
                depth <= MAX_DEPTH,
                index <= child_count,
                forall|i: int| 0 <= i < children@.len() ==> (#[trigger] children@[i]).wf(),
                e <= self.position,
                children_end(b, e, index as nat, depth + 1, stp) == Some((self.position as int, self.statistics)),
                complete ==> children_end(b, e, child_count as nat, depth + 1, stp) is Some,
            decreases child_count - index,
        {
            proof {
                if complete {
                    lemma_children_prefix(b, e, child_count as nat, (index + 1) as nat, depth + 1, stp);
                }
            }
            let child = match self.node(depth + 1) {
                Ok(c) => c,
                Err(err) => return Err(err),
            };
            children.push(child);
            index = index + 1;
        }
        let result = FirmwareNode { offset, properties, children };
        assert(forall|i: int| 0 <= i < result.properties@.len() ==> #[trigger] result.properties@[i].wf());
        assert(forall|i: int| 0 <= i < result.children@.len() ==> (#[trigger] result.children@[i]).wf());
        assert(result.wf()) by {
            reveal_with_fuel(FirmwareNode::wf, 2);
        }
        Ok(result)
    }
}

/// Four bytes inside a prefix read the same in the whole.
proof fn lemma_word_extends(p: Seq<u8>, b: Seq<u8>, i: int)
    requires
        p.len() <= b.len(),
        p == b.subrange(0, p.len() as int),
        0 <= i,
        i + 4 <= p.len(),
    ensures
        le_u32(p, i) == le_u32(b, i),
{
    assert(p[i] == b[i] && p[i + 1] == b[i + 1] && p[i + 2] == b[i + 2] && p[i + 3] == b[i + 3]);
}

/// A property that lies inside a prefix lies in the same place in the whole.
proof fn lemma_prop_end_extends(p: Seq<u8>, b: Seq<u8>, at: int)
    requires
        p.len() <= b.len(),
        p == b.subrange(0, p.len() as int),
        prop_end(p, at) is Some,
    ensures
        prop_end(b, at) == prop_end(p, at),
{
    assert(p.subrange(at, at + 32) =~= b.subrange(at, at + 32));
    lemma_word_extends(p, b, at + 32);
}

/// A run of properties that lies inside a prefix lies in the same place in the whole.
proof fn lemma_props_end_extends(p: Seq<u8>, b: Seq<u8>, at: int, n: nat)
    requires
        p.len() <= b.len(),
        p == b.subrange(0, p.len() as int),
        props_end(p, at, n) is Some,
    ensures
        props_end(b, at, n) == props_end(p, at, n),
    decreases n,
{
    if n > 0 {
        lemma_props_end_extends(p, b, at, (n - 1) as nat);
        let (e, k) = props_end(p, at, (n - 1) as nat)->0;
        lemma_prop_end_extends(p, b, e);
    }
}

/// A node that lies inside a prefix lies in the same place in the whole, with the
/// same statistics after it.
proof fn lemma_node_end_extends(p: Seq<u8>, b: Seq<u8>, at: int, depth: int, st: FirmwareDtStatistics)
    requires
        p.len() <= b.len(),
        p == b.subrange(0, p.len() as int),
        node_end(p, at, depth, st) is Some,
    ensures
        node_end(b, at, depth, st) == node_end(p, at, depth, st),
    decreases p.len() - at, 0int, 0nat,
{
    lemma_word_extends(p, b, at);
    lemma_word_extends(p, b, at + 4);
    let pc = le_u32(p, at);
    let cc = le_u32(p, at + 4);
    lemma_props_end_extends(p, b, at + 8, pc as nat);
    let (e, k) = props_end(p, at + 8, pc as nat)->0;
    lemma_children_end_extends(p, b, e, cc as nat, depth + 1, counted(st, pc, depth, k as int));
}

/// A run of child nodes that lies inside a prefix lies in the same place in the whole.
proof fn lemma_children_end_extends(
    p: Seq<u8>,
    b: Seq<u8>,
    at: int,
    n: nat,
    depth: int,
    st: FirmwareDtStatistics,
)
    requires
        p.len() <= b.len(),
        p == b.subrange(0, p.len() as int),
        children_end(p, at, n, depth, st) is Some,
    ensures
        children_end(b, at, n, depth, st) == children_end(p, at, n, depth, st),
    decreases p.len() - at, 1int, n,
{
    if n > 0 {
        lemma_children_end_extends(p, b, at, (n - 1) as nat, depth, st);
        let (e, st2) = children_end(p, at, (n - 1) as nat, depth, st)->0;
        lemma_node_end_extends(p, b, e, depth, st2);
    }
}

/// Of an input and a strict prefix of it, at most one is a whole firmware tree: a
/// tree that ends where its input ends.
pub proof fn lemma_whole_tree_prefix_free(p: Seq<u8>, b: Seq<u8>)
    requires
        p.len() < b.len(),
        p == b.subrange(0, p.len() as int),
    ensures
        !(whole_tree(p) && whole_tree(b)),
{
    if node_end(p, 0, 0, no_statistics()) is Some {
        lemma_node_end_extends(p, b, 0, 0, no_statistics());
    }
}

/// Where a run of properties ends exists for every shorter run as well.
proof fn lemma_props_prefix(b: Seq<u8>, at: int, n: nat, i: nat)
    requires
        props_end(b, at, n) is Some,
        i <= n,
    ensures
        props_end(b, at, i) is Some,
    decreases n,
{
    if i < n {
        lemma_props_prefix(b, at, (n - 1) as nat, i);
    }
}

/// Where a run of child nodes ends exists for every shorter run as well.
proof fn lemma_children_prefix(b: Seq<u8>, at: int, n: nat, i: nat, depth: int, st: FirmwareDtStatistics)
    requires
        children_end(b, at, n, depth, st) is Some,
        i <= n,
    ensures
        children_end(b, at, i, depth, st) is Some,
    decreases n,
{
    if i < n {
        lemma_children_prefix(b, at, (n - 1) as nat, i, depth, st);
    }
}

/// A 32-byte field whose first zero byte (or its end) is at `terminator` is a
/// valid name field exactly when the bytes before it are non-empty and
/// printable and only zeros follow.
proof fn lemma_name_field(raw: Seq<u8>, terminator: int)
    requires
        raw.len() == 32,
        0 <= terminator <= 32,
        forall|k: int| 0 <= k < terminator ==> raw[k] != 0,
        terminator < 32 ==> raw[terminator] == 0,
    ensures
        name_field_ok(raw) <==> (terminator > 0 && printable(raw.subrange(0, terminator)) && forall|k: int|
            terminator <= k < 32 ==> raw[k] == 0),
{
    if name_field_ok(raw) {
        let t = choose|t: int|
            0 < t <= 32 && #[trigger] printable(raw.subrange(0, t)) && forall|k: int| t <= k < 32 ==> raw[k] == 0;
        if t < terminator {
            assert(raw[t] == 0);
        }
        if terminator < t {
            assert(raw.subrange(0, t)[terminator] == raw[terminator]);
        }
        assert(t == terminator);
    }
    if terminator > 0 && printable(raw.subrange(0, terminator)) && forall|k: int| terminator <= k < 32 ==> raw[k] == 0 {
        assert(name_field_ok(raw));
    }
}

} // verus!

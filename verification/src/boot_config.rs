//! Bounded firmware target selection from public XML plist structure.
//!
//! This is not the host `config::Config` API: `Misc.Entries` boot selection and
//! explicit `Nextcore.Kernel` profiles are interpreted. Other values retain their XML plist
//! type and structure but are not converted to hardware settings. Binary plists are
//! unsupported. The XML itself is parsed by roxmltree into a plain tree of `XmlNode`s,
//! which all of the rules here read.
use vstd::prelude::*;
use vstd::utf8::{decode_utf8, valid_utf8};
use roxmltree::{Document, Node, NodeType, ParsingOptions};
use crate::bytes::utf8_str;
use crate::string_map::{chars_of, str_eq, string_of};

verus! {

pub const MAX_INPUT_BYTES: usize = 0x10_0000;

pub const MAX_XML_DEPTH: usize = 64;

pub const MAX_XML_NODES: u32 = 16384;

pub const MAX_ENTRIES: usize = 64;

/// UCS-2 code units, excluding the NUL terminator added by the EFI caller.
/// The public name is retained; paths accept only the UCS-2 subset of UTF-16.
pub const MAX_PATH_UTF16_UNITS: usize = 1024;

/// UTF-16 code units, excluding the NUL terminator added by the EFI caller.
pub const MAX_ARGUMENTS_UTF16_UNITS: usize = 4096;

#[derive(Debug, Clone, PartialEq, Eq)]
pub struct BootTarget {
    /// Absolute path on the image's own filesystem, normalized to backslashes.
    pub path: String,
    pub arguments: String,
}

#[derive(Debug, Clone, PartialEq, Eq)]
pub struct BootMenuEntry {
    pub name: String,
    pub target: BootTarget,
}

#[derive(Debug, Clone, PartialEq, Eq)]
pub struct BootMenu {
    /// Explicit opt-in. Missing/false preserves the single-target behavior.
    pub show_picker: bool,
    pub entries: Vec<BootMenuEntry>,
}

#[derive(Debug, Clone, PartialEq, Eq)]
pub struct KernelTarget {
    pub path: String,
    pub arguments: String,
    pub profile: KernelProfile,
}

/// The image's CPU type alone does not define the loader entry ABI.
#[derive(Debug, Clone, Copy, PartialEq, Eq, Structural)]
pub enum KernelProfile {
    Xnu12377Pstart32,
}

#[derive(Debug, Clone, Copy, PartialEq, Eq, Structural)]
pub enum BootConfigError {
    InputTooLarge,
    UnsupportedFormat,
    InvalidUtf8,
    InvalidXml,
    InvalidPlist,
    DuplicateKey,
    InvalidType,
    DepthLimit,
    NodeLimit,
    EntryLimit,
    AmbiguousTarget,
    MissingPath,
    InvalidPath,
    PathTooLong,
    InvalidArguments,
    ArgumentsTooLong,
    MissingKernelTarget,
    UnsupportedKernelProfile,
    InvalidDisplayName,
}

impl BootConfigError {
    /// The fixed token of each variant.
    pub open spec fn token_text(&self) -> Seq<char> {
        match self {
            BootConfigError::InputTooLarge => "INPUT_TOO_LARGE"@,
            BootConfigError::UnsupportedFormat => "UNSUPPORTED_FORMAT"@,
            BootConfigError::InvalidUtf8 => "INVALID_UTF8"@,
            BootConfigError::InvalidXml => "INVALID_XML"@,
            BootConfigError::InvalidPlist => "INVALID_PLIST"@,
            BootConfigError::DuplicateKey => "DUPLICATE_KEY"@,
            BootConfigError::InvalidType => "INVALID_TYPE"@,
            BootConfigError::DepthLimit => "DEPTH_LIMIT"@,
            BootConfigError::NodeLimit => "NODE_LIMIT"@,
            BootConfigError::EntryLimit => "ENTRY_LIMIT"@,
            BootConfigError::AmbiguousTarget => "AMBIGUOUS_TARGET"@,
            BootConfigError::MissingPath => "MISSING_PATH"@,
            BootConfigError::InvalidPath => "INVALID_PATH"@,
            BootConfigError::PathTooLong => "PATH_TOO_LONG"@,
            BootConfigError::InvalidArguments => "INVALID_ARGUMENTS"@,
            BootConfigError::ArgumentsTooLong => "ARGUMENTS_TOO_LONG"@,
            BootConfigError::MissingKernelTarget => "MISSING_KERNEL_TARGET"@,
            BootConfigError::UnsupportedKernelProfile => "UNSUPPORTED_KERNEL_PROFILE"@,
            BootConfigError::InvalidDisplayName => "INVALID_DISPLAY_NAME"@,
        }
    }

    /// Fixed tokens only; untrusted XML/path text never reaches log markers.
    pub fn token(&self) -> (r: &'static str)
        ensures
            r@ == self.token_text(),
    {
        match self {
            BootConfigError::InputTooLarge => "INPUT_TOO_LARGE",
            BootConfigError::UnsupportedFormat => "UNSUPPORTED_FORMAT",
            BootConfigError::InvalidUtf8 => "INVALID_UTF8",
            BootConfigError::InvalidXml => "INVALID_XML",
            BootConfigError::InvalidPlist => "INVALID_PLIST",
            BootConfigError::DuplicateKey => "DUPLICATE_KEY",
            BootConfigError::InvalidType => "INVALID_TYPE",
            BootConfigError::DepthLimit => "DEPTH_LIMIT",
            BootConfigError::NodeLimit => "NODE_LIMIT",
            BootConfigError::EntryLimit => "ENTRY_LIMIT",
            BootConfigError::AmbiguousTarget => "AMBIGUOUS_TARGET",
            BootConfigError::MissingPath => "MISSING_PATH",
            BootConfigError::InvalidPath => "INVALID_PATH",
            BootConfigError::PathTooLong => "PATH_TOO_LONG",
            BootConfigError::InvalidArguments => "INVALID_ARGUMENTS",
            BootConfigError::ArgumentsTooLong => "ARGUMENTS_TOO_LONG",
            BootConfigError::MissingKernelTarget => "MISSING_KERNEL_TARGET",
            BootConfigError::UnsupportedKernelProfile => "UNSUPPORTED_KERNEL_PROFILE",
            BootConfigError::InvalidDisplayName => "INVALID_DISPLAY_NAME",
        }
    }

    /// The diagnostic text of this error.
    pub fn to_string(&self) -> (r: String)
        ensures
            r@ == self.token_text(),
    {
        String::from_str(self.token())
    }
}

// ---------------------------------------------------------------------------
// The parsed document as plain values.

#[derive(Debug, Clone, Copy, PartialEq, Eq, Structural)]
pub enum XmlKind {
    Root,
    Element,
    ProcessingInstruction,
    Comment,
    Text,
}

/// An attribute by its local name.
#[derive(Debug, Clone, PartialEq, Eq)]
pub struct XmlAttribute {
    pub name: String,
    pub value: String,
}

/// One node of a parsed XML document and, for the root and elements, its children.
#[derive(Debug)]
pub struct XmlNode {
    pub kind: XmlKind,
    /// Local tag name of an element; empty for other nodes.
    pub name: String,
    /// Whether an element's tag name is in a namespace.
    pub namespaced: bool,
    pub attributes: Vec<XmlAttribute>,
    /// The characters of a text node; empty for other nodes.
    pub text: String,
    pub children: Vec<XmlNode>,
}

#[derive(Debug, Clone, Copy, PartialEq, Eq, Structural)]
pub enum XmlParseError {
    NodesLimitReached,
    Malformed,
}

/// The document roxmltree parses from `text` with DTDs allowed, no entity resolver and
/// the node limit above, as plain values.
pub uninterp spec fn xml_document(text: Seq<char>) -> Result<XmlNode, XmlParseError>;

#[verifier::external_type_specification]
#[verifier::external_body]
pub struct ExXmlNode<'a, 'input: 'a>(Node<'a, 'input>);

/// A roxmltree node and its subtree as plain values, node for node.
#[verifier::external_body]
fn plain_node(node: Node<'_, '_>) -> XmlNode {
    XmlNode {
        kind: match node.node_type() {
            NodeType::Root => XmlKind::Root,
            NodeType::Element => XmlKind::Element,
            NodeType::PI => XmlKind::ProcessingInstruction,
            NodeType::Comment => XmlKind::Comment,
            NodeType::Text => XmlKind::Text,
        },
        name: node.tag_name().name().into(),
        namespaced: node.tag_name().namespace().is_some(),
        attributes: node.attributes().map(|a| XmlAttribute { name: a.name().into(), value: a.value().into() }).collect(),
        text: if node.is_text() { node.text().unwrap_or("").into() } else { String::new() },
        children: node.children().map(plain_node).collect(),
    }
}

/// `roxmltree::Document::parse_with_options`: the parsed document is a function of the
/// text alone; which malformation it reports is not distinguished here beyond the node
/// limit.
#[verifier::external_body]
fn parse_xml(text: &str) -> (r: Result<XmlNode, XmlParseError>)
    ensures
        r == xml_document(text@),
{
    let options = ParsingOptions { allow_dtd: true, nodes_limit: MAX_XML_NODES, entity_resolver: None };
    match Document::parse_with_options(text, options) {
        Ok(document) => Ok(plain_node(document.root())),
        Err(roxmltree::Error::NodesLimitReached) => Err(XmlParseError::NodesLimitReached),
        Err(_) => Err(XmlParseError::Malformed),
    }
}

// ---------------------------------------------------------------------------
// Text.

/// `char::is_control`: the general category Cc.
pub open spec fn is_control(c: char) -> bool {
    (c as u32) <= 0x1f || (0x7f <= (c as u32) && (c as u32) <= 0x9f)
}

/// `char::is_whitespace`: the Unicode White_Space property.
pub open spec fn is_white_space(c: char) -> bool {
    let u = c as u32;
    (0x9 <= u && u <= 0xd) || u == 0x20 || u == 0x85 || u == 0xa0 || u == 0x1680 || (0x2000 <= u
        && u <= 0x200a) || u == 0x2028 || u == 0x2029 || u == 0x202f || u == 0x205f || u == 0x3000
}

pub open spec fn any_control(s: Seq<char>) -> bool {
    exists|i: int| 0 <= i < s.len() && is_control(#[trigger] s[i])
}

/// The UTF-16 code units of `s`.
pub open spec fn utf16_len(s: Seq<char>) -> int
    decreases s.len(),
{
    if s.len() == 0 {
        0
    } else {
        utf16_len(s.drop_last()) + if (s.last() as u32) > 0xffff {
            2int
        } else {
            1int
        }
    }
}

fn char_is_control(c: char) -> (r: bool)
    ensures
        r == is_control(c),
{
    let u = c as u32;
    u <= 0x1f || (0x7f <= u && u <= 0x9f)
}

fn char_is_white_space(c: char) -> (r: bool)
    ensures
        r == is_white_space(c),
{
    let u = c as u32;
    (0x9 <= u && u <= 0xd) || u == 0x20 || u == 0x85 || u == 0xa0 || u == 0x1680 || (0x2000 <= u
        && u <= 0x200a) || u == 0x2028 || u == 0x2029 || u == 0x202f || u == 0x205f || u == 0x3000
}

fn has_control(s: &[char]) -> (r: bool)
    ensures
        r == any_control(s@),
{
    let mut i: usize = 0;
    while i < s.len()
        invariant
            i <= s@.len(),
            forall|j: int| 0 <= j < i ==> !is_control(#[trigger] s@[j]),
        decreases s@.len() - i,
    {
        if char_is_control(s[i]) {
            return true;
        }
        i = i + 1;
    }
    false
}

/// The UTF-16 length of `s`, saturated at `cap + 1`.
fn utf16_count(s: &[char], cap: usize) -> (r: usize)
    requires
        cap < usize::MAX,
    ensures
        r == if utf16_len(s@) > cap {
            cap + 1
        } else {
            utf16_len(s@)
        },
{
    let mut n: usize = 0;
    let mut i: usize = 0;
    while i < s.len()
        invariant
            i <= s@.len(),
            cap < usize::MAX,
            n == utf16_len(s@.take(i as int)),
            n <= cap,
        decreases s@.len() - i,
    {
        proof {
            lemma_utf16_len_mono(s@, i as int + 1);
            assert(s@.take(i as int + 1).drop_last() =~= s@.take(i as int));
        }
        let width: usize = if (s[i] as u32) > 0xffff {
            2
        } else {
            1
        };
        if width > cap - n {
            proof {
                lemma_utf16_len_prefix(s@, i as int + 1);
            }
            return cap + 1;
        }
        n = n + width;
        i = i + 1;
    }
    assert(s@.take(i as int) =~= s@);
    n
}

proof fn lemma_utf16_len_mono(s: Seq<char>, k: int)
    requires
        0 <= k <= s.len(),
    ensures
        utf16_len(s.take(k)) >= 0,
    decreases k,
{
    if k > 0 {
        assert(s.take(k).drop_last() =~= s.take(k - 1));
        lemma_utf16_len_mono(s, k - 1);
    }
}

/// A prefix takes at most as many units as the whole.
proof fn lemma_utf16_len_prefix(s: Seq<char>, k: int)
    requires
        0 <= k <= s.len(),
    ensures
        utf16_len(s.take(k)) <= utf16_len(s),
    decreases s.len() - k,
{
    if k < s.len() {
        lemma_utf16_len_prefix(s, k + 1);
        assert(s.take(k + 1).drop_last() =~= s.take(k));
    } else {
        assert(s.take(k) =~= s);
    }
}

// ---------------------------------------------------------------------------
// Reading the tree.

/// An element with this local tag name.
pub open spec fn has_tag(n: XmlNode, tag: Seq<char>) -> bool {
    n.kind == XmlKind::Element && n.name@ == tag
}

/// The element children among `cs`, in order.
pub open spec fn elements(cs: Seq<XmlNode>) -> Seq<XmlNode>
    decreases cs.len(),
{
    if cs.len() == 0 {
        seq![]
    } else {
        let rest = elements(cs.drop_last());
        if cs.last().kind == XmlKind::Element {
            rest.push(cs.last())
        } else {
            rest
        }
    }
}

/// The first element among `cs`.
pub open spec fn first_element(cs: Seq<XmlNode>) -> Option<XmlNode> {
    if elements(cs).len() > 0 {
        Some(elements(cs)[0])
    } else {
        None
    }
}

/// The text of a scalar: its text children concatenated, comments skipped; none where
/// another kind of child appears.
pub open spec fn scalar_text_of(cs: Seq<XmlNode>) -> Option<Seq<char>>
    decreases cs.len(),
{
    if cs.len() == 0 {
        Some(seq![])
    } else {
        match scalar_text_of(cs.drop_last()) {
            None => None,
            Some(t) => {
                let c = cs.last();
                if c.kind == XmlKind::Text {
                    Some(t + c.text@)
                } else if c.kind == XmlKind::Comment {
                    Some(t)
                } else {
                    None
                }
            },
        }
    }
}

/// XML white space.
pub open spec fn xml_space(c: char) -> bool {
    c == ' ' || c == '\t' || c == '\r' || c == '\n'
}

/// A text child holds something other than XML white space.
pub open spec fn mixed_text(cs: Seq<XmlNode>) -> bool {
    exists|i: int, j: int|
        0 <= i < cs.len() && (#[trigger] cs[i]).kind == XmlKind::Text && 0 <= j < cs[i].text@.len()
            && !xml_space(#[trigger] cs[i].text@[j])
}

/// The value `dictionary_value` finds for `wanted` among the element pairs of a dict,
/// from pair position `i` on.
pub open spec fn dict_value_from(els: Seq<XmlNode>, i: int, wanted: Seq<char>) -> Result<
    Option<XmlNode>,
    BootConfigError,
>
    decreases els.len() - i,
{
    if i < 0 || i >= els.len() {
        Ok(None)
    } else if i + 1 >= els.len() {
        Err(BootConfigError::InvalidPlist)
    } else {
        match scalar_text_of(els[i].children@) {
            None => Err(BootConfigError::InvalidPlist),
            Some(k) => if k == wanted {
                Ok(Some(els[i + 1]))
            } else {
                dict_value_from(els, i + 2, wanted)
            },
        }
    }
}

/// The value of key `wanted` in the dict `dict`.
pub open spec fn dict_value(dict: XmlNode, wanted: Seq<char>) -> Result<Option<XmlNode>, BootConfigError> {
    dict_value_from(elements(dict.children@), 0, wanted)
}

fn tag_is(node: &XmlNode, tag: &str) -> (r: bool)
    ensures
        r == has_tag(*node, tag@),
{
    node.kind == XmlKind::Element && str_eq(node.name.as_str(), tag)
}

fn require_tag(node: &XmlNode, tag: &str) -> (r: Result<(), BootConfigError>)
    ensures
        r == if has_tag(*node, tag@) {
            Ok::<(), BootConfigError>(())
        } else {
            Err(BootConfigError::InvalidType)
        },
{
    if tag_is(node, tag) {
        Ok(())
    } else {
        Err(BootConfigError::InvalidType)
    }
}

/// The positions of the element children of `node`.
fn element_positions(node: &XmlNode) -> (r: Vec<usize>)
    ensures
        r@.len() == elements(node.children@).len(),
        forall|k: int|
            0 <= k < r@.len() ==> (#[trigger] r@[k]) < node.children@.len() && node.children@[r@[k] as int]
                == elements(node.children@)[k],
{
    let ghost cs = node.children@;
    let mut r: Vec<usize> = Vec::new();
    let mut i: usize = 0;
    while i < node.children.len()
        invariant
            cs == node.children@,
            i <= cs.len(),
            r@.len() == elements(cs.take(i as int)).len(),
            forall|k: int|
                0 <= k < r@.len() ==> (#[trigger] r@[k]) < cs.len() && cs[r@[k] as int] == elements(
                    cs.take(i as int),
                )[k],
        decreases cs.len() - i,
    {
        assert(cs.take(i as int + 1).drop_last() =~= cs.take(i as int));
        if node.children[i].kind == XmlKind::Element {
            r.push(i);
        }
        i = i + 1;
    }
    assert(cs.take(i as int) =~= cs);
    r
}

proof fn lemma_scalar_none_stays(cs: Seq<XmlNode>, k: int)
    requires
        0 <= k <= cs.len(),
        scalar_text_of(cs.take(k)) is None,
    ensures
        scalar_text_of(cs) is None,
    decreases cs.len() - k,
{
    if k < cs.len() {
        assert(cs.take(k + 1).drop_last() =~= cs.take(k));
        lemma_scalar_none_stays(cs, k + 1);
    } else {
        assert(cs.take(k) =~= cs);
    }
}

fn scalar_text(node: &XmlNode) -> (r: Result<String, BootConfigError>)
    ensures
        match scalar_text_of(node.children@) {
            Some(t) => r matches Ok(s) && s@ == t,
            None => r == Err::<String, BootConfigError>(BootConfigError::InvalidPlist),
        },
{
    let ghost cs = node.children@;
    let mut value = String::new();
    let mut i: usize = 0;
    while i < node.children.len()
        invariant
            cs == node.children@,
            i <= cs.len(),
            scalar_text_of(cs.take(i as int)) == Some(value@),
        decreases cs.len() - i,
    {
        assert(cs.take(i as int + 1).drop_last() =~= cs.take(i as int));
        let child = &node.children[i];
        if child.kind == XmlKind::Text {
            value.append(child.text.as_str());
        } else if child.kind != XmlKind::Comment {
            proof {
                lemma_scalar_none_stays(cs, i as int + 1);
            }
            return Err(BootConfigError::InvalidPlist);
        }
        i = i + 1;
    }
    assert(cs.take(i as int) =~= cs);
    Ok(value)
}

fn no_mixed_text(node: &XmlNode) -> (r: Result<(), BootConfigError>)
    ensures
        r == if mixed_text(node.children@) {
            Err::<(), BootConfigError>(BootConfigError::InvalidPlist)
        } else {
            Ok(())
        },
{
    let ghost cs = node.children@;
    let mut i: usize = 0;
    while i < node.children.len()
        invariant
            cs == node.children@,
            i <= cs.len(),
            forall|a: int, j: int|
                0 <= a < i && (#[trigger] cs[a]).kind == XmlKind::Text && 0 <= j < cs[a].text@.len()
                    ==> xml_space(#[trigger] cs[a].text@[j]),
        decreases cs.len() - i,
    {
        let child = &node.children[i];
        if child.kind == XmlKind::Text {
            let text = chars_of(child.text.as_str());
            let mut j: usize = 0;
            while j < text.len()
                invariant
                    cs == node.children@,
                    i < cs.len(),
                    cs[i as int].kind == XmlKind::Text,
                    text@ == cs[i as int].text@,
                    j <= text@.len(),
                    forall|b: int| 0 <= b < j ==> xml_space(#[trigger] text@[b]),
                decreases text@.len() - j,
            {
                let c = text[j];
                if !(c == ' ' || c == '\t' || c == '\r' || c == '\n') {
                    assert(!xml_space(cs[i as int].text@[j as int]));
                    return Err(BootConfigError::InvalidPlist);
                }
                j = j + 1;
            }
        }
        i = i + 1;
    }
    Ok(())
}

/// The child position of the value of key `wanted` in the dict `dict`.
fn dictionary_value(dict: &XmlNode, wanted: &str) -> (r: Result<Option<usize>, BootConfigError>)
    ensures
        match dict_value(*dict, wanted@) {
            Err(e) => r == Err::<Option<usize>, BootConfigError>(e),
            Ok(None) => r == Ok::<Option<usize>, BootConfigError>(None),
            Ok(Some(v)) => r matches Ok(Some(p)) && p < dict.children@.len() && dict.children@[p as int]
                == v,
        },
{
    let positions = element_positions(dict);
    let ghost els = elements(dict.children@);
    let mut i: usize = 0;
    while i < positions.len()
        invariant
            positions@.len() == els.len(),
            els == elements(dict.children@),
            forall|k: int|
                0 <= k < positions@.len() ==> (#[trigger] positions@[k]) < dict.children@.len()
                    && dict.children@[positions@[k] as int] == els[k],
            i <= els.len(),
            i % 2 == 0,
            dict_value(*dict, wanted@) == dict_value_from(els, i as int, wanted@),
        decreases els.len() - i,
    {
        if i + 1 >= positions.len() {
            return Err(BootConfigError::InvalidPlist);
        }
        let key = &dict.children[positions[i]];
        let text = scalar_text(key)?;
        if str_eq(text.as_str(), wanted) {
            return Ok(Some(positions[i + 1]));
        }
        i = i + 2;
    }
    Ok(None)
}

// ---------------------------------------------------------------------------
// Structure: a plist 1.0 root holding one dict, and only plist elements below it.

pub open spec fn as_result(o: Option<BootConfigError>) -> Result<(), BootConfigError> {
    match o {
        Some(e) => Err(e),
        None => Ok(()),
    }
}

/// The first problem of the key/value pairs of a dict from pair position `i` on, with
/// the keys in `seen` already used.
pub open spec fn dict_error(els: Seq<XmlNode>, i: int, seen: Seq<Seq<char>>) -> Option<BootConfigError>
    decreases els.len() - i,
{
    if i < 0 || i >= els.len() {
        None
    } else if !has_tag(els[i], "key"@) {
        Some(BootConfigError::InvalidType)
    } else {
        match scalar_text_of(els[i].children@) {
            None => Some(BootConfigError::InvalidPlist),
            Some(k) => if seen.contains(k) {
                Some(BootConfigError::DuplicateKey)
            } else if i + 1 >= els.len() || has_tag(els[i + 1], "key"@) {
                Some(BootConfigError::InvalidPlist)
            } else {
                dict_error(els, i + 2, seen.push(k))
            },
        }
    }
}

pub open spec fn any_key_child(cs: Seq<XmlNode>) -> bool {
    exists|i: int| 0 <= i < cs.len() && has_tag(#[trigger] cs[i], "key"@)
}

/// The elements whose content is text only.
pub open spec fn scalar_tag(name: Seq<char>) -> bool {
    name == "key"@ || name == "string"@ || name == "integer"@ || name == "real"@ || name == "date"@
        || name == "data"@
}

/// The problem of one element at element depth `depth`, counting itself; `is_root` for
/// the document's root element.
pub open spec fn element_error(n: XmlNode, depth: int, is_root: bool) -> Option<BootConfigError> {
    if depth > MAX_XML_DEPTH {
        Some(BootConfigError::DepthLimit)
    } else if n.namespaced || (!is_root && n.attributes@.len() != 0) {
        Some(BootConfigError::InvalidPlist)
    } else if n.name@ == "plist"@ {
        let els = elements(n.children@);
        if mixed_text(n.children@) || !is_root || els.len() != 1 || !has_tag(els[0], "dict"@) {
            Some(BootConfigError::InvalidPlist)
        } else {
            None
        }
    } else if n.name@ == "dict"@ {
        if mixed_text(n.children@) {
            Some(BootConfigError::InvalidPlist)
        } else {
            dict_error(elements(n.children@), 0, seq![])
        }
    } else if n.name@ == "array"@ {
        if mixed_text(n.children@) || any_key_child(n.children@) {
            Some(BootConfigError::InvalidPlist)
        } else {
            None
        }
    } else if scalar_tag(n.name@) {
        if scalar_text_of(n.children@) is None {
            Some(BootConfigError::InvalidPlist)
        } else {
            None
        }
    } else if n.name@ == "true"@ || n.name@ == "false"@ {
        match scalar_text_of(n.children@) {
            Some(t) if t.len() == 0 => None,
            _ => Some(BootConfigError::InvalidPlist),
        }
    } else {
        Some(BootConfigError::InvalidType)
    }
}

/// The position of the first element among `cs` from `k` on, or -1.
pub open spec fn first_element_at(cs: Seq<XmlNode>, k: int) -> int
    decreases cs.len() - k,
{
    if k < 0 || k >= cs.len() {
        -1
    } else if cs[k].kind == XmlKind::Element {
        k
    } else {
        first_element_at(cs, k + 1)
    }
}

/// The first problem in document order within `n`, which has `depth` element ancestors.
pub open spec fn node_error(n: XmlNode, depth: int, is_root: bool) -> Option<BootConfigError>
    decreases n, 1int,
{
    if n.kind == XmlKind::ProcessingInstruction {
        Some(BootConfigError::InvalidPlist)
    } else if n.kind == XmlKind::Element && element_error(n, depth + 1, is_root) is Some {
        element_error(n, depth + 1, is_root)
    } else {
        children_error(
            n.children@,
            0,
            if n.kind == XmlKind::Element {
                depth + 1
            } else {
                depth
            },
            if n.kind == XmlKind::Root {
                first_element_at(n.children@, 0)
            } else {
                -1
            },
        )
    }
}

/// The first problem in document order within `cs` from `k` on; the child at `root_at`
/// is the root element.
pub open spec fn children_error(cs: Seq<XmlNode>, k: int, depth: int, root_at: int) -> Option<
    BootConfigError,
>
    decreases cs, cs.len() - k,
{
    if k < 0 || k >= cs.len() {
        None
    } else {
        match node_error(cs[k], depth, k == root_at) {
            Some(e) => Some(e),
            None => children_error(cs, k + 1, depth, root_at),
        }
    }
}

/// The first structural problem of a parsed document.
pub open spec fn structure_error(doc: XmlNode) -> Option<BootConfigError> {
    match first_element(doc.children@) {
        None => Some(BootConfigError::InvalidPlist),
        Some(root) => if !(has_tag(root, "plist"@) && root.attributes@.len() == 1
            && root.attributes@[0].name@ == "version"@ && root.attributes@[0].value@ == "1.0"@) {
            Some(BootConfigError::InvalidPlist)
        } else {
            node_error(doc, 0, false)
        },
    }
}

fn contains_text(seen: &Vec<String>, t: &str) -> (r: bool)
    ensures
        r == seen@.map_values(|s: String| s@).contains(t@),
{
    let ghost view = seen@.map_values(|s: String| s@);
    let mut i: usize = 0;
    while i < seen.len()
        invariant
            view == seen@.map_values(|s: String| s@),
            i <= seen@.len(),
            forall|j: int| 0 <= j < i ==> (#[trigger] view[j]) != t@,
        decreases seen@.len() - i,
    {
        if str_eq(seen[i].as_str(), t) {
            assert(view[i as int] == t@);
            return true;
        }
        i = i + 1;
    }
    false
}

fn check_dict(node: &XmlNode) -> (r: Result<(), BootConfigError>)
    ensures
        r == as_result(dict_error(elements(node.children@), 0, seq![])),
{
    let positions = element_positions(node);
    let ghost els = elements(node.children@);
    let mut seen: Vec<String> = Vec::new();
    assert(seen@.map_values(|s: String| s@) =~= seq![]);
    let mut i: usize = 0;
    while i < positions.len()
        invariant
            positions@.len() == els.len(),
            els == elements(node.children@),
            forall|k: int|
                0 <= k < positions@.len() ==> (#[trigger] positions@[k]) < node.children@.len()
                    && node.children@[positions@[k] as int] == els[k],
            i <= els.len() + 1,
            dict_error(els, 0, seq![]) == dict_error(
                els,
                i as int,
                seen@.map_values(|s: String| s@),
            ),
        decreases els.len() + 1 - i,
    {
        let key = &node.children[positions[i]];
        if !tag_is(key, "key") {
            return Err(BootConfigError::InvalidType);
        }
        let text = scalar_text(key)?;
        if contains_text(&seen, text.as_str()) {
            return Err(BootConfigError::DuplicateKey);
        }
        if i + 1 >= positions.len() || tag_is(&node.children[positions[i + 1]], "key") {
            return Err(BootConfigError::InvalidPlist);
        }
        let ghost before = seen@;
        let ghost t = text@;
        seen.push(text);
        assert(seen@.map_values(|s: String| s@) =~= before.map_values(|s: String| s@).push(t));
        i = i + 2;
    }
    Ok(())
}

#[verifier::loop_isolation(false)]
fn check_element(n: &XmlNode, depth: usize, is_root: bool) -> (r: Result<(), BootConfigError>)
    requires
        n.kind == XmlKind::Element,
    ensures
        r == as_result(element_error(*n, depth as int, is_root)),
{
    if depth > MAX_XML_DEPTH {
        return Err(BootConfigError::DepthLimit);
    }
    if n.namespaced || (!is_root && n.attributes.len() != 0) {
        return Err(BootConfigError::InvalidPlist);
    }
    let name = n.name.as_str();
    if str_eq(name, "plist") {
        no_mixed_text(n)?;
        let positions = element_positions(n);
        if !is_root || positions.len() != 1 || !tag_is(&n.children[positions[0]], "dict") {
            return Err(BootConfigError::InvalidPlist);
        }
        Ok(())
    } else if str_eq(name, "dict") {
        no_mixed_text(n)?;
        check_dict(n)
    } else if str_eq(name, "array") {
        no_mixed_text(n)?;
        let mut i: usize = 0;
        while i < n.children.len()
            invariant
                i <= n.children@.len(),
                forall|j: int| 0 <= j < i ==> !has_tag(#[trigger] n.children@[j], "key"@),
            decreases n.children@.len() - i,
        {
            if tag_is(&n.children[i], "key") {
                return Err(BootConfigError::InvalidPlist);
            }
            i = i + 1;
        }
        Ok(())
    } else if str_eq(name, "key") || str_eq(name, "string") || str_eq(name, "integer") || str_eq(
        name,
        "real",
    ) || str_eq(name, "date") || str_eq(name, "data") {
        scalar_text(n)?;
        Ok(())
    } else if str_eq(name, "true") || str_eq(name, "false") {
        let text = scalar_text(n)?;
        if !text.as_str().is_empty() {
            return Err(BootConfigError::InvalidPlist);
        }
        Ok(())
    } else {
        Err(BootConfigError::InvalidType)
    }
}

fn check_node(n: &XmlNode, depth: usize, is_root: bool) -> (r: Result<(), BootConfigError>)
    requires
        depth <= MAX_XML_DEPTH,
    ensures
        r == as_result(node_error(*n, depth as int, is_root)),
    decreases n,
{
    if n.kind == XmlKind::ProcessingInstruction {
        return Err(BootConfigError::InvalidPlist);
    }
    let mut inner = depth;
    if n.kind == XmlKind::Element {
        check_element(n, depth + 1, is_root)?;
        inner = depth + 1;
    }
    let root_at: Option<usize> = if n.kind == XmlKind::Root {
        first_element_position(n)
    } else {
        None
    };
    let ghost root_index: int = match root_at {
        Some(p) => p as int,
        None => -1,
    };
    let ghost cs = n.children@;
    let mut k: usize = 0;
    while k < n.children.len()
        invariant
            cs == n.children@,
            k <= cs.len(),
            inner <= MAX_XML_DEPTH,
            inner == if n.kind == XmlKind::Element {
                depth + 1
            } else {
                depth as int
            },
            root_index == if n.kind == XmlKind::Root {
                first_element_at(cs, 0)
            } else {
                -1
            },
            root_index == match root_at {
                Some(p) => p as int,
                None => -1,
            },
            node_error(*n, depth as int, is_root) == children_error(cs, k as int, inner as int, root_index),
        decreases cs.len() - k,
    {
        proof {
            assert(decreases_to!(*n => n.children));
        }
        let child_is_root = match root_at {
            Some(p) => k == p,
            None => false,
        };
        assert(child_is_root == (k as int == root_index));
        assert(children_error(cs, k as int, inner as int, root_index) == match node_error(
            cs[k as int],
            inner as int,
            child_is_root,
        ) {
            Some(e) => Some(e),
            None => children_error(cs, k + 1, inner as int, root_index),
        });
        let checked = check_node(&n.children[k], inner, child_is_root);
        if let Err(e) = checked {
            return Err(e);
        }
        k = k + 1;
    }
    Ok(())
}

/// The position of the first element child of `n`.
fn first_element_position(n: &XmlNode) -> (r: Option<usize>)
    ensures
        match r {
            Some(p) => p == first_element_at(n.children@, 0) && p < n.children@.len(),
            None => first_element_at(n.children@, 0) == -1,
        },
{
    let mut k: usize = 0;
    while k < n.children.len()
        invariant
            k <= n.children@.len(),
            first_element_at(n.children@, 0) == first_element_at(n.children@, k as int),
        decreases n.children@.len() - k,
    {
        if n.children[k].kind == XmlKind::Element {
            return Some(k);
        }
        k = k + 1;
    }
    None
}

proof fn lemma_first_element(cs: Seq<XmlNode>, k: int)
    requires
        0 <= k <= cs.len(),
        forall|j: int| 0 <= j < k ==> (#[trigger] cs[j]).kind != XmlKind::Element,
    ensures
        first_element_at(cs, k) == -1 <==> elements(cs).len() == 0,
        first_element_at(cs, k) != -1 ==> 0 <= first_element_at(cs, k) < cs.len()
            && cs[first_element_at(cs, k)] == elements(cs)[0],
    decreases cs.len() - k,
{
    if k < cs.len() && cs[k].kind != XmlKind::Element {
        lemma_first_element(cs, k + 1);
    } else {
        lemma_elements_first(cs, k);
    }
}

/// Before the first element, `elements` is empty; at it, it starts.
proof fn lemma_elements_first(cs: Seq<XmlNode>, k: int)
    requires
        0 <= k <= cs.len(),
        forall|j: int| 0 <= j < k ==> (#[trigger] cs[j]).kind != XmlKind::Element,
        k < cs.len() ==> cs[k].kind == XmlKind::Element,
    ensures
        k == cs.len() ==> elements(cs).len() == 0,
        k < cs.len() ==> elements(cs).len() > 0 && elements(cs)[0] == cs[k],
    decreases cs.len(),
{
    if cs.len() > 0 {
        if k == cs.len() {
            lemma_elements_first(cs.drop_last(), k - 1);
        } else if k < cs.len() - 1 {
            lemma_elements_first(cs.drop_last(), k);
            lemma_elements_prefix(cs.drop_last());
        } else {
            lemma_elements_first(cs.drop_last(), k);
        }
    }
}

proof fn lemma_elements_prefix(cs: Seq<XmlNode>)
    requires
        cs.len() > 0,
    ensures
        elements(cs.drop_last()).len() <= elements(cs).len(),
        forall|i: int|
            0 <= i < elements(cs.drop_last()).len() ==> #[trigger] elements(cs)[i] == elements(
                cs.drop_last(),
            )[i],
{
}

/// The first structural problem of a parsed document, as `validate_structure` reports it.
pub fn validate_structure(document: &XmlNode) -> (r: Result<(), BootConfigError>)
    ensures
        r == as_result(structure_error(*document)),
{
    let root_at = first_element_position(document);
    proof {
        lemma_first_element(document.children@, 0);
    }
    let root = match root_at {
        Some(p) => &document.children[p],
        None => return Err(BootConfigError::InvalidPlist),
    };
    assert(first_element(document.children@) == Some(*root));
    if !tag_is(root, "plist") || root.attributes.len() != 1 || !str_eq(
        root.attributes[0].name.as_str(),
        "version",
    ) || !str_eq(root.attributes[0].value.as_str(), "1.0") {
        return Err(BootConfigError::InvalidPlist);
    }
    check_node(document, 0, false)
}

// ---------------------------------------------------------------------------
// Paths.

/// A character a path may hold: UCS-2, not a control, not reserved by the filesystem.
pub open spec fn path_char_ok(c: char) -> bool {
    (c as u32) <= 0xffff && !is_control(c) && c != ':' && c != '*' && c != '?' && c != '"' && c
        != '<' && c != '>' && c != '|'
}

/// `p` with every `/` turned into `\`.
pub open spec fn with_backslashes(p: Seq<char>) -> Seq<char> {
    p.map_values(|c: char| if c == '/' { '\\' } else { c })
}

/// The text after the leading separator splits into components that are each nonempty
/// and end in neither `.` nor a space (which also rules out `.` and `..`).
pub open spec fn components_ok(t: Seq<char>) -> bool {
    &&& t.len() > 0
    &&& t[0] != '\\'
    &&& t.last() != '\\' && t.last() != '.' && t.last() != ' '
    &&& forall|i: int|
        0 <= i < t.len() - 1 && #[trigger] t[i + 1] == '\\' ==> t[i] != '\\' && t[i] != '.' && t[i]
            != ' '
}

/// An absolute path, normalized to backslashes, or why it is refused.
pub open spec fn absolute_path(p: Seq<char>) -> Result<Seq<char>, BootConfigError> {
    if utf16_len(p) > MAX_PATH_UTF16_UNITS {
        Err(BootConfigError::PathTooLong)
    } else if exists|i: int| 0 <= i < p.len() && !path_char_ok(#[trigger] p[i]) {
        Err(BootConfigError::InvalidPath)
    } else {
        let n = with_backslashes(p);
        if n.len() == 0 || n[0] != '\\' || !components_ok(n.subrange(1, n.len() as int)) {
            Err(BootConfigError::InvalidPath)
        } else {
            Ok(n)
        }
    }
}

/// The path ends in the extension `.efi`, in any ASCII case.
pub open spec fn efi_extension(s: Seq<char>) -> bool {
    let n = s.len() as int;
    &&& n >= 4
    &&& s[n - 4] == '.'
    &&& (s[n - 3] == 'e' || s[n - 3] == 'E')
    &&& (s[n - 2] == 'f' || s[n - 2] == 'F')
    &&& (s[n - 1] == 'i' || s[n - 1] == 'I')
}

/// An absolute path to an EFI image, or why it is refused.
pub open spec fn efi_path(p: Seq<char>) -> Result<Seq<char>, BootConfigError> {
    match absolute_path(p) {
        Err(e) => Err(e),
        Ok(n) => if efi_extension(n) {
            Ok(n)
        } else {
            Err(BootConfigError::InvalidPath)
        },
    }
}

fn path_char_allowed(c: char) -> (r: bool)
    ensures
        r == path_char_ok(c),
{
    (c as u32) <= 0xffff && !char_is_control(c) && c != ':' && c != '*' && c != '?' && c != '"'
        && c != '<' && c != '>' && c != '|'
}

#[verifier::loop_isolation(false)]
fn normalize_absolute_path(path: &str) -> (r: Result<String, BootConfigError>)
    ensures
        match absolute_path(path@) {
            Ok(n) => r matches Ok(s) && s@ == n,
            Err(e) => r == Err::<String, BootConfigError>(e),
        },
{
    let chars = chars_of(path);
    if utf16_count(&chars, MAX_PATH_UTF16_UNITS) > MAX_PATH_UTF16_UNITS {
        return Err(BootConfigError::PathTooLong);
    }
    let mut normalized: Vec<char> = Vec::new();
    let mut i: usize = 0;
    while i < chars.len()
        invariant
            chars@ == path@,
            i <= chars@.len(),
            forall|j: int| 0 <= j < i ==> path_char_ok(#[trigger] chars@[j]),
            normalized@ == with_backslashes(chars@.take(i as int)),
        decreases chars@.len() - i,
    {
        let c = chars[i];
        if !path_char_allowed(c) {
            return Err(BootConfigError::InvalidPath);
        }
        normalized.push(if c == '/' { '\\' } else { c });
        i = i + 1;
        assert(normalized@ =~= with_backslashes(chars@.take(i as int)));
    }
    assert(chars@.take(i as int) =~= chars@);
    let ghost n = normalized@;
    if normalized.len() == 0 || normalized[0] != '\\' {
        return Err(BootConfigError::InvalidPath);
    }
    let ghost t = n.subrange(1, n.len() as int);
    let len = normalized.len();
    if len == 1 || normalized[1] == '\\' {
        return Err(BootConfigError::InvalidPath);
    }
    let last = normalized[len - 1];
    if last == '\\' || last == '.' || last == ' ' {
        return Err(BootConfigError::InvalidPath);
    }
    let mut k: usize = 1;
    while k + 1 < len
        invariant
            n == normalized@,
            len == n.len(),
            t == n.subrange(1, n.len() as int),
            1 <= k,
            k < len,
            forall|i: int|
                0 <= i < k - 1 && #[trigger] t[i + 1] == '\\' ==> t[i] != '\\' && t[i] != '.' && t[i]
                    != ' ',
        decreases len - k,
    {
        if normalized[k + 1] == '\\' {
            let c = normalized[k];
            if c == '\\' || c == '.' || c == ' ' {
                assert(t[k - 1 + 1] == '\\');
                return Err(BootConfigError::InvalidPath);
            }
        }
        k = k + 1;
    }
    assert(components_ok(t));
    Ok(string_of(normalized.as_slice()))
}

fn normalize_path(path: &str) -> (r: Result<String, BootConfigError>)
    ensures
        match efi_path(path@) {
            Ok(n) => r matches Ok(s) && s@ == n,
            Err(e) => r == Err::<String, BootConfigError>(e),
        },
{
    let normalized = normalize_absolute_path(path)?;
    let chars = chars_of(normalized.as_str());
    let n = chars.len();
    if n < 4 || chars[n - 4] != '.' || !(chars[n - 3] == 'e' || chars[n - 3] == 'E') || !(chars[n
        - 2] == 'f' || chars[n - 2] == 'F') || !(chars[n - 1] == 'i' || chars[n - 1] == 'I') {
        return Err(BootConfigError::InvalidPath);
    }
    Ok(normalized)
}

// ---------------------------------------------------------------------------
// Boot entries.

/// A `<true/>` or `<false/>` flag, false where absent.
pub open spec fn flag_of(v: Option<XmlNode>) -> Result<bool, BootConfigError> {
    match v {
        None => Ok(false),
        Some(x) => if has_tag(x, "true"@) {
            Ok(true)
        } else if has_tag(x, "false"@) {
            Ok(false)
        } else {
            Err(BootConfigError::InvalidType)
        },
    }
}

/// The text of a `<string>`.
pub open spec fn string_value(v: XmlNode) -> Result<Seq<char>, BootConfigError> {
    if !has_tag(v, "string"@) {
        Err(BootConfigError::InvalidType)
    } else {
        match scalar_text_of(v.children@) {
            None => Err(BootConfigError::InvalidPlist),
            Some(t) => Ok(t),
        }
    }
}

/// An entry's arguments: control-free and within the UTF-16 bound; empty where absent.
pub open spec fn arguments_of(v: Option<XmlNode>) -> Result<Seq<char>, BootConfigError> {
    match v {
        None => Ok(seq![]),
        Some(x) => match string_value(x) {
            Err(e) => Err(e),
            Ok(t) => if any_control(t) {
                Err(BootConfigError::InvalidArguments)
            } else if utf16_len(t) > MAX_ARGUMENTS_UTF16_UNITS {
                Err(BootConfigError::ArgumentsTooLong)
            } else {
                Ok(t)
            },
        },
    }
}

/// An entry's EFI path, where present.
pub open spec fn entry_path_of(v: Option<XmlNode>) -> Result<Option<Seq<char>>, BootConfigError> {
    match v {
        None => Ok(None),
        Some(x) => match string_value(x) {
            Err(e) => Err(e),
            Ok(t) => match efi_path(t) {
                Err(e) => Err(e),
                Ok(p) => Ok(Some(p)),
            },
        },
    }
}

/// An entry's `Enabled` flag, `Path` and `Arguments`, read in that order.
pub open spec fn entry_fields(entry: XmlNode) -> Result<(bool, Option<Seq<char>>, Seq<char>), BootConfigError> {
    if !has_tag(entry, "dict"@) {
        Err(BootConfigError::InvalidType)
    } else {
        match dict_value(entry, "Enabled"@) {
            Err(e) => Err(e),
            Ok(en) => match flag_of(en) {
                Err(e) => Err(e),
                Ok(enabled) => match dict_value(entry, "Path"@) {
                    Err(e) => Err(e),
                    Ok(pv) => match entry_path_of(pv) {
                        Err(e) => Err(e),
                        Ok(path) => match dict_value(entry, "Arguments"@) {
                            Err(e) => Err(e),
                            Ok(av) => match arguments_of(av) {
                                Err(e) => Err(e),
                                Ok(args) => Ok((enabled, path, args)),
                            },
                        },
                    },
                },
            },
        }
    }
}

/// The child of `node` at `p`, where there is one.
pub open spec fn child_at(node: XmlNode, p: Option<usize>) -> Option<XmlNode> {
    match p {
        Some(i) => Some(node.children@[i as int]),
        None => None,
    }
}

fn flag_value(node: &XmlNode, p: Option<usize>) -> (r: Result<bool, BootConfigError>)
    requires
        p matches Some(i) ==> i < node.children@.len(),
    ensures
        r == flag_of(child_at(*node, p)),
{
    match p {
        None => Ok(false),
        Some(i) => {
            let v = &node.children[i];
            if tag_is(v, "true") {
                Ok(true)
            } else if tag_is(v, "false") {
                Ok(false)
            } else {
                Err(BootConfigError::InvalidType)
            }
        },
    }
}

fn string_text(v: &XmlNode) -> (r: Result<String, BootConfigError>)
    ensures
        match string_value(*v) {
            Ok(t) => r matches Ok(s) && s@ == t,
            Err(e) => r == Err::<String, BootConfigError>(e),
        },
{
    require_tag(v, "string")?;
    scalar_text(v)
}

fn arguments_value(node: &XmlNode, p: Option<usize>) -> (r: Result<String, BootConfigError>)
    requires
        p matches Some(i) ==> i < node.children@.len(),
    ensures
        match arguments_of(child_at(*node, p)) {
            Ok(t) => r matches Ok(s) && s@ == t,
            Err(e) => r == Err::<String, BootConfigError>(e),
        },
{
    match p {
        None => Ok(String::new()),
        Some(i) => {
            let text = string_text(&node.children[i])?;
            let chars = chars_of(text.as_str());
            if has_control(&chars) {
                return Err(BootConfigError::InvalidArguments);
            }
            if utf16_count(&chars, MAX_ARGUMENTS_UTF16_UNITS) > MAX_ARGUMENTS_UTF16_UNITS {
                return Err(BootConfigError::ArgumentsTooLong);
            }
            Ok(text)
        },
    }
}

fn entry_path_value(node: &XmlNode, p: Option<usize>) -> (r: Result<Option<String>, BootConfigError>)
    requires
        p matches Some(i) ==> i < node.children@.len(),
    ensures
        match entry_path_of(child_at(*node, p)) {
            Ok(None) => r matches Ok(None),
            Ok(Some(t)) => r matches Ok(Some(s)) && s@ == t,
            Err(e) => r == Err::<Option<String>, BootConfigError>(e),
        },
{
    match p {
        None => Ok(None),
        Some(i) => {
            let text = string_text(&node.children[i])?;
            let path = normalize_path(text.as_str())?;
            Ok(Some(path))
        },
    }
}

/// Reads an entry's enabled flag, path and arguments.
fn read_entry(entry: &XmlNode) -> (r: Result<(bool, Option<String>, String), BootConfigError>)
    ensures
        match entry_fields(*entry) {
            Ok((enabled, path, args)) => r matches Ok((e, p, a)) && e == enabled && a@ == args && match path {
                None => p is None,
                Some(t) => p matches Some(s) && s@ == t,
            },
            Err(e) => r == Err::<(bool, Option<String>, String), BootConfigError>(e),
        },
{
    require_tag(entry, "dict")?;
    let enabled = flag_value(entry, dictionary_value(entry, "Enabled")?)?;
    let path = entry_path_value(entry, dictionary_value(entry, "Path")?)?;
    let arguments = arguments_value(entry, dictionary_value(entry, "Arguments")?)?;
    Ok((enabled, path, arguments))
}

/// Selecting among `entries` from `k` on, with `selected` chosen so far: the one enabled
/// entry, none, or the first problem.
pub open spec fn select_from(
    entries: Seq<XmlNode>,
    k: int,
    selected: Option<(Seq<char>, Seq<char>)>,
) -> Result<Option<(Seq<char>, Seq<char>)>, BootConfigError>
    decreases entries.len() - k,
{
    if k < 0 || k >= entries.len() {
        Ok(selected)
    } else if k >= MAX_ENTRIES {
        Err(BootConfigError::EntryLimit)
    } else {
        match entry_fields(entries[k]) {
            Err(e) => Err(e),
            Ok((enabled, path, args)) => if !enabled {
                select_from(entries, k + 1, selected)
            } else if selected is Some {
                Err(BootConfigError::AmbiguousTarget)
            } else {
                match path {
                    None => Err(BootConfigError::MissingPath),
                    Some(p) => select_from(entries, k + 1, Some((p, args))),
                }
            },
        }
    }
}

/// The dict directly under the document's root element.
pub open spec fn plist_dict(doc: XmlNode) -> Option<XmlNode> {
    match first_element(doc.children@) {
        None => None,
        Some(root) => first_element(root.children@),
    }
}

/// `Misc.Entries` of a document, where present: `Ok(None)` where either is absent.
pub open spec fn misc_entries(doc: XmlNode) -> Result<Option<XmlNode>, BootConfigError> {
    match plist_dict(doc) {
        None => Err(BootConfigError::InvalidPlist),
        Some(dict) => match dict_value(dict, "Misc"@) {
            Err(e) => Err(e),
            Ok(None) => Ok(None),
            Ok(Some(misc)) => if !has_tag(misc, "dict"@) {
                Err(BootConfigError::InvalidType)
            } else {
                match dict_value(misc, "Entries"@) {
                    Err(e) => Err(e),
                    Ok(None) => Ok(None),
                    Ok(Some(entries)) => if !has_tag(entries, "array"@) {
                        Err(BootConfigError::InvalidType)
                    } else {
                        Ok(Some(entries))
                    },
                }
            },
        },
    }
}

/// The single boot target a document selects, as (path, arguments).
pub open spec fn boot_target_of(doc: XmlNode) -> Result<Option<(Seq<char>, Seq<char>)>, BootConfigError> {
    match misc_entries(doc) {
        Err(e) => Err(e),
        Ok(None) => Ok(None),
        Ok(Some(entries)) => select_from(elements(entries.children@), 0, None),
    }
}

/// `target` is the (path, arguments) pair `t`.
pub open spec fn target_is(target: BootTarget, t: (Seq<char>, Seq<char>)) -> bool {
    target.path@ == t.0 && target.arguments@ == t.1
}

/// The dict directly under the root element of a document.
fn dictionary_of(document: &XmlNode) -> (r: Result<&XmlNode, BootConfigError>)
    ensures
        match plist_dict(*document) {
            Some(d) => r matches Ok(x) && *x == d,
            None => r == Err::<&XmlNode, BootConfigError>(BootConfigError::InvalidPlist),
        },
{
    proof {
        lemma_first_element(document.children@, 0);
    }
    let root = match first_element_position(document) {
        Some(p) => &document.children[p],
        None => return Err(BootConfigError::InvalidPlist),
    };
    proof {
        lemma_first_element(root.children@, 0);
    }
    match first_element_position(root) {
        Some(p) => Ok(&root.children[p]),
        None => Err(BootConfigError::InvalidPlist),
    }
}

fn entries_of(document: &XmlNode) -> (r: Result<Option<&XmlNode>, BootConfigError>)
    ensures
        match misc_entries(*document) {
            Err(e) => r == Err::<Option<&XmlNode>, BootConfigError>(e),
            Ok(None) => r matches Ok(None),
            Ok(Some(x)) => r matches Ok(Some(y)) && *y == x,
        },
{
    let dictionary = dictionary_of(document)?;
    let misc = match dictionary_value(dictionary, "Misc")? {
        None => return Ok(None),
        Some(p) => &dictionary.children[p],
    };
    require_tag(misc, "dict")?;
    let entries = match dictionary_value(misc, "Entries")? {
        None => return Ok(None),
        Some(p) => &misc.children[p],
    };
    require_tag(entries, "array")?;
    Ok(Some(entries))
}

/// Select exactly one enabled EFI entry of a parsed document, or `None` when none is
/// enabled.
pub fn select_boot_target(document: &XmlNode) -> (r: Result<Option<BootTarget>, BootConfigError>)
    ensures
        match boot_target_of(*document) {
            Err(e) => r == Err::<Option<BootTarget>, BootConfigError>(e),
            Ok(None) => r matches Ok(None),
            Ok(Some(t)) => r matches Ok(Some(x)) && target_is(x, t),
        },
{
    let entries = match entries_of(document)? {
        None => return Ok(None),
        Some(e) => e,
    };
    let positions = element_positions(entries);
    let ghost els = elements(entries.children@);
    let mut selected: Option<BootTarget> = None;
    let ghost mut chosen: Option<(Seq<char>, Seq<char>)> = None;
    let mut index: usize = 0;
    while index < positions.len()
        invariant
            positions@.len() == els.len(),
            els == elements(entries.children@),
            forall|k: int|
                0 <= k < positions@.len() ==> (#[trigger] positions@[k]) < entries.children@.len()
                    && entries.children@[positions@[k] as int] == els[k],
            index <= els.len(),
            boot_target_of(*document) == select_from(els, index as int, chosen),
            match chosen {
                None => selected is None,
                Some(t) => selected matches Some(x) && target_is(x, t),
            },
        decreases els.len() - index,
    {
        if index >= MAX_ENTRIES {
            return Err(BootConfigError::EntryLimit);
        }
        let entry = &entries.children[positions[index]];
        let (enabled, path, arguments) = read_entry(entry)?;
        if enabled {
            if selected.is_some() {
                return Err(BootConfigError::AmbiguousTarget);
            }
            let path = match path {
                Some(p) => p,
                None => return Err(BootConfigError::MissingPath),
            };
            proof {
                chosen = Some((path@, arguments@));
            }
            selected = Some(BootTarget { path, arguments });
        }
        index = index + 1;
    }
    Ok(selected)
}

// ---------------------------------------------------------------------------
// The keyboard boot menu.

pub open spec fn digit_char(d: int) -> char {
    (48 + d) as char
}

/// The decimal digits of `n`.
pub open spec fn decimal(n: nat) -> Seq<char>
    decreases n,
{
    if n < 10 {
        seq![digit_char(n as int)]
    } else {
        decimal(n / 10).push(digit_char((n % 10) as int))
    }
}

/// The label of entry `index` when it shows no name of its own.
pub open spec fn entry_label(index: int) -> Seq<char> {
    "EFI entry "@ + decimal((index + 1) as nat)
}

/// A display name: not blank, control-free, at most 64 UTF-16 units.
pub open spec fn display_name_ok(t: Seq<char>) -> bool {
    &&& !(forall|i: int| 0 <= i < t.len() ==> is_white_space(#[trigger] t[i]))
    &&& !any_control(t)
    &&& utf16_len(t) <= 64
}

/// An entry's shown name: its `Name` where the picker is shown and one is given, else its
/// label.
pub open spec fn entry_name(entry: XmlNode, index: int, show: bool) -> Result<Seq<char>, BootConfigError> {
    if !show {
        Ok(entry_label(index))
    } else {
        match dict_value(entry, "Name"@) {
            Err(e) => Err(e),
            Ok(None) => Ok(entry_label(index)),
            Ok(Some(v)) => match string_value(v) {
                Err(e) => Err(e),
                Ok(t) => if display_name_ok(t) {
                    Ok(t)
                } else {
                    Err(BootConfigError::InvalidDisplayName)
                },
            },
        }
    }
}

/// Building the menu from `entries` from `k` on, with `acc` so far as (name, path,
/// arguments) triples.
pub open spec fn menu_from(
    entries: Seq<XmlNode>,
    k: int,
    show: bool,
    acc: Seq<(Seq<char>, Seq<char>, Seq<char>)>,
) -> Result<Seq<(Seq<char>, Seq<char>, Seq<char>)>, BootConfigError>
    decreases entries.len() - k,
{
    if k < 0 || k >= entries.len() {
        Ok(acc)
    } else if k >= MAX_ENTRIES {
        Err(BootConfigError::EntryLimit)
    } else {
        match entry_fields(entries[k]) {
            Err(e) => Err(e),
            Ok((enabled, path, args)) => match entry_name(entries[k], k, show) {
                Err(e) => Err(e),
                Ok(name) => if !enabled {
                    menu_from(entries, k + 1, show, acc)
                } else if !show && acc.len() > 0 {
                    Err(BootConfigError::AmbiguousTarget)
                } else {
                    match path {
                        None => Err(BootConfigError::MissingPath),
                        Some(p) => menu_from(entries, k + 1, show, acc.push((name, p, args))),
                    }
                },
            },
        }
    }
}

/// `Misc.Boot.ShowPicker` of the `Misc` dict.
pub open spec fn show_picker_of(misc: XmlNode) -> Result<bool, BootConfigError> {
    match dict_value(misc, "Boot"@) {
        Err(e) => Err(e),
        Ok(None) => Ok(false),
        Ok(Some(boot)) => if !has_tag(boot, "dict"@) {
            Err(BootConfigError::InvalidType)
        } else {
            match dict_value(boot, "ShowPicker"@) {
                Err(e) => Err(e),
                Ok(v) => flag_of(v),
            }
        },
    }
}

/// The menu a document describes: whether to show the picker, and its entries.
pub open spec fn boot_menu_of(doc: XmlNode) -> Result<(bool, Seq<(Seq<char>, Seq<char>, Seq<char>)>), BootConfigError> {
    match plist_dict(doc) {
        None => Err(BootConfigError::InvalidPlist),
        Some(dict) => match dict_value(dict, "Misc"@) {
            Err(e) => Err(e),
            Ok(None) => Ok((false, seq![])),
            Ok(Some(misc)) => if !has_tag(misc, "dict"@) {
                Err(BootConfigError::InvalidType)
            } else {
                match show_picker_of(misc) {
                    Err(e) => Err(e),
                    Ok(show) => match dict_value(misc, "Entries"@) {
                        Err(e) => Err(e),
                        Ok(None) => Ok((show, seq![])),
                        Ok(Some(entries)) => if !has_tag(entries, "array"@) {
                            Err(BootConfigError::InvalidType)
                        } else {
                            match menu_from(elements(entries.children@), 0, show, seq![]) {
                                Err(e) => Err(e),
                                Ok(es) => Ok((show, es)),
                            }
                        },
                    },
                }
            },
        },
    }
}

/// `menu` shows the picker as `show` and holds exactly the entries `es`.
pub open spec fn menu_is(menu: BootMenu, show: bool, es: Seq<(Seq<char>, Seq<char>, Seq<char>)>) -> bool {
    &&& menu.show_picker == show
    &&& menu.entries@.len() == es.len()
    &&& forall|i: int|
        0 <= i < es.len() ==> (#[trigger] menu.entries@[i]).name@ == es[i].0
            && menu.entries@[i].target.path@ == es[i].1 && menu.entries@[i].target.arguments@
            == es[i].2
}

/// The label "EFI entry N" for entry `index`.
fn entry_label_text(index: usize) -> (r: String)
    requires
        index < MAX_ENTRIES,
    ensures
        r@ == entry_label(index as int),
{
    let n = index + 1;
    let mut chars: Vec<char> = Vec::new();
    let label = chars_of("EFI entry ");
    let mut i: usize = 0;
    while i < label.len()
        invariant
            i <= label@.len(),
            chars@ == label@.take(i as int),
        decreases label@.len() - i,
    {
        chars.push(label[i]);
        i = i + 1;
        assert(chars@ =~= label@.take(i as int));
    }
    assert(label@.take(i as int) =~= label@);
    let digits: [char; 10] = ['0', '1', '2', '3', '4', '5', '6', '7', '8', '9'];
    if n >= 10 {
        chars.push(digits[n / 10]);
    }
    chars.push(digits[n % 10]);
    proof {
        reveal_with_fuel(decimal, 3);
        if n >= 10 {
            assert(decimal((n / 10) as nat) == seq![digit_char((n / 10) as int)]);
        }
        assert(chars@ =~= "EFI entry "@ + decimal(n as nat));
    }
    string_of(chars.as_slice())
}

fn name_value(entry: &XmlNode, index: usize, show: bool) -> (r: Result<String, BootConfigError>)
    requires
        index < MAX_ENTRIES,
    ensures
        match entry_name(*entry, index as int, show) {
            Ok(t) => r matches Ok(s) && s@ == t,
            Err(e) => r == Err::<String, BootConfigError>(e),
        },
{
    if !show {
        return Ok(entry_label_text(index));
    }
    match dictionary_value(entry, "Name")? {
        None => Ok(entry_label_text(index)),
        Some(p) => {
            let text = string_text(&entry.children[p])?;
            let chars = chars_of(text.as_str());
            let mut blank = true;
            let mut i: usize = 0;
            while i < chars.len()
                invariant
                    i <= chars@.len(),
                    blank == forall|j: int| 0 <= j < i ==> is_white_space(#[trigger] chars@[j]),
                decreases chars@.len() - i,
            {
                if !char_is_white_space(chars[i]) {
                    blank = false;
                }
                i = i + 1;
            }
            if blank || has_control(&chars) || utf16_count(&chars, 64) > 64 {
                return Err(BootConfigError::InvalidDisplayName);
            }
            Ok(text)
        },
    }
}

fn show_picker_value(misc: &XmlNode) -> (r: Result<bool, BootConfigError>)
    ensures
        r == show_picker_of(*misc),
{
    match dictionary_value(misc, "Boot")? {
        None => Ok(false),
        Some(p) => {
            let boot = &misc.children[p];
            require_tag(boot, "dict")?;
            flag_value(boot, dictionary_value(boot, "ShowPicker")?)
        },
    }
}

/// The keyboard boot menu of a parsed document; the single-target rules keep their
/// ambiguity rejection unless the picker is shown.
pub fn boot_menu(document: &XmlNode) -> (r: Result<BootMenu, BootConfigError>)
    ensures
        match boot_menu_of(*document) {
            Err(e) => r == Err::<BootMenu, BootConfigError>(e),
            Ok((show, es)) => r matches Ok(m) && menu_is(m, show, es),
        },
{
    let dictionary = dictionary_of(document)?;
    let mut menu = BootMenu { show_picker: false, entries: Vec::new() };
    let misc = match dictionary_value(dictionary, "Misc")? {
        None => return Ok(menu),
        Some(p) => &dictionary.children[p],
    };
    require_tag(misc, "dict")?;
    menu.show_picker = show_picker_value(misc)?;
    let entries = match dictionary_value(misc, "Entries")? {
        None => return Ok(menu),
        Some(p) => &misc.children[p],
    };
    require_tag(entries, "array")?;
    let positions = element_positions(entries);
    let ghost els = elements(entries.children@);
    let ghost mut acc: Seq<(Seq<char>, Seq<char>, Seq<char>)> = seq![];
    let mut index: usize = 0;
    while index < positions.len()
        invariant
            positions@.len() == els.len(),
            els == elements(entries.children@),
            forall|k: int|
                0 <= k < positions@.len() ==> (#[trigger] positions@[k]) < entries.children@.len()
                    && entries.children@[positions@[k] as int] == els[k],
            index <= els.len(),
            boot_menu_of(*document) == match menu_from(els, index as int, menu.show_picker, acc) {
                Err(e) => Err(e),
                Ok(es) => Ok((menu.show_picker, es)),
            },
            menu_is(menu, menu.show_picker, acc),
        decreases els.len() - index,
    {
        if index >= MAX_ENTRIES {
            return Err(BootConfigError::EntryLimit);
        }
        let entry = &entries.children[positions[index]];
        let (enabled, path, arguments) = read_entry(entry)?;
        // Automatic boot historically ignores Name entirely. Display-only
        // validation must not reject a previously accepted single target.
        let name = name_value(entry, index, menu.show_picker)?;
        if enabled {
            if !menu.show_picker && menu.entries.len() != 0 {
                return Err(BootConfigError::AmbiguousTarget);
            }
            let path = match path {
                Some(p) => p,
                None => return Err(BootConfigError::MissingPath),
            };
            proof {
                acc = acc.push((name@, path@, arguments@));
            }
            menu.entries.push(BootMenuEntry { name, target: BootTarget { path, arguments } });
        }
        index = index + 1;
    }
    Ok(menu)
}

// ---------------------------------------------------------------------------
// The kernel profile.

/// Printable ASCII only.
pub open spec fn printable_ascii(s: Seq<char>) -> bool {
    forall|i: int| 0 <= i < s.len() ==> 0x20 <= (#[trigger] s[i] as u32) && (s[i] as u32) <= 0x7e
}

/// The explicitly named kernel of a document, as (path, arguments).
pub open spec fn kernel_target_of(doc: XmlNode) -> Result<(Seq<char>, Seq<char>), BootConfigError> {
    match plist_dict(doc) {
        None => Err(BootConfigError::InvalidPlist),
        Some(dict) => match dict_value(dict, "Nextcore"@) {
            Err(e) => Err(e),
            Ok(None) => Err(BootConfigError::MissingKernelTarget),
            Ok(Some(nextcore)) => if !has_tag(nextcore, "dict"@) {
                Err(BootConfigError::InvalidType)
            } else {
                match dict_value(nextcore, "Kernel"@) {
                    Err(e) => Err(e),
                    Ok(None) => Err(BootConfigError::MissingKernelTarget),
                    Ok(Some(kernel)) => if !has_tag(kernel, "dict"@) {
                        Err(BootConfigError::InvalidType)
                    } else {
                        kernel_fields(kernel)
                    },
                }
            },
        },
    }
}

/// The `Profile`, `Path` and `Arguments` of the `Nextcore.Kernel` dict.
pub open spec fn kernel_fields(kernel: XmlNode) -> Result<(Seq<char>, Seq<char>), BootConfigError> {
    match dict_value(kernel, "Profile"@) {
        Err(e) => Err(e),
        Ok(None) => Err(BootConfigError::UnsupportedKernelProfile),
        Ok(Some(profile)) => match string_value(profile) {
            Err(e) => Err(e),
            Ok(name) => if name != "xnu-12377-pstart32"@ {
                Err(BootConfigError::UnsupportedKernelProfile)
            } else {
                match dict_value(kernel, "Path"@) {
                    Err(e) => Err(e),
                    Ok(None) => Err(BootConfigError::MissingPath),
                    Ok(Some(pv)) => match string_value(pv) {
                        Err(e) => Err(e),
                        Ok(raw) => match absolute_path(raw) {
                            Err(e) => Err(e),
                            Ok(path) => match dict_value(kernel, "Arguments"@) {
                                Err(e) => Err(e),
                                Ok(av) => {
                                    let args = match av {
                                        None => Ok(seq![]),
                                        Some(v) => string_value(v),
                                    };
                                    match args {
                                        Err(e) => Err(e),
                                        Ok(a) => if !printable_ascii(a) {
                                            Err(BootConfigError::InvalidArguments)
                                        } else if a.len() > 1023 {
                                            Err(BootConfigError::ArgumentsTooLong)
                                        } else {
                                            Ok((path, a))
                                        },
                                    }
                                },
                            },
                        },
                    },
                }
            },
        },
    }
}

#[verifier::loop_isolation(false)]
fn kernel_values(kernel: &XmlNode) -> (r: Result<(String, String), BootConfigError>)
    ensures
        match kernel_fields(*kernel) {
            Err(e) => r == Err::<(String, String), BootConfigError>(e),
            Ok((p, a)) => r matches Ok((x, y)) && x@ == p && y@ == a,
        },
{
    let profile = match dictionary_value(kernel, "Profile")? {
        None => return Err(BootConfigError::UnsupportedKernelProfile),
        Some(p) => &kernel.children[p],
    };
    let name = string_text(profile)?;
    if !str_eq(name.as_str(), "xnu-12377-pstart32") {
        return Err(BootConfigError::UnsupportedKernelProfile);
    }
    let path_node = match dictionary_value(kernel, "Path")? {
        None => return Err(BootConfigError::MissingPath),
        Some(p) => &kernel.children[p],
    };
    let raw = string_text(path_node)?;
    let path = normalize_absolute_path(raw.as_str())?;
    let arguments = match dictionary_value(kernel, "Arguments")? {
        Some(p) => string_text(&kernel.children[p])?,
        None => String::new(),
    };
    let chars = chars_of(arguments.as_str());
    let mut i: usize = 0;
    while i < chars.len()
        invariant
            i <= chars@.len(),
            forall|j: int| 0 <= j < i ==> 0x20 <= (#[trigger] chars@[j] as u32) && (chars@[j] as u32)
                <= 0x7e,
        decreases chars@.len() - i,
    {
        let u = chars[i] as u32;
        if u < 0x20 || u > 0x7e {
            return Err(BootConfigError::InvalidArguments);
        }
        i = i + 1;
    }
    if chars.len() > 1023 {
        return Err(BootConfigError::ArgumentsTooLong);
    }
    Ok((path, arguments))
}

/// The explicitly named kernel profile of a parsed document.
pub fn kernel_target(document: &XmlNode) -> (r: Result<KernelTarget, BootConfigError>)
    ensures
        match kernel_target_of(*document) {
            Err(e) => r == Err::<KernelTarget, BootConfigError>(e),
            Ok((p, a)) => r matches Ok(t) && t.path@ == p && t.arguments@ == a && t.profile
                == KernelProfile::Xnu12377Pstart32,
        },
{
    let dictionary = dictionary_of(document)?;
    let nextcore = match dictionary_value(dictionary, "Nextcore")? {
        None => return Err(BootConfigError::MissingKernelTarget),
        Some(p) => &dictionary.children[p],
    };
    require_tag(nextcore, "dict")?;
    let kernel = match dictionary_value(nextcore, "Kernel")? {
        None => return Err(BootConfigError::MissingKernelTarget),
        Some(p) => &nextcore.children[p],
    };
    require_tag(kernel, "dict")?;
    let (path, arguments) = kernel_values(kernel)?;
    Ok(KernelTarget { path, arguments, profile: KernelProfile::Xnu12377Pstart32 })
}

// ---------------------------------------------------------------------------
// Lexical bounds, checked before roxmltree sees the text: roxmltree's tokenizer
// recursively visits elements, so lexical nesting is bounded first. XML names, matching
// tags and entity syntax are still validated by roxmltree. External DOCTYPE is permitted
// without fetching its URI; internal subsets cannot introduce entities.

/// `pat` occurs in `b` at `at`.
pub open spec fn starts_at(b: Seq<u8>, at: int, pat: Seq<u8>) -> bool {
    0 <= at && at + pat.len() <= b.len() && b.subrange(at, at + pat.len()) == pat
}

/// The first position at or after `from` where `pat` occurs.
pub open spec fn find_bytes(b: Seq<u8>, from: int, pat: Seq<u8>) -> Option<int>
    decreases b.len() - from,
{
    if from < 0 || from >= b.len() || from + pat.len() > b.len() {
        None
    } else if starts_at(b, from, pat) {
        Some(from)
    } else {
        find_bytes(b, from + 1, pat)
    }
}

/// The position of the `>` closing a tag, scanning from `end` with the open quote
/// `quote`; quotes hide `>`, `<` and `[`.
pub open spec fn tag_end(b: Seq<u8>, end: int, quote: Option<u8>, doctype: bool) -> Result<int, BootConfigError>
    decreases b.len() - end,
{
    if end < 0 || end >= b.len() {
        Err(BootConfigError::InvalidXml)
    } else {
        let byte = b[end];
        match quote {
            Some(d) => if d == byte {
                tag_end(b, end + 1, None, doctype)
            } else {
                tag_end(b, end + 1, quote, doctype)
            },
            None => if byte == 0x27u8 || byte == 0x22u8 {
                tag_end(b, end + 1, Some(byte), doctype)
            } else if byte == 0x5bu8 && doctype {
                Err(BootConfigError::UnsupportedFormat)
            } else if byte == 0x3eu8 {
                Ok(end)
            } else if byte == 0x3cu8 {
                Err(BootConfigError::InvalidXml)
            } else {
                tag_end(b, end + 1, None, doctype)
            },
        }
    }
}

/// The UTF-8 length of a Unicode white-space character at `at`, or 0.
pub open spec fn white_space_width(b: Seq<u8>, at: int) -> int {
    if at < 0 || at >= b.len() {
        0
    } else if (0x09 <= b[at] && b[at] <= 0x0d) || b[at] == 0x20 {
        1
    } else if starts_at(b, at, seq![0xc2u8, 0x85u8]) || starts_at(b, at, seq![0xc2u8, 0xa0u8]) {
        2
    } else if starts_at(b, at, seq![0xe1u8, 0x9au8, 0x80u8]) || (starts_at(b, at, seq![0xe2u8, 0x80u8])
        && at + 2 < b.len() && ((0x80 <= b[at + 2] && b[at + 2] <= 0x8a) || b[at + 2] == 0xa8
        || b[at + 2] == 0xa9 || b[at + 2] == 0xaf)) || starts_at(b, at, seq![0xe2u8, 0x81u8, 0x9fu8])
        || starts_at(b, at, seq![0xe3u8, 0x80u8, 0x80u8]) {
        3
    } else {
        0
    }
}

/// The position after the white space starting at `at`.
pub open spec fn skip_white_space(b: Seq<u8>, at: int) -> int
    decreases b.len() - at,
{
    if at < 0 || at >= b.len() || white_space_width(b, at) == 0 {
        at
    } else {
        skip_white_space(b, at + white_space_width(b, at))
    }
}

/// "plist"
pub open spec fn plist_name() -> Seq<u8> {
    seq![0x70u8, 0x6cu8, 0x69u8, 0x73u8, 0x74u8]
}

/// A DOCTYPE whose name, after leading white space, is `plist`.
pub open spec fn doctype_names_plist(b: Seq<u8>, at: int) -> bool {
    let p = skip_white_space(b, at);
    &&& starts_at(b, p, plist_name())
    &&& (p + 5 == b.len() || b[p + 5] == 0x20 || b[p + 5] == 0x09 || b[p + 5] == 0x0a || b[p + 5]
        == 0x0c || b[p + 5] == 0x0d || b[p + 5] == 0x3e || b[p + 5] == 0x5b)
}

/// "<!--", "-->", "<![CDATA[", "]]>", "<?", "?>", "<!DOCTYPE", "<!", "</"
pub open spec fn comment_open() -> Seq<u8> {
    seq![0x3cu8, 0x21u8, 0x2du8, 0x2du8]
}

pub open spec fn comment_close() -> Seq<u8> {
    seq![0x2du8, 0x2du8, 0x3eu8]
}

pub open spec fn cdata_open() -> Seq<u8> {
    seq![0x3cu8, 0x21u8, 0x5bu8, 0x43u8, 0x44u8, 0x41u8, 0x54u8, 0x41u8, 0x5bu8]
}

pub open spec fn cdata_close() -> Seq<u8> {
    seq![0x5du8, 0x5du8, 0x3eu8]
}

pub open spec fn pi_open() -> Seq<u8> {
    seq![0x3cu8, 0x3fu8]
}

pub open spec fn pi_close() -> Seq<u8> {
    seq![0x3fu8, 0x3eu8]
}

pub open spec fn doctype_open() -> Seq<u8> {
    seq![0x3cu8, 0x21u8, 0x44u8, 0x4fu8, 0x43u8, 0x54u8, 0x59u8, 0x50u8, 0x45u8]
}

pub open spec fn bang_open() -> Seq<u8> {
    seq![0x3cu8, 0x21u8]
}

pub open spec fn end_tag_open() -> Seq<u8> {
    seq![0x3cu8, 0x2fu8]
}

/// The lexical scan from `pos` with `depth` open elements.
pub open spec fn scan_bounds(b: Seq<u8>, pos: int, depth: int) -> Result<(), BootConfigError>
    decreases b.len() - pos,
{
    if pos < 0 || pos >= b.len() {
        Ok(())
    } else if b[pos] != 0x3cu8 {
        scan_bounds(b, pos + 1, depth)
    } else if starts_at(b, pos, comment_open()) {
        match find_bytes(b, pos + 4, comment_close()) {
            None => Err(BootConfigError::InvalidXml),
            Some(at) => {
                proof {
                    lemma_find_bytes_after(b, pos + 4, comment_close());
                }
                scan_bounds(b, at + 3, depth)
            },
        }
    } else if starts_at(b, pos, cdata_open()) {
        match find_bytes(b, pos + 9, cdata_close()) {
            None => Err(BootConfigError::InvalidXml),
            Some(at) => {
                proof {
                    lemma_find_bytes_after(b, pos + 9, cdata_close());
                }
                scan_bounds(b, at + 3, depth)
            },
        }
    } else if starts_at(b, pos, pi_open()) {
        match find_bytes(b, pos + 2, pi_close()) {
            None => Err(BootConfigError::InvalidXml),
            Some(at) => {
                proof {
                    lemma_find_bytes_after(b, pos + 2, pi_close());
                }
                scan_bounds(b, at + 2, depth)
            },
        }
    } else {
        let doctype = starts_at(b, pos, doctype_open());
        if starts_at(b, pos, bang_open()) && !doctype {
            Err(BootConfigError::InvalidXml)
        } else if doctype && !doctype_names_plist(b, pos + 9) {
            Err(BootConfigError::InvalidPlist)
        } else {
            proof {
                lemma_tag_end_after(b, pos + 1, None, doctype);
            }
            match tag_end(b, pos + 1, None, doctype) {
                Err(e) => Err(e),
                Ok(end) => if doctype {
                    scan_bounds(b, end + 1, depth)
                } else if starts_at(b, pos, end_tag_open()) {
                    if depth == 0 {
                        Err(BootConfigError::InvalidXml)
                    } else {
                        scan_bounds(b, end + 1, depth - 1)
                    }
                } else if depth >= MAX_XML_DEPTH {
                    Err(BootConfigError::DepthLimit)
                } else if b[end - 1] != 0x2fu8 {
                    scan_bounds(b, end + 1, depth + 1)
                } else {
                    scan_bounds(b, end + 1, depth)
                },
            }
        }
    }
}

pub proof fn lemma_find_bytes_after(b: Seq<u8>, from: int, pat: Seq<u8>)
    ensures
        find_bytes(b, from, pat) matches Some(at) ==> at >= from && at + pat.len() <= b.len(),
    decreases b.len() - from,
{
    if !(from < 0 || from >= b.len() || from + pat.len() > b.len()) && !starts_at(b, from, pat) {
        lemma_find_bytes_after(b, from + 1, pat);
    }
}

pub proof fn lemma_tag_end_after(b: Seq<u8>, end: int, quote: Option<u8>, doctype: bool)
    ensures
        tag_end(b, end, quote, doctype) matches Ok(e) ==> end <= e < b.len(),
    decreases b.len() - end,
{
    if 0 <= end < b.len() {
        let byte = b[end];
        match quote {
            Some(d) => if d == byte {
                lemma_tag_end_after(b, end + 1, None, doctype);
            } else {
                lemma_tag_end_after(b, end + 1, quote, doctype);
            },
            None => if byte == 0x27u8 || byte == 0x22u8 {
                lemma_tag_end_after(b, end + 1, Some(byte), doctype);
            } else {
                lemma_tag_end_after(b, end + 1, None, doctype);
            },
        }
    }
}

fn starts_with_at(b: &[u8], at: usize, pat: &[u8]) -> (r: bool)
    ensures
        r == starts_at(b@, at as int, pat@),
{
    if at > b.len() || pat.len() > b.len() - at {
        return false;
    }
    let n = b.len();
    let mut i: usize = 0;
    while i < pat.len()
        invariant
            n == b@.len(),
            at + pat@.len() <= b@.len(),
            i <= pat@.len(),
            forall|j: int| 0 <= j < i ==> b@[at + j] == #[trigger] pat@[j],
        decreases pat@.len() - i,
    {
        if b[at + i] != pat[i] {
            assert(b@.subrange(at as int, at + pat@.len())[i as int] != pat@[i as int]);
            return false;
        }
        i = i + 1;
    }
    assert(b@.subrange(at as int, at + pat@.len()) =~= pat@);
    true
}

fn find_from(b: &[u8], from: usize, pat: &[u8]) -> (r: Option<usize>)
    requires
        pat@.len() > 0,
    ensures
        match find_bytes(b@, from as int, pat@) {
            Some(at) => r == Some(at as usize),
            None => r is None,
        },
{
    let n = b.len();
    let mut at = from;
    while at <= b.len() && pat.len() <= b.len() - at
        invariant
            n == b@.len(),
            pat@.len() > 0,
            from <= at,
            find_bytes(b@, from as int, pat@) == find_bytes(b@, at as int, pat@),
        decreases b@.len() + 1 - at,
    {
        if starts_with_at(b, at, pat) {
            return Some(at);
        }
        at = at + 1;
    }
    None
}

fn tag_end_at(b: &[u8], start: usize, doctype: bool) -> (r: Result<usize, BootConfigError>)
    ensures
        match tag_end(b@, start as int, None, doctype) {
            Ok(e) => r == Ok::<usize, BootConfigError>(e as usize),
            Err(x) => r == Err::<usize, BootConfigError>(x),
        },
{
    let mut quote: Option<u8> = None;
    let mut end = start;
    while end < b.len()
        invariant
            start <= end,
            tag_end(b@, start as int, None, doctype) == tag_end(b@, end as int, quote, doctype),
        decreases b@.len() - end,
    {
        let byte = b[end];
        match quote {
            Some(delimiter) => {
                if delimiter == byte {
                    quote = None;
                }
            },
            None => {
                if byte == 0x27 || byte == 0x22 {
                    quote = Some(byte);
                } else if byte == 0x5b && doctype {
                    return Err(BootConfigError::UnsupportedFormat);
                } else if byte == 0x3e {
                    return Ok(end);
                } else if byte == 0x3c {
                    return Err(BootConfigError::InvalidXml);
                }
            },
        }
        end = end + 1;
    }
    Err(BootConfigError::InvalidXml)
}

fn white_space_at(b: &[u8], at: usize) -> (r: usize)
    ensures
        r == white_space_width(b@, at as int),
{
    if at >= b.len() {
        return 0;
    }
    let c = b[at];
    if (0x09 <= c && c <= 0x0d) || c == 0x20 {
        return 1;
    }
    if starts_with_at(b, at, &[0xc2, 0x85]) || starts_with_at(b, at, &[0xc2, 0xa0]) {
        assert((seq![0xc2u8, 0x85u8]) =~= [0xc2u8, 0x85u8]@);
        assert((seq![0xc2u8, 0xa0u8]) =~= [0xc2u8, 0xa0u8]@);
        return 2;
    }
    assert((seq![0xc2u8, 0x85u8]) =~= [0xc2u8, 0x85u8]@);
    assert((seq![0xc2u8, 0xa0u8]) =~= [0xc2u8, 0xa0u8]@);
    assert((seq![0xe1u8, 0x9au8, 0x80u8]) =~= [0xe1u8, 0x9au8, 0x80u8]@);
    assert((seq![0xe2u8, 0x80u8]) =~= [0xe2u8, 0x80u8]@);
    assert((seq![0xe2u8, 0x81u8, 0x9fu8]) =~= [0xe2u8, 0x81u8, 0x9fu8]@);
    assert((seq![0xe3u8, 0x80u8, 0x80u8]) =~= [0xe3u8, 0x80u8, 0x80u8]@);
    let general = starts_with_at(b, at, &[0xe2, 0x80]) && at + 2 < b.len() && {
        let d = b[at + 2];
        (0x80 <= d && d <= 0x8a) || d == 0xa8 || d == 0xa9 || d == 0xaf
    };
    if starts_with_at(b, at, &[0xe1, 0x9a, 0x80]) || general || starts_with_at(
        b,
        at,
        &[0xe2, 0x81, 0x9f],
    ) || starts_with_at(b, at, &[0xe3, 0x80, 0x80]) {
        return 3;
    }
    0
}

fn doctype_plist(b: &[u8], at: usize) -> (r: bool)
    requires
        at <= b@.len(),
    ensures
        r == doctype_names_plist(b@, at as int),
{
    let n = b.len();
    let mut p = at;
    while white_space_at(b, p) > 0
        invariant
            n == b@.len(),
            at <= p <= n,
            skip_white_space(b@, at as int) == skip_white_space(b@, p as int),
        decreases n - p,
    {
        let w = white_space_at(b, p);
        p = p + w;
    }
    let name: [u8; 5] = [0x70, 0x6c, 0x69, 0x73, 0x74];
    let pat: &[u8] = &name;
    assert(pat@ =~= plist_name());
    if !starts_with_at(b, p, pat) {
        return false;
    }
    if p + 5 == b.len() {
        return true;
    }
    let c = b[p + 5];
    c == 0x20 || c == 0x09 || c == 0x0a || c == 0x0c || c == 0x0d || c == 0x3e || c == 0x5b
}

/// Bounds lexical nesting and markup shapes; see `scan_bounds`.
#[verifier::loop_isolation(false)]
fn scan_xml_bounds(bytes: &[u8]) -> (r: Result<(), BootConfigError>)
    ensures
        r == scan_bounds(bytes@, 0, 0),
{
    let comment_open_bytes: [u8; 4] = [0x3c, 0x21, 0x2d, 0x2d];
    let comment_close_bytes: [u8; 3] = [0x2d, 0x2d, 0x3e];
    let cdata_open_bytes: [u8; 9] = [0x3c, 0x21, 0x5b, 0x43, 0x44, 0x41, 0x54, 0x41, 0x5b];
    let cdata_close_bytes: [u8; 3] = [0x5d, 0x5d, 0x3e];
    let pi_open_bytes: [u8; 2] = [0x3c, 0x3f];
    let pi_close_bytes: [u8; 2] = [0x3f, 0x3e];
    let doctype_open_bytes: [u8; 9] = [0x3c, 0x21, 0x44, 0x4f, 0x43, 0x54, 0x59, 0x50, 0x45];
    let bang_open_bytes: [u8; 2] = [0x3c, 0x21];
    let end_tag_open_bytes: [u8; 2] = [0x3c, 0x2f];
    assert(comment_open_bytes@ =~= comment_open());
    assert(comment_close_bytes@ =~= comment_close());
    assert(cdata_open_bytes@ =~= cdata_open());
    assert(cdata_close_bytes@ =~= cdata_close());
    assert(pi_open_bytes@ =~= pi_open());
    assert(pi_close_bytes@ =~= pi_close());
    assert(doctype_open_bytes@ =~= doctype_open());
    assert(bang_open_bytes@ =~= bang_open());
    assert(end_tag_open_bytes@ =~= end_tag_open());
    let n = bytes.len();
    let mut position: usize = 0;
    let mut depth: usize = 0;
    while position < n
        invariant
            n == bytes@.len(),
            position <= n,
            depth <= MAX_XML_DEPTH,
            scan_bounds(bytes@, 0, 0) == scan_bounds(bytes@, position as int, depth as int),
        decreases n - position,
    {
        if bytes[position] != 0x3c {
            position = position + 1;
            continue;
        }
        if starts_with_at(bytes, position, &comment_open_bytes) {
            match find_from(bytes, position + 4, &comment_close_bytes) {
                None => return Err(BootConfigError::InvalidXml),
                Some(at) => {
                    proof {
                        lemma_find_bytes_after(bytes@, position + 4, comment_close());
                    }
                    position = at + 3;
                    continue;
                },
            }
        }
        if starts_with_at(bytes, position, &cdata_open_bytes) {
            match find_from(bytes, position + 9, &cdata_close_bytes) {
                None => return Err(BootConfigError::InvalidXml),
                Some(at) => {
                    proof {
                        lemma_find_bytes_after(bytes@, position + 9, cdata_close());
                    }
                    position = at + 3;
                    continue;
                },
            }
        }
        if starts_with_at(bytes, position, &pi_open_bytes) {
            match find_from(bytes, position + 2, &pi_close_bytes) {
                None => return Err(BootConfigError::InvalidXml),
                Some(at) => {
                    proof {
                        lemma_find_bytes_after(bytes@, position + 2, pi_close());
                    }
                    position = at + 2;
                    continue;
                },
            }
        }
        let doctype = starts_with_at(bytes, position, &doctype_open_bytes);
        if starts_with_at(bytes, position, &bang_open_bytes) && !doctype {
            return Err(BootConfigError::InvalidXml);
        }
        if doctype && !doctype_plist(bytes, position + 9) {
            return Err(BootConfigError::InvalidPlist);
        }
        proof {
            lemma_tag_end_after(bytes@, position + 1, None, doctype);
        }
        let end = tag_end_at(bytes, position + 1, doctype)?;
        if !doctype {
            if starts_with_at(bytes, position, &end_tag_open_bytes) {
                if depth == 0 {
                    return Err(BootConfigError::InvalidXml);
                }
                depth = depth - 1;
            } else {
                if depth >= MAX_XML_DEPTH {
                    return Err(BootConfigError::DepthLimit);
                }
                if bytes[end - 1] != 0x2f {
                    depth = depth + 1;
                }
            }
        }
        position = end + 1;
    }
    Ok(())
}

/// "bplist" or a UTF-16 byte-order mark at the start.
pub open spec fn format_refused(input: Seq<u8>) -> bool {
    starts_at(input, 0, seq![0x62u8, 0x70u8, 0x6cu8, 0x69u8, 0x73u8, 0x74u8]) || starts_at(
        input,
        0,
        seq![0xffu8, 0xfeu8],
    ) || starts_at(input, 0, seq![0xfeu8, 0xffu8])
}

/// How often `x` occurs in `b`.
pub open spec fn count_byte(b: Seq<u8>, x: u8) -> int
    decreases b.len(),
{
    if b.len() == 0 {
        0
    } else {
        count_byte(b.drop_last(), x) + if b.last() == x {
            1int
        } else {
            0int
        }
    }
}

/// The validated document `input` holds, or the first reason it is refused.
pub open spec fn document_of(input: Seq<u8>) -> Result<XmlNode, BootConfigError> {
    if input.len() > MAX_INPUT_BYTES {
        Err(BootConfigError::InputTooLarge)
    } else if format_refused(input) {
        Err(BootConfigError::UnsupportedFormat)
    } else if !valid_utf8(input) {
        Err(BootConfigError::InvalidUtf8)
    } else if count_byte(input, 0x3c) > 2 * MAX_XML_NODES || count_byte(input, 0x3d) > MAX_XML_NODES {
        // roxmltree reserves capacity using literal '<' and '=' counts before its
        // node limit takes effect.
        Err(BootConfigError::NodeLimit)
    } else {
        match scan_bounds(input, 0, 0) {
            Err(e) => Err(e),
            Ok(()) => match xml_document(decode_utf8(input)) {
                Err(XmlParseError::NodesLimitReached) => Err(BootConfigError::NodeLimit),
                Err(XmlParseError::Malformed) => Err(BootConfigError::InvalidXml),
                Ok(doc) => match structure_error(doc) {
                    Some(e) => Err(e),
                    None => Ok(doc),
                },
            },
        }
    }
}

fn count_of(b: &[u8], x: u8) -> (r: usize)
    ensures
        r == count_byte(b@, x),
{
    let mut n: usize = 0;
    let mut i: usize = 0;
    while i < b.len()
        invariant
            i <= b@.len(),
            n <= i,
            n == count_byte(b@.take(i as int), x),
        decreases b@.len() - i,
    {
        assert(b@.take(i as int + 1).drop_last() =~= b@.take(i as int));
        if b[i] == x {
            n = n + 1;
        }
        i = i + 1;
    }
    assert(b@.take(i as int) =~= b@);
    n
}

fn parse_document(input: &[u8]) -> (r: Result<XmlNode, BootConfigError>)
    ensures
        r == document_of(input@),
{
    if input.len() > MAX_INPUT_BYTES {
        return Err(BootConfigError::InputTooLarge);
    }
    let bplist: [u8; 6] = [0x62, 0x70, 0x6c, 0x69, 0x73, 0x74];
    let le_mark: [u8; 2] = [0xff, 0xfe];
    let be_mark: [u8; 2] = [0xfe, 0xff];
    assert(bplist@ =~= seq![0x62u8, 0x70u8, 0x6cu8, 0x69u8, 0x73u8, 0x74u8]);
    assert(le_mark@ =~= seq![0xffu8, 0xfeu8]);
    assert(be_mark@ =~= seq![0xfeu8, 0xffu8]);
    if starts_with_at(input, 0, &bplist) || starts_with_at(input, 0, &le_mark) || starts_with_at(
        input,
        0,
        &be_mark,
    ) {
        return Err(BootConfigError::UnsupportedFormat);
    }
    let text = match utf8_str(input) {
        Some(text) => text,
        None => return Err(BootConfigError::InvalidUtf8),
    };
    proof {
        vstd::utf8::encode_utf8_decode_utf8(text@);
    }
    if count_of(input, 0x3c) > 2 * (MAX_XML_NODES as usize) || count_of(input, 0x3d)
        > MAX_XML_NODES as usize {
        return Err(BootConfigError::NodeLimit);
    }
    scan_xml_bounds(input)?;
    let document = match parse_xml(text) {
        Ok(document) => document,
        Err(XmlParseError::NodesLimitReached) => return Err(BootConfigError::NodeLimit),
        Err(XmlParseError::Malformed) => return Err(BootConfigError::InvalidXml),
    };
    validate_structure(&document)?;
    Ok(document)
}

/// Select exactly one enabled EFI entry, or return `None` when none is enabled.
/// The full document is structurally checked even after a target is found.
pub fn parse_boot_target(input: &[u8]) -> (r: Result<Option<BootTarget>, BootConfigError>)
    ensures
        match document_of(input@) {
            Err(e) => r == Err::<Option<BootTarget>, BootConfigError>(e),
            Ok(doc) => match boot_target_of(doc) {
                Err(e) => r == Err::<Option<BootTarget>, BootConfigError>(e),
                Ok(None) => r matches Ok(None),
                Ok(Some(t)) => r matches Ok(Some(x)) && target_is(x, t),
            },
        },
{
    let document = parse_document(input)?;
    select_boot_target(&document)
}

/// Parse a keyboard boot menu separately; the original single-target parser
/// retains its ambiguity rejection even when ShowPicker is true.
pub fn parse_boot_menu(input: &[u8]) -> (r: Result<BootMenu, BootConfigError>)
    ensures
        match document_of(input@) {
            Err(e) => r == Err::<BootMenu, BootConfigError>(e),
            Ok(doc) => match boot_menu_of(doc) {
                Err(e) => r == Err::<BootMenu, BootConfigError>(e),
                Ok((show, es)) => r matches Ok(m) && menu_is(m, show, es),
            },
        },
{
    let document = parse_document(input)?;
    boot_menu(&document)
}

/// Read the explicitly named kernel profile separately from EFI image targets.
pub fn parse_kernel_target(input: &[u8]) -> (r: Result<KernelTarget, BootConfigError>)
    ensures
        match document_of(input@) {
            Err(e) => r == Err::<KernelTarget, BootConfigError>(e),
            Ok(doc) => match kernel_target_of(doc) {
                Err(e) => r == Err::<KernelTarget, BootConfigError>(e),
                Ok((p, a)) => r matches Ok(t) && t.path@ == p && t.arguments@ == a && t.profile
                    == KernelProfile::Xnu12377Pstart32,
            },
        },
{
    let document = parse_document(input)?;
    kernel_target(&document)
}

} // verus!

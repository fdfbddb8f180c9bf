//! Device properties: values from the configuration turned into property bytes, and a
//! length-prefixed wire form of a property map.
use vstd::prelude::*;
use vstd::utf8::{decode_utf8, encode_utf8, valid_utf8};
use crate::bytes::{
    le_u32, lemma_u32_bytes, lossy_string, push_slice, push_u32, read_u32, u32_bytes, u64_bytes,
    u64_le, utf8_lossy,
};
use crate::config::{DevicePropValue, DevicePropertiesConfig};
use crate::error::CoreError;
use crate::string_map::{distinct_keys, entries_insert, has_key, StringMap};

verus! {

#[derive(Debug, Clone)]
pub struct DevicePropertyPath(pub String);

#[derive(Debug)]
pub struct DevicePropertyEntry {
    pub path: String,
    pub properties: StringMap<PropertyData>,
}

#[derive(Debug, Clone)]
pub struct PropertyData {
    pub bytes: Vec<u8>,
}

/// The bytes a configuration value stands for: data as it is, an integer as its eight
/// little-endian two's-complement bytes, text as UTF-8, a flag as one byte.
pub open spec fn property_bytes(val: DevicePropValue) -> Seq<u8> {
    match val {
        DevicePropValue::Data(b) => b@,
        DevicePropValue::Integer(v) => u64_bytes(v as u64),
        DevicePropValue::String(s) => encode_utf8(s@),
        DevicePropValue::Bool(b) => seq![
            if b {
                1u8
            } else {
                0u8
            },
        ],
    }
}

/// `out` holds the properties of `inp`, key for key and in the same order.
pub open spec fn converted(
    out: Seq<(String, PropertyData)>,
    inp: Seq<(String, DevicePropValue)>,
) -> bool {
    &&& out.len() == inp.len()
    &&& forall|j: int|
        0 <= j < out.len() ==> (#[trigger] out[j]).0@ == inp[j].0@ && out[j].1.bytes@
            == property_bytes(inp[j].1)
}

impl PropertyData {
    pub fn from_config_value(val: &DevicePropValue) -> (r: Self)
        ensures
            r.bytes@ == property_bytes(*val),
    {
        match val {
            DevicePropValue::Data(bytes) => {
                let mut copy: Vec<u8> = Vec::new();
                push_slice(&mut copy, bytes.as_slice());
                PropertyData { bytes: copy }
            },
            DevicePropValue::Integer(v) => {
                let b = u64_le(*v as u64);
                let mut copy: Vec<u8> = Vec::new();
                push_slice(&mut copy, &b);
                PropertyData { bytes: copy }
            },
            DevicePropValue::String(s) => {
                let mut copy: Vec<u8> = Vec::new();
                push_slice(&mut copy, s.as_str().as_bytes());
                PropertyData { bytes: copy }
            },
            DevicePropValue::Bool(b) => {
                let byte: u8 = if *b {
                    1
                } else {
                    0
                };
                let mut copy: Vec<u8> = Vec::new();
                copy.push(byte);
                assert(copy@ =~= property_bytes(*val));
                PropertyData { bytes: copy }
            },
        }
    }
}

/// One entry per configured device path, its values turned into property bytes.
pub fn apply_properties(config: &DevicePropertiesConfig) -> (r: Vec<DevicePropertyEntry>)
    ensures
        r@.len() == config.add@.len(),
        forall|i: int|
            0 <= i < r@.len() ==> (#[trigger] r@[i]).path@ == config.add@[i].0@ && converted(
                r@[i].properties@,
                config.add@[i].1@,
            ),
{
    let add = config.add.entries();
    let mut entries: Vec<DevicePropertyEntry> = Vec::new();
    let mut i: usize = 0;
    while i < add.len()
        invariant
            add@ == config.add@,
            i <= add@.len(),
            entries@.len() == i,
            forall|k: int|
                0 <= k < i ==> (#[trigger] entries@[k]).path@ == add@[k].0@ && converted(
                    entries@[k].properties@,
                    add@[k].1@,
                ),
        decreases add@.len() - i,
    {
        let props = &add[i].1;
        proof {
            use_type_invariant(props);
        }
        let values = props.entries();
        let mut properties: StringMap<PropertyData> = StringMap::new();
        let mut j: usize = 0;
        while j < values.len()
            invariant
                values@ == props@,
                distinct_keys(values@),
                j <= values@.len(),
                converted(properties@, values@.take(j as int)),
            decreases values@.len() - j,
        {
            let key = values[j].0.clone();
            let data = PropertyData::from_config_value(&values[j].1);
            proof {
                if has_key(properties@, key@) {
                    let c = choose|c: int|
                        0 <= c < properties@.len() && (#[trigger] properties@[c]).0@ == key@;
                    assert(values@[c].0@ == properties@[c].0@);
                    assert(values@[c].0@ != values@[j as int].0@);
                }
            }
            properties.insert(key, data);
            j = j + 1;
            assert(values@.take(j as int).drop_last() =~= values@.take(j - 1));
        }
        assert(values@.take(j as int) =~= values@);
        entries.push(DevicePropertyEntry { path: add[i].0.clone(), properties });
        i = i + 1;
    }
    entries
}

// ---------------------------------------------------------------------------
// The wire form: a little-endian u32 count, then per property a u32 key length, the
// key's UTF-8 bytes, a u32 value length and the value bytes.

/// One property on the wire.
pub open spec fn encode_entry(key: Seq<char>, data: Seq<u8>) -> Seq<u8> {
    let kb = encode_utf8(key);
    u32_bytes(kb.len() as u32) + kb + u32_bytes(data.len() as u32) + data
}

/// The properties of `es` on the wire, in order.
pub open spec fn encode_entries(es: Seq<(String, PropertyData)>) -> Seq<u8>
    decreases es.len(),
{
    if es.len() == 0 {
        seq![]
    } else {
        encode_entries(es.drop_last()) + encode_entry(es.last().0@, es.last().1.bytes@)
    }
}

/// A property map on the wire.
pub open spec fn encoded_properties(es: Seq<(String, PropertyData)>) -> Seq<u8> {
    u32_bytes(es.len() as u32) + encode_entries(es)
}

pub fn encode_properties(props: &StringMap<PropertyData>) -> (r: Vec<u8>)
    ensures
        r@ == encoded_properties(props@),
{
    let entries = props.entries();
    let mut buf: Vec<u8> = Vec::new();
    let count = entries.len() as u32;
    push_u32(&mut buf, count);
    let mut i: usize = 0;
    while i < entries.len()
        invariant
            entries@ == props@,
            i <= entries@.len(),
            buf@ == u32_bytes(entries@.len() as u32) + encode_entries(entries@.take(i as int)),
        decreases entries@.len() - i,
    {
        let key_bytes = entries[i].0.as_str().as_bytes();
        let data = &entries[i].1.bytes;
        push_u32(&mut buf, key_bytes.len() as u32);
        push_slice(&mut buf, key_bytes);
        push_u32(&mut buf, data.len() as u32);
        push_slice(&mut buf, data.as_slice());
        i = i + 1;
        proof {
            let t = entries@.take(i as int);
            assert(t.drop_last() =~= entries@.take(i - 1));
            assert(buf@ =~= u32_bytes(entries@.len() as u32) + encode_entries(t));
        }
    }
    assert(entries@.take(i as int) =~= entries@);
    buf
}

/// A key as the decoder reads it: valid UTF-8 as its characters, anything else as
/// `String::from_utf8_lossy` makes of it.
pub open spec fn decoded_key(b: Seq<u8>) -> Seq<char> {
    if valid_utf8(b) {
        decode_utf8(b)
    } else {
        utf8_lossy(b)
    }
}

/// `m` after storing `v` under `k`: in place where `k` has an entry, else appended.
pub open spec fn assoc_insert(
    m: Seq<(Seq<char>, Seq<u8>)>,
    k: Seq<char>,
    v: Seq<u8>,
) -> Seq<(Seq<char>, Seq<u8>)> {
    if exists|i: int| 0 <= i < m.len() && (#[trigger] m[i]).0 == k {
        let i = choose|i: int| 0 <= i < m.len() && (#[trigger] m[i]).0 == k;
        m.update(i, (k, v))
    } else {
        m.push((k, v))
    }
}

/// Decoding `count` more properties from `pos` into `m`: the decoded map, or the message
/// of the first field that does not fit.
pub open spec fn decode_from(
    data: Seq<u8>,
    pos: int,
    count: nat,
    m: Seq<(Seq<char>, Seq<u8>)>,
) -> Result<Seq<(Seq<char>, Seq<u8>)>, Seq<char>>
    decreases count,
{
    if count == 0 {
        Ok(m)
    } else if pos + 4 > data.len() {
        Err("truncated key length"@)
    } else {
        let key_at = pos + 4;
        let key_len = le_u32(data, pos);
        if key_at + key_len > data.len() {
            Err("truncated key data"@)
        } else {
            let key = decoded_key(data.subrange(key_at, key_at + key_len));
            let len_at = key_at + key_len;
            if len_at + 4 > data.len() {
                Err("truncated value length"@)
            } else {
                let val_at = len_at + 4;
                let val_len = le_u32(data, len_at);
                if val_at + val_len > data.len() {
                    Err("truncated value data"@)
                } else {
                    decode_from(
                        data,
                        val_at + val_len,
                        (count - 1) as nat,
                        assoc_insert(m, key, data.subrange(val_at, val_at + val_len)),
                    )
                }
            }
        }
    }
}

/// The keys and bytes of a property map.
pub open spec fn property_pairs(es: Seq<(String, PropertyData)>) -> Seq<(Seq<char>, Seq<u8>)> {
    es.map_values(|e: (String, PropertyData)| (e.0@, e.1.bytes@))
}

fn props_error(message: &str) -> (r: CoreError)
    ensures
        r matches CoreError::DeviceProps(m) && m@ == message@,
{
    CoreError::DeviceProps(String::from_str(message))
}

proof fn lemma_pairs_insert(es: Seq<(String, PropertyData)>, key: String, value: PropertyData)
    requires
        distinct_keys(es),
    ensures
        property_pairs(entries_insert(es, key, value)) == assoc_insert(
            property_pairs(es),
            key@,
            value.bytes@,
        ),
{
    let m = property_pairs(es);
    if has_key(es, key@) {
        let i = choose|i: int| 0 <= i < es.len() && (#[trigger] es[i]).0@ == key@;
        assert(m[i].0 == key@);
        let c = choose|c: int| 0 <= c < m.len() && (#[trigger] m[c]).0 == key@;
        assert(c == i) by {
            if c != i {
                assert(es[c].0@ == m[c].0);
                if c < i {
                    assert(es[c].0@ != es[i].0@);
                } else {
                    assert(es[i].0@ != es[c].0@);
                }
            }
        }
        assert(property_pairs(entries_insert(es, key, value)) =~= m.update(i, (key@, value.bytes@)));
    } else {
        assert forall|i: int| 0 <= i < m.len() implies (#[trigger] m[i]).0 != key@ by {
            assert(m[i].0 == es[i].0@);
        }
        assert(property_pairs(entries_insert(es, key, value)) =~= m.push((key@, value.bytes@)));
    }
}

#[verifier::loop_isolation(false)]
pub fn decode_properties(data: &[u8]) -> (r: Result<StringMap<PropertyData>, CoreError>)
    ensures
        data@.len() < 4 ==> (r matches Err(CoreError::DeviceProps(m)) && m@ == "data too short"@),
        data@.len() >= 4 ==> match decode_from(data@, 4, le_u32(data@, 0) as nat, seq![]) {
            Ok(m) => r matches Ok(p) && property_pairs(p@) == m,
            Err(msg) => r matches Err(CoreError::DeviceProps(e)) && e@ == msg,
        },
{
    if data.len() < 4 {
        return Err(props_error("data too short"));
    }
    let count = read_u32(data, 0);
    let mut pos: usize = 4;
    let mut props: StringMap<PropertyData> = StringMap::new();
    let mut k: u32 = 0;
    assert(property_pairs(props@) =~= seq![]);
    while k < count
        invariant
            4 <= pos <= data@.len(),
            k <= count,
            decode_from(data@, 4, count as nat, seq![]) == decode_from(
                data@,
                pos as int,
                (count - k) as nat,
                property_pairs(props@),
            ),
        decreases count - k,
    {
        proof {
            use_type_invariant(&props);
        }
        if data.len() - pos < 4 {
            return Err(props_error("truncated key length"));
        }
        let key_len = read_u32(data, pos) as usize;
        pos = pos + 4;
        if key_len > data.len() - pos {
            return Err(props_error("truncated key data"));
        }
        let key = lossy_string(&data[pos..pos + key_len]);
        pos = pos + key_len;
        if data.len() - pos < 4 {
            return Err(props_error("truncated value length"));
        }
        let val_len = read_u32(data, pos) as usize;
        pos = pos + 4;
        if val_len > data.len() - pos {
            return Err(props_error("truncated value data"));
        }
        let mut bytes: Vec<u8> = Vec::new();
        push_slice(&mut bytes, &data[pos..pos + val_len]);
        pos = pos + val_len;
        let ghost before = props@;
        let value = PropertyData { bytes };
        proof {
            lemma_pairs_insert(before, key, value);
        }
        props.insert(key, value);
        k = k + 1;
    }
    Ok(props)
}

// ---------------------------------------------------------------------------
// Decoding what encoding wrote.

proof fn lemma_le_u32_window(s1: Seq<u8>, i: int, s2: Seq<u8>, j: int)
    requires
        0 <= i,
        0 <= j,
        i + 4 <= s1.len(),
        j + 4 <= s2.len(),
        forall|k: int| i <= k < i + 4 ==> #[trigger] s1[k] == s2[j + (k - i)],
    ensures
        le_u32(s1, i) == le_u32(s2, j),
{
    assert(s1[i] == s2[j] && s1[i + 1] == s2[j + 1] && s1[i + 2] == s2[j + 2] && s1[i + 3]
        == s2[j + 3]);
}

/// The entries of a prefix are a prefix of the entries.
proof fn lemma_encode_prefix(es: Seq<(String, PropertyData)>, k: int)
    requires
        0 <= k < es.len(),
    ensures
        encode_entries(es.take(k + 1)) == encode_entries(es.take(k)) + encode_entry(
            es[k].0@,
            es[k].1.bytes@,
        ),
{
    assert(es.take(k + 1).drop_last() =~= es.take(k));
}

proof fn lemma_encode_extends(es: Seq<(String, PropertyData)>, k: int, n: int)
    requires
        0 <= k <= n <= es.len(),
    ensures
        encode_entries(es.take(n)).len() >= encode_entries(es.take(k)).len(),
        encode_entries(es.take(n)).subrange(0, encode_entries(es.take(k)).len() as int)
            == encode_entries(es.take(k)),
    decreases n - k,
{
    if k < n {
        lemma_encode_extends(es, k, n - 1);
        lemma_encode_prefix(es, n - 1);
        let a = encode_entries(es.take(k));
        let b = encode_entries(es.take(n - 1));
        let c = encode_entries(es.take(n));
        assert(c.subrange(0, a.len() as int) =~= b.subrange(0, a.len() as int));
    }
}

/// One decoding step over an encoded entry.
proof fn lemma_decode_step(
    data: Seq<u8>,
    pos: int,
    count: nat,
    m: Seq<(Seq<char>, Seq<u8>)>,
    key: Seq<char>,
    value: Seq<u8>,
)
    requires
        0 <= pos,
        count >= 1,
        encode_utf8(key).len() < 0x1_0000_0000,
        value.len() < 0x1_0000_0000,
        pos + encode_entry(key, value).len() <= data.len(),
        data.subrange(pos, pos + encode_entry(key, value).len()) == encode_entry(key, value),
    ensures
        decode_from(data, pos, count, m) == decode_from(
            data,
            pos + encode_entry(key, value).len(),
            (count - 1) as nat,
            assoc_insert(m, key, value),
        ),
{
    let kb = encode_utf8(key);
    let entry = encode_entry(key, value);
    let w = data.subrange(pos, pos + entry.len());
    lemma_u32_bytes(kb.len() as u32);
    lemma_u32_bytes(value.len() as u32);
    assert((kb.len() as u32) as int == kb.len());
    assert((value.len() as u32) as int == value.len());
    assert forall|k: int| pos <= k < pos + 4 implies #[trigger] data[k] == u32_bytes(
        kb.len() as u32,
    )[0 + (k - pos)] by {
        assert(data[k] == w[k - pos]);
    }
    lemma_le_u32_window(data, pos, u32_bytes(kb.len() as u32), 0);
    let key_at = pos + 4;
    assert(data.subrange(key_at, key_at + kb.len()) =~= kb) by {
        assert forall|k: int| 0 <= k < kb.len() implies data.subrange(key_at, key_at + kb.len())[k]
            == kb[k] by {
            assert(data[key_at + k] == w[4 + k]);
        }
    }
    vstd::utf8::encode_utf8_valid_utf8(key);
    vstd::utf8::encode_utf8_decode_utf8(key);
    let len_at = key_at + kb.len();
    assert forall|k: int| len_at <= k < len_at + 4 implies #[trigger] data[k] == u32_bytes(
        value.len() as u32,
    )[0 + (k - len_at)] by {
        assert(data[k] == w[k - pos]);
    }
    lemma_le_u32_window(data, len_at, u32_bytes(value.len() as u32), 0);
    let val_at = len_at + 4;
    assert(data.subrange(val_at, val_at + value.len()) =~= value) by {
        assert forall|k: int| 0 <= k < value.len() implies data.subrange(
            val_at,
            val_at + value.len(),
        )[k] == value[k] by {
            assert(data[val_at + k] == w[val_at - pos + k]);
        }
    }
}

/// Decoding the encoded properties `k..` into the pairs of the first `k` gives back all
/// of them.
proof fn lemma_decode_rest(es: Seq<(String, PropertyData)>, k: int)
    requires
        distinct_keys(es),
        es.len() < 0x1_0000_0000,
        forall|j: int|
            0 <= j < es.len() ==> encode_utf8((#[trigger] es[j]).0@).len() < 0x1_0000_0000
                && es[j].1.bytes@.len() < 0x1_0000_0000,
        0 <= k <= es.len(),
    ensures
        decode_from(
            encoded_properties(es),
            (4 + encode_entries(es.take(k)).len()) as int,
            (es.len() - k) as nat,
            property_pairs(es.take(k)),
        ) == Ok::<Seq<(Seq<char>, Seq<u8>)>, Seq<char>>(property_pairs(es)),
    decreases es.len() - k,
{
    let data = encoded_properties(es);
    let n = es.len() as int;
    if k == n {
        assert(es.take(k) =~= es);
    } else {
        let key = es[k].0@;
        let value = es[k].1.bytes@;
        let entry = encode_entry(key, value);
        let before = encode_entries(es.take(k));
        let pos: int = (4 + before.len()) as int;
        lemma_encode_prefix(es, k);
        lemma_encode_extends(es, k + 1, n);
        assert(es.take(n) =~= es);
        let prefix = encode_entries(es.take(k + 1));
        assert(data.subrange(pos, pos + entry.len()) =~= entry) by {
            assert forall|x: int| 0 <= x < entry.len() implies data.subrange(
                pos,
                pos + entry.len(),
            )[x] == entry[x] by {
                assert(data[pos + x] == encode_entries(es)[pos + x - 4]);
                assert(encode_entries(es)[pos + x - 4] == prefix[pos + x - 4]);
                assert(prefix[before.len() + x] == entry[x]);
            }
        }
        assert(es[k] == es[k]);
        lemma_decode_step(data, pos, (n - k) as nat, property_pairs(es.take(k)), key, value);
        let m = property_pairs(es.take(k));
        assert forall|i: int| 0 <= i < m.len() implies (#[trigger] m[i]).0 != key by {
            assert(m[i].0 == es[i].0@);
            assert(es[i].0@ != es[k].0@);
        }
        assert(assoc_insert(m, key, value) =~= property_pairs(es.take(k + 1)));
        lemma_decode_rest(es, k + 1);
    }
}

/// Decoding an encoded property map gives back its keys and bytes, in order, when the
/// count and every length fit the wire's 32-bit fields.
pub proof fn lemma_decode_encoded(es: Seq<(String, PropertyData)>)
    requires
        distinct_keys(es),
        es.len() < 0x1_0000_0000,
        forall|j: int|
            0 <= j < es.len() ==> encode_utf8((#[trigger] es[j]).0@).len() < 0x1_0000_0000
                && es[j].1.bytes@.len() < 0x1_0000_0000,
    ensures
        encoded_properties(es).len() >= 4,
        decode_from(encoded_properties(es), 4, le_u32(encoded_properties(es), 0) as nat, seq![])
            == Ok::<Seq<(Seq<char>, Seq<u8>)>, Seq<char>>(property_pairs(es)),
{
    let data = encoded_properties(es);
    lemma_u32_bytes(es.len() as u32);
    lemma_le_u32_window(data, 0, u32_bytes(es.len() as u32), 0);
    assert(es.take(0) =~= Seq::<(String, PropertyData)>::empty());
    assert(property_pairs(es.take(0)) =~= seq![]);
    lemma_decode_rest(es, 0);
}

} // verus!

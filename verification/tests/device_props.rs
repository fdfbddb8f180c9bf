use nextcore_core::config::{DevicePropValue, DevicePropertiesConfig};
use nextcore_core::device_props::{
    apply_properties, decode_properties, encode_properties, PropertyData,
};
use nextcore_core::string_map::StringMap;

fn props_map(data: &[(&str, Vec<u8>)]) -> StringMap<PropertyData> {
    let mut map = StringMap::new();
    for (k, v) in data {
        map.insert(k.to_string(), PropertyData { bytes: v.clone() });
    }
    map
}

#[test]
fn test_encode_decode_roundtrip() {
    let props = props_map(&[
        ("AAPL,ig-platform-id", vec![0x0A, 0x00, 0x00, 0x0D]),
        ("device-id", vec![0x00, 0x12, 0x00, 0x00]),
        ("framebuffer-patch-enable", vec![1]),
    ]);

    let encoded = encode_properties(&props);
    let decoded = decode_properties(&encoded).expect("decode should succeed");

    assert_eq!(decoded.len(), props.len());
    for (key, want) in props.entries() {
        let got = decoded.get(key).expect("key should be present after roundtrip");
        assert_eq!(got.bytes, want.bytes, "bytes mismatch for key {key}");
    }
}

#[test]
fn test_apply_from_config() {
    let mut add: StringMap<StringMap<DevicePropValue>> = StringMap::new();
    let mut gpu_props = StringMap::new();
    gpu_props.insert(
        "AAPL,ig-platform-id".into(),
        DevicePropValue::Data(vec![0x0A, 0x00, 0x00, 0x0D]),
    );
    gpu_props.insert("framebuffer-patch-enable".into(), DevicePropValue::Bool(true));
    add.insert("PciRoot(0)/Pci(0x2,0x0)".into(), gpu_props);

    let config = DevicePropertiesConfig { add, delete: StringMap::new() };
    let entries = apply_properties(&config);

    assert_eq!(entries.len(), 1, "one device path should be applied");
    assert_eq!(entries[0].path, "PciRoot(0)/Pci(0x2,0x0)");

    let ig = entries[0]
        .properties
        .get("AAPL,ig-platform-id")
        .expect("ig-platform-id present");
    assert_eq!(ig.bytes, vec![0x0A, 0x00, 0x00, 0x0D]);

    let patch = entries[0]
        .properties
        .get("framebuffer-patch-enable")
        .expect("bool property present");
    assert_eq!(patch.bytes, vec![1]);
}

#[test]
fn test_property_data_types() {
    let int = PropertyData::from_config_value(&DevicePropValue::Integer(0x12345678));
    assert_eq!(int.bytes, 0x12345678i64.to_le_bytes().to_vec());

    let string =
        PropertyData::from_config_value(&DevicePropValue::String("TestString".into()));
    assert_eq!(string.bytes, b"TestString".to_vec());

    let bool_true = PropertyData::from_config_value(&DevicePropValue::Bool(true));
    assert_eq!(bool_true.bytes, vec![1]);

    let bool_false = PropertyData::from_config_value(&DevicePropValue::Bool(false));
    assert_eq!(bool_false.bytes, vec![0]);

    let data = PropertyData::from_config_value(&DevicePropValue::Data(vec![0xAA, 0xBB, 0xCC]));
    assert_eq!(data.bytes, vec![0xAA, 0xBB, 0xCC]);
}

#[test]
fn test_apply_empty_config() {
    let config = DevicePropertiesConfig { add: StringMap::new(), delete: StringMap::new() };
    let entries = apply_properties(&config);
    assert!(entries.is_empty(), "empty config yields no entries");
}

#[test]
fn negative_integer_property_is_twos_complement() {
    let neg = PropertyData::from_config_value(&DevicePropValue::Integer(-2));
    assert_eq!(neg.bytes, vec![0xFE, 0xFF, 0xFF, 0xFF, 0xFF, 0xFF, 0xFF, 0xFF]);
}

#[test]
fn encoded_property_layout_is_count_then_length_prefixed_entries() {
    let props = props_map(&[("ab", vec![7, 8, 9])]);
    let encoded = encode_properties(&props);
    assert_eq!(
        encoded,
        vec![1, 0, 0, 0, 2, 0, 0, 0, b'a', b'b', 3, 0, 0, 0, 7, 8, 9]
    );
}

#[test]
fn decode_rejects_truncated_input() {
    assert!(decode_properties(&[1, 0, 0]).is_err());
    assert!(decode_properties(&[1, 0, 0, 0, 5, 0, 0, 0, b'a']).is_err());
    let empty = decode_properties(&[0, 0, 0, 0]).expect("zero entries decode");
    assert!(empty.is_empty());
}

#[test]
fn roundtrip_of_empty_map_and_repeated_keys() {
    let empty: StringMap<PropertyData> = StringMap::new();
    let decoded = decode_properties(&encode_properties(&empty)).expect("empty roundtrip");
    assert_eq!(decoded.len(), 0);

    // Inserting the same key twice keeps the later value, and that value survives the roundtrip.
    let mut props = props_map(&[("k", vec![1])]);
    props.insert("k".to_string(), PropertyData { bytes: vec![2, 3] });
    let decoded = decode_properties(&encode_properties(&props)).expect("roundtrip");
    assert_eq!(decoded.len(), 1);
    assert_eq!(decoded.get("k").expect("present").bytes, vec![2, 3]);
}

#[test]
fn invalid_utf8_key_is_decoded_with_replacement_characters() {
    let data = [1, 0, 0, 0, 2, 0, 0, 0, b'a', 0xFF, 1, 0, 0, 0, 9];
    let decoded = decode_properties(&data).expect("well-framed input decodes");
    assert_eq!(decoded.len(), 1);
    assert_eq!(decoded.get("a\u{FFFD}").expect("lossy key").bytes, vec![9]);
}

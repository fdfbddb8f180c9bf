use nextcore_core::error::CoreError;
use nextcore_core::kext::{kext_info_from_dictionary, parse_info_plist};

const INFO_PLIST: &str = r#"<?xml version="1.0" encoding="UTF-8"?>
<!DOCTYPE plist PUBLIC "-//Apple//DTD PLIST 1.0//EN" "http://www.apple.com/DTDs/PropertyList-1.0.dtd">
<plist version="1.0">
<dict>
    <key>CFBundleIdentifier</key>
    <string>com.nextcore.TestKext</string>
    <key>CFBundleExecutable</key>
    <string>TestKext</string>
    <key>CFBundleVersion</key>
    <string>1.0.0</string>
</dict>
</plist>
"#;

#[test]
fn test_parse_info_plist() {
    let info = parse_info_plist(INFO_PLIST.as_bytes()).expect("plist should parse");
    assert_eq!(info.bundle_id, "com.nextcore.TestKext");
    assert_eq!(info.executable.as_deref(), Some("TestKext"));
    assert_eq!(info.version, "1.0.0");
}

fn entry(key: &str, value: Option<&str>) -> (String, Option<String>) {
    (key.to_string(), value.map(|v| v.to_string()))
}

#[test]
fn short_version_is_the_fallback_and_missing_executable_is_none() {
    let info = kext_info_from_dictionary(&[
        entry("CFBundleIdentifier", Some("com.example.A")),
        entry("CFBundleShortVersionString", Some("2.1")),
    ])
    .expect("identifier present");
    assert_eq!(info.bundle_id, "com.example.A");
    assert_eq!(info.executable, None);
    assert_eq!(info.version, "2.1");
    assert_eq!(info.plist_path, "");

    let bare = kext_info_from_dictionary(&[entry("CFBundleIdentifier", Some("com.example.B"))])
        .expect("identifier present");
    assert_eq!(bare.version, "");
}

#[test]
fn non_string_identifier_counts_as_missing() {
    let err = kext_info_from_dictionary(&[entry("CFBundleIdentifier", None)]).unwrap_err();
    assert!(matches!(err, CoreError::KextPlist(m) if m == "CFBundleIdentifier missing"));
}

#[test]
fn plist_without_identifier_or_dictionary_root_is_rejected() {
    let no_id = b"<?xml version=\"1.0\"?><plist version=\"1.0\"><dict><key>CFBundleVersion</key><string>1</string></dict></plist>";
    assert!(matches!(parse_info_plist(no_id), Err(CoreError::KextPlist(m)) if m == "CFBundleIdentifier missing"));

    let array_root = b"<?xml version=\"1.0\"?><plist version=\"1.0\"><array><string>x</string></array></plist>";
    assert!(matches!(parse_info_plist(array_root), Err(CoreError::KextPlist(m)) if m == "Info.plist root is not a dictionary"));

    assert!(matches!(parse_info_plist(b"not a plist"), Err(CoreError::KextPlist(_))));
}

#[test]
fn unreadable_plist_error_names_the_parser() {
    match parse_info_plist(b"not a plist") {
        Err(CoreError::KextPlist(m)) => assert!(m.starts_with("plist parse failed: "), "{m}"),
        other => panic!("unexpected {other:?}"),
    }
}

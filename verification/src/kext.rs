//! Kernel extension identity from a bundle's Info.plist.
use vstd::prelude::*;
use crate::error::CoreError;
use crate::string_map::str_eq;

verus! {

#[derive(Debug, Clone)]
pub struct KextInfo {
    pub bundle_id: String,
    pub executable: Option<String>,
    pub version: String,
    pub plist_path: String,
}

/// What `plist::from_bytes` makes of `data` as a `plist::Value`: for a dictionary its
/// entries in order with the text of each string value, `None` for any other root, or
/// the text of its error.
pub uninterp spec fn plist_dictionary(data: Seq<u8>) -> Result<Option<Seq<(Seq<char>, Option<Seq<char>>)>>, Seq<char>>;

/// The keys and string values of `entries`.
pub open spec fn entry_texts(entries: Seq<(String, Option<String>)>) -> Seq<(Seq<char>, Option<Seq<char>>)> {
    entries.map_values(
        |e: (String, Option<String>)|
            (
                e.0@,
                match e.1 {
                    Some(v) => Some(v@),
                    None => None,
                },
            ),
    )
}

/// `plist::from_bytes` into a `plist::Value`, a dictionary root read into its keys and
/// string values in order; the result is a function of the bytes alone.
#[verifier::external_body]
fn read_plist_dictionary(data: &[u8]) -> (r: Result<Option<Vec<(String, Option<String>)>>, String>)
    ensures
        match r {
            Ok(Some(es)) => plist_dictionary(data@) == Ok::<
                Option<Seq<(Seq<char>, Option<Seq<char>>)>>,
                Seq<char>,
            >(Some(entry_texts(es@))),
            Ok(None) => plist_dictionary(data@) == Ok::<
                Option<Seq<(Seq<char>, Option<Seq<char>>)>>,
                Seq<char>,
            >(None),
            Err(m) => plist_dictionary(data@) == Err::<
                Option<Seq<(Seq<char>, Option<Seq<char>>)>>,
                Seq<char>,
            >(m@),
        },
{
    match plist::from_bytes::<plist::Value>(data) {
        Err(e) => Err(format!("{e}")),
        Ok(plist::Value::Dictionary(d)) => Ok(Some(
            d.iter().map(|(k, v)| (k.clone(), v.as_string().map(String::from))).collect(),
        )),
        Ok(_) => Ok(None),
    }
}

/// The string value of the first entry for `key`; none where the key is absent or its
/// value is not a string.
pub open spec fn string_field(entries: Seq<(Seq<char>, Option<Seq<char>>)>, key: Seq<char>) -> Option<Seq<char>>
    decreases entries.len(),
{
    if entries.len() == 0 {
        None
    } else if entries[0].0 == key {
        entries[0].1
    } else {
        string_field(entries.drop_first(), key)
    }
}

/// The identity an Info.plist dictionary gives: the bundle identifier (required), the
/// executable, and the bundle version or else the short version string or else nothing.
pub open spec fn kext_identity(entries: Seq<(Seq<char>, Option<Seq<char>>)>) -> Option<
    (Seq<char>, Option<Seq<char>>, Seq<char>),
> {
    match string_field(entries, "CFBundleIdentifier"@) {
        None => None,
        Some(id) => Some(
            (
                id,
                string_field(entries, "CFBundleExecutable"@),
                match string_field(entries, "CFBundleVersion"@) {
                    Some(v) => v,
                    None => match string_field(entries, "CFBundleShortVersionString"@) {
                        Some(v) => v,
                        None => seq![],
                    },
                },
            ),
        ),
    }
}

fn get_string_field(entries: &[(String, Option<String>)], key: &str) -> (r: Option<String>)
    ensures
        match string_field(entry_texts(entries@), key@) {
            Some(v) => r matches Some(s) && s@ == v,
            None => r is None,
        },
{
    let ghost all = entry_texts(entries@);
    let mut k: usize = 0;
    assert(all.subrange(0, all.len() as int) =~= all);
    while k < entries.len()
        invariant
            all == entry_texts(entries@),
            k <= entries@.len(),
            string_field(all, key@) == string_field(all.subrange(k as int, all.len() as int), key@),
        decreases entries@.len() - k,
    {
        let ghost rest = all.subrange(k as int, all.len() as int);
        assert(rest.drop_first() =~= all.subrange(k + 1, all.len() as int));
        assert(rest[0] == all[k as int]);
        if str_eq(entries[k].0.as_str(), key) {
            return entries[k].1.clone();
        }
        k = k + 1;
    }
    None
}

/// The identity of a kext from the entries of its Info.plist dictionary.
pub fn kext_info_from_dictionary(entries: &[(String, Option<String>)]) -> (r: Result<KextInfo, CoreError>)
    ensures
        match kext_identity(entry_texts(entries@)) {
            None => r matches Err(CoreError::KextPlist(m)) && m@ == "CFBundleIdentifier missing"@,
            Some((id, exe, version)) => r matches Ok(info) && info.bundle_id@ == id && match exe {
                Some(x) => info.executable matches Some(e) && e@ == x,
                None => info.executable is None,
            } && info.version@ == version && info.plist_path@.len() == 0,
        },
{
    let bundle_id = match get_string_field(entries, "CFBundleIdentifier") {
        Some(id) => id,
        None => return Err(CoreError::KextPlist(String::from_str("CFBundleIdentifier missing"))),
    };
    let executable = get_string_field(entries, "CFBundleExecutable");
    let version = match get_string_field(entries, "CFBundleVersion") {
        Some(v) => v,
        None => match get_string_field(entries, "CFBundleShortVersionString") {
            Some(v) => v,
            None => String::new(),
        },
    };
    Ok(KextInfo { bundle_id, executable, version, plist_path: String::new() })
}

pub fn parse_info_plist(data: &[u8]) -> (r: Result<KextInfo, CoreError>)
    ensures
        match plist_dictionary(data@) {
            Err(m) => r matches Err(CoreError::KextPlist(s)) && s@ == "plist parse failed: "@ + m,
            Ok(None) => r matches Err(CoreError::KextPlist(s)) && s@
                == "Info.plist root is not a dictionary"@,
            Ok(Some(es)) => match kext_identity(es) {
                None => r matches Err(CoreError::KextPlist(m)) && m@ == "CFBundleIdentifier missing"@,
                Some((id, exe, version)) => r matches Ok(info) && info.bundle_id@ == id && match exe {
                    Some(x) => info.executable matches Some(e) && e@ == x,
                    None => info.executable is None,
                } && info.version@ == version && info.plist_path@.len() == 0,
            },
        },
{
    match read_plist_dictionary(data) {
        Err(message) => {
            let mut text = String::from_str("plist parse failed: ");
            text.append(message.as_str());
            Err(CoreError::KextPlist(text))
        },
        Ok(None) => Err(CoreError::KextPlist(String::from_str("Info.plist root is not a dictionary"))),
        Ok(Some(entries)) => kext_info_from_dictionary(entries.as_slice()),
    }
}

} // verus!

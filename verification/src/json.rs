//! The trusted boundary to serde_json, and the decoding of the import
//! wire format: an object whose `commands` field maps command names to
//! response strings. What the decoder returns is a function of the text
//! alone, so it carries a name that the import's contract can speak of;
//! everything that gates an import is verified code.

use vstd::prelude::*;

verus! {

use crate::service::entries_view;

/// The entries of the object under `key` in the JSON text `raw`, each
/// value a string, in the object's order — or nothing, when the text is
/// malformed, `key` is absent or not an object, or any value is not a
/// string. A function of the text and the key alone.
pub uninterp spec fn object_entries_of(raw: Seq<char>, key: Seq<char>) -> Option<
    Seq<(Seq<char>, Seq<char>)>,
>;

/// Relies on serde_json's `from_str`, `Value::get`, `Value::as_object`,
/// `Map::iter` and `Value::as_str`: decodes the text, takes the object
/// under `key`, and hands its entries out as strings in the map's order;
/// any malformed payload yields nothing, with no panic.
#[verifier::external_body]
fn decode_object_entries(raw: &str, key: &str) -> (r: Option<Vec<(String, String)>>)
    ensures
        match r {
            Some(v) => object_entries_of(raw@, key@) == Some(entries_view(v@)),
            None => object_entries_of(raw@, key@) is None,
        },
{
    let parsed: serde_json::Value = serde_json::from_str(raw).ok()?;
    let mapping = parsed.get(key)?.as_object()?;
    let mut out = Vec::new();
    for (k, v) in mapping.iter() {
        out.push((k.clone(), v.as_str()?.to_owned()));
    }
    Some(out)
}

/// The name-to-response entries of an import payload: the object under
/// its `commands` field, when the payload is a well-formed flat
/// string-to-string mapping.
pub open spec fn import_entries_of(raw: Seq<char>) -> Option<Seq<(Seq<char>, Seq<char>)>> {
    object_entries_of(raw, "commands"@)
}

/// Decodes an import payload and validates it as a flat string-to-string
/// mapping, so an import can reject a malformed payload before its first
/// write.
pub(crate) fn parse_import(raw: &str) -> (r: Option<Vec<(String, String)>>)
    ensures
        match r {
            Some(v) => import_entries_of(raw@) == Some(entries_view(v@)),
            None => import_entries_of(raw@) is None,
        },
{
    decode_object_entries(raw, "commands")
}

} // verus!

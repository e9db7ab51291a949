//! Trusted boundary: thin wrappers around outside crates and the few parts
//! of std that vstd gives no specification for. Each wrapper's contract is
//! the only thing the rest of the library knows about the call it makes.

use vstd::prelude::*;

verus! {

/// Relies on `core::iter::Iterator::collect` for `String`: collecting the
/// characters of a vector yields the string with exactly those characters.
#[verifier::external_body]
pub(crate) fn chars_to_string(v: &Vec<char>) -> (r: String)
    ensures
        r@ == v@,
{
    v.iter().collect()
}

#[verifier::external_type_specification]
#[verifier::external_body]
pub struct ExJsonValue(serde_json::Value);

/// Names the string field a JSON document holds under a key; absent when
/// the document is not an object, lacks the key, or the field is not a
/// string. The result depends on the document and key alone.
pub uninterp spec fn json_str_of(v: serde_json::Value, key: Seq<char>) -> Option<Seq<char>>;

/// Names the array field a JSON document holds under a key; absent when
/// the document is not an object, lacks the key, or the field is not an
/// array. The result depends on the document and key alone.
pub uninterp spec fn json_array_of(v: serde_json::Value, key: Seq<char>) -> Option<
    Seq<serde_json::Value>,
>;

/// Relies on `serde_json::Value::get` and `Value::as_str`: the value of
/// the named field, when the document is an object, the field is present
/// and it holds a string.
#[verifier::external_body]
pub(crate) fn json_str_field(v: &serde_json::Value, key: &str) -> (r: Option<String>)
    ensures
        match json_str_of(*v, key@) {
            None => r is None,
            Some(s) => r matches Some(x) && x@ == s,
        },
{
    v.get(key).and_then(|x| x.as_str()).map(|s| s.to_string())
}

/// Relies on `serde_json::Value::get` and `Value::as_array`: the value of
/// the named field, when the document is an object, the field is present
/// and it holds an array. `Value`'s derived `Clone` yields values equal
/// to the array's elements.
#[verifier::external_body]
pub(crate) fn json_array_field(v: &serde_json::Value, key: &str) -> (r: Option<
    Vec<serde_json::Value>,
>)
    ensures
        match json_array_of(*v, key@) {
            None => r is None,
            Some(vs) => r matches Some(a) && a@ == vs,
        },
{
    v.get(key).and_then(|x| x.as_array()).cloned()
}

/// Names the five string fields of one listing record: what
/// `serde_json` reads from the line when it parses as a JSON object
/// carrying them all. The result depends on the bytes alone.
pub uninterp spec fn record_of(line: Seq<u8>) -> Option<crate::config::SpecVideo>;

/// Relies on `serde_json::from_slice`, `Value::get` and `Value::as_str`:
/// one listing record's id, title, description, upload date and
/// thumbnail, absent when the line is not a JSON object carrying all
/// five as strings.
#[verifier::external_body]
pub(crate) fn read_record_fields(line: &[u8]) -> (r: Option<crate::config::VideoInfo>)
    ensures
        match record_of(line@) {
            None => r is None,
            Some(f) => r matches Some(v) && v.id@ == f.id && v.title@ == f.title && v.description@
                == f.description && v.upload_date@ == f.upload_date && v.thumbnail_url@
                == f.thumbnail_url,
        },
{
    let v: serde_json::Value = serde_json::from_slice(line).ok()?;
    Some(crate::config::VideoInfo {
        id: v.get("id")?.as_str()?.to_string(),
        title: v.get("title")?.as_str()?.to_string(),
        description: v.get("description")?.as_str()?.to_string(),
        upload_date: v.get("upload_date")?.as_str()?.to_string(),
        thumbnail_url: v.get("thumbnail")?.as_str()?.to_string(),
    })
}

/// Names the YYYYMMDD rendering of an epoch timestamp; the result depends
/// on the timestamp alone.
pub uninterp spec fn yyyymmdd_of(secs: int) -> Seq<char>;

/// The first epoch second of year 10000; timestamps below it render as
/// eight-digit dates and lie well inside chrono's range.
pub const MAX_FORMAT_SECS: u64 = 253402300800;

/// Relies on `chrono::DateTime::<Utc>::from_timestamp` and its `%Y%m%d`
/// formatting: renders an epoch timestamp as its UTC calendar date. In
/// range, `from_timestamp` returns `Some`.
#[verifier::external_body]
pub(crate) fn format_yyyymmdd(secs: u64) -> (r: String)
    requires
        secs < MAX_FORMAT_SECS,
    ensures
        r@ == yyyymmdd_of(secs as int),
{
    let dt = chrono::DateTime::<chrono::Utc>::from_timestamp(secs as i64, 0).unwrap();
    dt.format("%Y%m%d").to_string()
}

/// Names which strings parse as URLs; the result depends on the string
/// alone.
pub uninterp spec fn is_url(s: Seq<char>) -> bool;

/// Relies on `url::Url::parse`: whether the string parses as an absolute
/// URL.
#[verifier::external_body]
pub(crate) fn url_parse_ok(s: &str) -> (r: bool)
    ensures
        r == is_url(s@),
{
    url::Url::parse(s).is_ok()
}

} // verus!

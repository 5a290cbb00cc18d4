//! The trusted boundary: JSON text parsing through serde_json, timestamp
//! parsing and the current clock through chrono, and two character-level
//! conversions from std that vstd gives no specification for. Everything
//! else in the crate is verified against the contracts stated here.

use vstd::prelude::*;

use crate::value::JsonValue;

verus! {

/// serde_json's dynamic JSON value, opaque to verification; it only passes
/// through the parsing boundary below.
#[verifier::external_type_specification]
#[verifier::external_body]
pub struct ExSerdeValue(serde_json::Value);

/// What the JSON parser yields for a text: this crate's value for the tree,
/// or `None` when the text is not valid JSON. The result is a function of
/// the text alone.
pub uninterp spec fn json_parse(s: Seq<char>) -> Option<JsonValue>;

/// Relies on serde_json::Value: its six variants map one-for-one onto
/// [`JsonValue`]'s. Object fields come out in the map's iteration order and
/// numbers keep the text serde_json prints for them; a serde_json map never
/// repeats a key, so the result is well-formed.
#[verifier::external_body]
pub(crate) fn from_serde(v: &serde_json::Value) -> (r: JsonValue)
    ensures
        r.wf(),
{
    match v {
        serde_json::Value::Null => JsonValue::Null,
        serde_json::Value::Bool(b) => JsonValue::Bool(*b),
        serde_json::Value::Number(n) => JsonValue::Num(n.to_string()),
        serde_json::Value::String(s) => JsonValue::Text(s.clone()),
        serde_json::Value::Array(a) => JsonValue::Arr(a.iter().map(from_serde).collect()),
        serde_json::Value::Object(m) => JsonValue::Obj(
            m.iter().map(|(k, x)| (k.clone(), from_serde(x))).collect(),
        ),
    }
}

/// Relies on serde_json::from_str::<serde_json::Value>: parses one JSON
/// text, failing exactly when the text is not valid JSON; the parsed tree is
/// carried over by [`from_serde`].
#[verifier::external_body]
pub(crate) fn parse_json_text(s: &str) -> (r: Option<JsonValue>)
    ensures
        r == json_parse(s@),
        r matches Some(v) ==> v.wf(),
{
    match serde_json::from_str::<serde_json::Value>(s) {
        Ok(v) => Some(from_serde(&v)),
        Err(_) => None,
    }
}

/// What chrono's timestamp parser yields for a text: the instant as whole
/// seconds and subsecond nanoseconds since the Unix epoch, or `None` when
/// the text is not an RFC-3339 timestamp. Chrono orders instants exactly by
/// this pair, so comparing pairs lexicographically compares instants.
pub uninterp spec fn ts_parse(s: Seq<char>) -> Option<(i64, u32)>;

/// Relies on chrono: `str::parse::<DateTime<Utc>>` accepts RFC-3339 text,
/// the result depends on the text alone, and `timestamp` /
/// `timestamp_subsec_nanos` read the instant back out.
#[verifier::external_body]
pub(crate) fn parse_timestamp(s: &str) -> (r: Option<(i64, u32)>)
    ensures
        r == ts_parse(s@),
{
    match s.parse::<chrono::DateTime<chrono::Utc>>() {
        Ok(dt) => Some((dt.timestamp(), dt.timestamp_subsec_nanos())),
        Err(_) => None,
    }
}

/// Relies on chrono's `Utc::now` and `to_rfc3339`: the current time printed
/// in RFC-3339 form, which chrono's own parser accepts again.
#[verifier::external_body]
pub(crate) fn now_rfc3339() -> (r: String)
    ensures
        ts_parse(r@) is Some,
{
    chrono::Utc::now().to_rfc3339()
}

/// What std's trim leaves of a text: the text without leading and trailing
/// whitespace, a function of the text alone.
pub uninterp spec fn trimmed(s: Seq<char>) -> Seq<char>;

/// Relies on str::trim: strips leading and trailing whitespace.
#[verifier::external_body]
pub(crate) fn trim_str(s: &str) -> (r: &str)
    ensures
        r@ == trimmed(s@),
{
    s.trim()
}

/// Relies on str::chars: the characters of the text, in order.
#[verifier::external_body]
pub(crate) fn str_chars(s: &str) -> (r: Vec<char>)
    ensures
        r@ == s@,
{
    s.chars().collect()
}

/// Relies on String's FromIterator<char>: collecting characters builds
/// exactly the string of those characters.
#[verifier::external_body]
pub(crate) fn chars_string(cs: &Vec<char>) -> (r: String)
    ensures
        r@ == cs@,
{
    cs.iter().collect()
}

} // verus!

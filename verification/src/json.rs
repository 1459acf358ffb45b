//! Trusted boundary to `serde_json`: parsing a streamed event payload
//! and parsing a buffered response body.
//!
//! What a JSON parse returns cannot be restated in a few lines, but it
//! is a function of the input bytes alone, so each parse result is
//! given a name (`event_deltas_of`, `buffered_choices_of`) and the
//! verified logic is stated over those names.

use vstd::prelude::*;

verus! {

/// The parse of one streamed event payload: `None` when the payload is
/// not a JSON object carrying a `choices` array, otherwise one entry
/// per choice, holding that choice's `delta.content` string (as UTF-8
/// bytes) when it has one.
pub uninterp spec fn event_deltas_of(payload: Seq<u8>) -> Option<Seq<Option<Seq<u8>>>>;

/// Relies on `serde_json::from_str` (with `String::from_utf8_lossy`
/// decoding the payload first, so invalid byte sequences are replaced
/// rather than fatal): returns `None` exactly when the payload does not
/// parse to a JSON object with a `choices` array; otherwise one entry
/// per choice, in order, each the choice's `delta.content` string when
/// present. The result depends on the payload bytes alone.
#[verifier::external_body]
pub(crate) fn parse_event_deltas(payload: &[u8]) -> (r: Option<Vec<Option<Vec<u8>>>>)
    ensures
        r.deep_view() == event_deltas_of(payload@),
{
    let text = String::from_utf8_lossy(payload);
    let v: serde_json::Value = serde_json::from_str(&text).ok()?;
    let arr = v.get("choices")?.as_array()?;
    let mut out: Vec<Option<Vec<u8>>> = Vec::new();
    for c in arr {
        out.push(c.get("delta").and_then(|d| d.get("content")).and_then(
            serde_json::Value::as_str,
        ).map(|s| s.as_bytes().to_vec()));
    }
    Some(out)
}

/// The parse of a buffered response body: `None` when the body is not a
/// JSON object carrying a `choices` array of objects each holding
/// `message.role` and `message.content` strings; otherwise the ordered
/// `(role, content)` pairs, as UTF-8 bytes.
pub uninterp spec fn buffered_choices_of(body: Seq<u8>) -> Option<Seq<(Seq<u8>, Seq<u8>)>>;

/// Relies on `serde_json::from_slice`: returns `None` exactly when the
/// body does not parse to a JSON object whose `choices` array holds
/// objects each with `message.role` and `message.content` strings;
/// otherwise those `(role, content)` pairs, in the array's order. The
/// result depends on the body bytes alone.
#[verifier::external_body]
pub(crate) fn parse_buffered_choices(body: &[u8]) -> (r: Option<Vec<(Vec<u8>, Vec<u8>)>>)
    ensures
        r.deep_view() == buffered_choices_of(body@),
{
    let v: serde_json::Value = serde_json::from_slice(body).ok()?;
    let arr = v.get("choices")?.as_array()?;
    let mut out: Vec<(Vec<u8>, Vec<u8>)> = Vec::new();
    for c in arr {
        let m = c.get("message")?;
        let role = m.get("role")?.as_str()?.as_bytes().to_vec();
        let content = m.get("content")?.as_str()?.as_bytes().to_vec();
        out.push((role, content));
    }
    Some(out)
}

} // verus!

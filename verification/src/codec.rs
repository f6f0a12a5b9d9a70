//! The record codec: turns a raw message body into a domain record, with one
//! error per way a body can be unusable.

use vstd::prelude::*;
use crate::message::{DomainRecord, RecordView};

verus! {

/// Why a message body could not be decoded.
#[derive(Clone, Copy, PartialEq, Eq, Structural, Debug)]
pub enum DecodeError {
    /// The message arrived without a body.
    EmptyBody,
    /// The body is present but is not a well-formed record document.
    Malformed,
}

/// The item identifier a record document carries, or `None` where the text is
/// not a well-formed record document.  The document format is the outside
/// codec's; only the identifier is named here.
pub uninterp spec fn json_item_id(body: Seq<char>) -> Option<Seq<char>>;

/// Relies on `serde_json::from_str::<serde_json::Value>` and
/// `serde_json::Value::get`: whether a text parses as a JSON document, and
/// which string sits under its `item_id` key, depend on the characters of the
/// text alone.
#[verifier::external_body]
fn parse_item_id(body: &str) -> (r: Option<String>)
    ensures
        match (r, json_item_id(body@)) {
            (Option::Some(s), Option::Some(id)) => s@ == id,
            (Option::None, Option::None) => true,
            _ => false,
        },
{
    let value: serde_json::Value = match serde_json::from_str(body) {
        Ok(v) => v,
        Err(_) => return None,
    };
    match value.get("item_id") {
        Some(serde_json::Value::String(id)) => Some(id.clone()),
        _ => None,
    }
}

/// What [`decode`] returns for a given body: an absent body is an
/// [`DecodeError::EmptyBody`], a body without a recoverable item identifier is
/// [`DecodeError::Malformed`], and any other body yields the record whose key
/// is the recovered identifier and whose payload is the body itself.
pub open spec fn decode_spec(body: Option<Seq<char>>) -> Result<RecordView, DecodeError> {
    match body {
        Option::None => Result::Err(DecodeError::EmptyBody),
        Option::Some(s) => match json_item_id(s) {
            Option::None => Result::Err(DecodeError::Malformed),
            Option::Some(id) => Result::Ok(RecordView { item_id: id, payload: s }),
        },
    }
}

/// The view of an optional body.
pub open spec fn body_view(body: Option<String>) -> Option<Seq<char>> {
    match body {
        Option::Some(s) => Option::Some(s@),
        Option::None => Option::None,
    }
}

/// Decode one raw message body into a domain record.  Pure and stateless; a
/// failure concerns this body alone.
pub fn decode(body: &Option<String>) -> (r: Result<DomainRecord, DecodeError>)
    ensures
        match (r, decode_spec(body_view(*body))) {
            (Result::Ok(rec), Result::Ok(rv)) => rec@ == rv,
            (Result::Err(e1), Result::Err(e2)) => e1 == e2,
            _ => false,
        },
{
    match body {
        Option::None => Result::Err(DecodeError::EmptyBody),
        Option::Some(s) => match parse_item_id(s.as_str()) {
            Option::None => Result::Err(DecodeError::Malformed),
            Option::Some(id) => Result::Ok(DomainRecord { item_id: id, payload: s.clone() }),
        },
    }
}

} // verus!

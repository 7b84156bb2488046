//! Decoder for source maps: a compact, delta-encoded description relating
//! positions in a generated text file back to positions in original source
//! files. The crate decodes the packed mapping string through a base-64
//! variable-length-quantity codec, validates cross references into the
//! `sources` and `names` tables, and wraps the result in a `Cache` that
//! answers nearest-mapping point queries.
use vstd::prelude::*;

pub mod base64;
pub mod base64_vlq;
pub mod consume;
pub mod decimal;

pub use consume::{
    Cache, CodePosition, Mapping, NameValue, ParseError, SourceMap, parse_mappings,
};

verus! {

/// Relies on String::from_utf8: it succeeds exactly when the bytes are valid
/// UTF-8, yielding the characters those bytes encode.
#[verifier::external_body]
fn string_from_utf8(bytes: &[u8]) -> (r: Option<String>)
    ensures
        r is Some <==> vstd::utf8::valid_utf8(bytes@),
        r matches Some(s) ==> s@ == vstd::utf8::decode_utf8(bytes@),
{
    match String::from_utf8(bytes.to_vec()) {
        Ok(s) => Some(s),
        Err(_) => None,
    }
}

/// The string a byte slice decodes to: its UTF-8 decoding, or the empty
/// string where the bytes are not valid UTF-8.
pub fn utf8_to_string(bytes: &[u8]) -> (s: String)
    ensures
        vstd::utf8::valid_utf8(bytes@) ==> s@ == vstd::utf8::decode_utf8(bytes@),
        !vstd::utf8::valid_utf8(bytes@) ==> s@ == Seq::<char>::empty(),
{
    match string_from_utf8(bytes) {
        Some(s) => s,
        None => String::new(),
    }
}

} // verus!

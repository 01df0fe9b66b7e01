//! Charset resolution and byte-to-text decoding, supplied by outside
//! decoders.
//!
//! The parsers never interpret non-ASCII bytes themselves: a charset
//! label and a byte run go out, decoded text comes back.  What a given
//! decoder returns for given bytes is named, not restated, since both
//! are pure functions of their inputs.

use vstd::prelude::*;
use base64::Engine;

verus! {

/// Whether a charset label resolves to a known decoder.
pub uninterp spec fn charset_resolves(label: Seq<u8>) -> bool;

/// The text that decoding `bytes` under `label` yields: the decoder for
/// `label` is used when the label resolves, the US-ASCII decoder
/// otherwise or when no label is given; undecodable byte sequences
/// become substitution characters.
pub uninterp spec fn decoded_text(label: Option<Seq<u8>>, bytes: Seq<u8>) -> Seq<char>;

/// The octets that a strict standard-alphabet base64 decode of `bytes`
/// yields, or nothing when `bytes` is not valid base64.
pub uninterp spec fn base64_decoded(bytes: Seq<u8>) -> Option<Seq<u8>>;

/// Relies on `encoding::label::encoding_from_whatwg_label`: whether a
/// label names a known charset is a function of the label alone.
#[verifier::external_body]
pub fn charset_known(label: &[u8]) -> (r: bool)
    ensures
        r == charset_resolves(label@),
{
    let name: String = label.iter().map(|c| *c as char).collect();
    encoding::label::encoding_from_whatwg_label(&name).is_some()
}

/// Relies on `encoding::label::encoding_from_whatwg_label` and
/// `encoding::types::Encoding::decode` with `DecoderTrap::Replace`,
/// which replaces undecodable sequences and never fails.  The decoder
/// is the one `label` resolves to, or US-ASCII when there is no label
/// or it does not resolve; the text returned is a function of the label
/// and the bytes alone.
#[verifier::external_body]
pub fn decode_bytes(label: Option<&Vec<u8>>, bytes: &[u8]) -> (r: String)
    ensures
        r@ == decoded_text(
            match label {
                Some(l) => Some(l@),
                None => None,
            },
            bytes@,
        ),
        label matches Some(l) && !charset_resolves(l@) ==> r@ == decoded_text(None, bytes@),
        bytes@.len() == 0 ==> r@.len() == 0,
{
    let codec = match label {
        Some(l) => {
            let name: String = l.iter().map(|c| *c as char).collect();
            encoding::label::encoding_from_whatwg_label(&name).unwrap_or(encoding::all::ASCII)
        },
        None => encoding::all::ASCII,
    };
    codec.decode(bytes, encoding::DecoderTrap::Replace).unwrap()
}

/// Relies on `base64::engine::general_purpose::STANDARD` through
/// `base64::Engine::decode`: a strict decode under the standard
/// alphabet, a function of the input bytes alone.
#[verifier::external_body]
pub fn base64_decode(bytes: &[u8]) -> (r: Option<Vec<u8>>)
    ensures
        match r {
            Some(v) => base64_decoded(bytes@) == Some(v@),
            None => base64_decoded(bytes@) is None,
        },
{
    base64::engine::general_purpose::STANDARD.decode(bytes).ok()
}

} // verus!

//! Encoded words (RFC 2047): `=?charset?encoding?payload?=` tokens that
//! embed non-ASCII text in a header.
//!
//! The token syntax and the quoted-printable payload transform are
//! parsed here; the base64 transform and the charset decode come from
//! outside decoders.

use vstd::prelude::*;
use crate::ParseError;
use crate::charset::{base64_decode, base64_decoded, charset_known, charset_resolves, decode_bytes, decoded_text};
use crate::strings::{hex_digit, hexpair_val, hexpair_value, is_hex_digit, lower_bytes};

verus! {

/// A character of an encoded word's charset or encoding token:
/// printable US-ASCII except space and the RFC 2047 especials.
pub open spec fn is_ew_token(c: u8) -> bool {
    33 <= c && c <= 126 && c != 40 && c != 41 && c != 60 && c != 62 && c != 64 && c != 44 && c
        != 59 && c != 58 && c != 34 && c != 47 && c != 91 && c != 93 && c != 63 && c != 46 && c
        != 61
}

/// A character of an encoded word's payload: printable US-ASCII except
/// `?` and space.
pub open spec fn is_ew_text(c: u8) -> bool {
    33 <= c && c <= 126 && c != 63
}

fn ew_token_char(c: u8) -> (r: bool)
    ensures
        r == is_ew_token(c),
{
    33 <= c && c <= 126 && c != 40 && c != 41 && c != 60 && c != 62 && c != 64 && c != 44 && c
        != 59 && c != 58 && c != 34 && c != 47 && c != 91 && c != 93 && c != 63 && c != 46 && c
        != 61
}

fn ew_text_char(c: u8) -> (r: bool)
    ensures
        r == is_ew_text(c),
{
    33 <= c && c <= 126 && c != 63
}

/// First position at or after `i` whose byte is not a charset/encoding
/// token character.
pub open spec fn ew_token_end(s: Seq<u8>, i: int) -> int
    decreases s.len() - i,
{
    if i < 0 || i >= s.len() || !is_ew_token(s[i]) {
        i
    } else {
        ew_token_end(s, i + 1)
    }
}

/// First position at or after `i` whose byte is not a payload
/// character.
pub open spec fn ew_text_end(s: Seq<u8>, i: int) -> int
    decreases s.len() - i,
{
    if i < 0 || i >= s.len() || !is_ew_text(s[i]) {
        i
    } else {
        ew_text_end(s, i + 1)
    }
}

fn scan_ew_token(s: &[u8], i: usize) -> (j: usize)
    requires
        i <= s@.len(),
    ensures
        i <= j <= s@.len(),
        forall|k: int| i <= k < j ==> is_ew_token(s@[k]),
        j < s@.len() ==> !is_ew_token(s@[j as int]),
        j == ew_token_end(s@, i as int),
{
    let mut j = i;
    while j < s.len() && ew_token_char(s[j])
        invariant
            i <= j <= s@.len(),
            forall|k: int| i <= k < j ==> is_ew_token(s@[k]),
            ew_token_end(s@, i as int) == ew_token_end(s@, j as int),
        decreases s@.len() - j,
    {
        j = j + 1;
    }
    j
}

fn scan_ew_text(s: &[u8], i: usize) -> (j: usize)
    requires
        i <= s@.len(),
    ensures
        i <= j <= s@.len(),
        forall|k: int| i <= k < j ==> is_ew_text(s@[k]),
        j < s@.len() ==> !is_ew_text(s@[j as int]),
        j == ew_text_end(s@, i as int),
{
    let mut j = i;
    while j < s.len() && ew_text_char(s[j])
        invariant
            i <= j <= s@.len(),
            forall|k: int| i <= k < j ==> is_ew_text(s@[k]),
            ew_text_end(s@, i as int) == ew_text_end(s@, j as int),
        decreases s@.len() - j,
    {
        j = j + 1;
    }
    j
}

/// The octets a quoted-printable-style payload denotes: `_` stands for
/// a space, `=HH` for the byte the hexadecimal pair denotes, any other
/// byte for itself; a `=` not followed by two hexadecimal digits makes
/// the payload invalid.
pub open spec fn q_decoded(b: Seq<u8>) -> Option<Seq<u8>>
    decreases b.len(),
{
    if b.len() == 0 {
        Some(Seq::empty())
    } else if b[0] == 61 {
        if b.len() >= 3 && is_hex_digit(b[1]) && is_hex_digit(b[2]) {
            match q_decoded(b.skip(3)) {
                Some(rest) => Some(seq![hexpair_val(b[1], b[2])] + rest),
                None => None,
            }
        } else {
            None
        }
    } else {
        match q_decoded(b.skip(1)) {
            Some(rest) => Some(
                seq![if b[0] == 95 {
                    32u8
                } else {
                    b[0]
                }] + rest,
            ),
            None => None,
        }
    }
}

/// Decode a quoted-printable-style payload.
pub fn q_decode(b: &[u8]) -> (r: Option<Vec<u8>>)
    ensures
        match r {
            Some(v) => q_decoded(b@) == Some(v@),
            None => q_decoded(b@) is None,
        },
{
    let mut out: Vec<u8> = Vec::new();
    let mut i: usize = 0;
    proof {
        assert(b@.skip(0) =~= b@);
    }
    while i < b.len()
        invariant
            i <= b@.len(),
            q_decoded(b@) matches Some(w) ==> w == out@ + q_decoded(b@.skip(i as int))->Some_0,
            q_decoded(b@) is Some <==> q_decoded(b@.skip(i as int)) is Some,
        decreases b@.len() - i,
    {
        let ghost pre = b@.skip(i as int);
        let c = b[i];
        proof {
            assert(pre[0] == c);
        }
        if c == 61 {
            if b.len() - i >= 3 && hex_digit(b[i + 1]) && hex_digit(b[i + 2]) {
                proof {
                    assert(pre.len() >= 3 && pre[1] == b@[i + 1] && pre[2] == b@[i + 2]);
                    assert(pre.skip(3) =~= b@.skip(i + 3));
                }
                out.push(hexpair_value(b[i + 1], b[i + 2]));
                i = i + 3;
            } else {
                proof {
                    if pre.len() >= 3 {
                        assert(pre[1] == b@[i + 1] && pre[2] == b@[i + 2]);
                    }
                    assert(q_decoded(pre) is None);
                }
                return None;
            }
        } else {
            proof {
                assert(pre.skip(1) =~= b@.skip(i + 1));
            }
            if c == 95 {
                out.push(32);
            } else {
                out.push(c);
            }
            i = i + 1;
        }
    }
    proof {
        assert(b@.skip(b@.len() as int) =~= Seq::<u8>::empty());
    }
    Some(out)
}

/// The payload transform an encoding letter selects: base64 under
/// `B`, the quoted-printable style under `Q`, nothing otherwise.
pub open spec fn ew_transform(enc: Seq<u8>, payload: Seq<u8>) -> Option<Seq<u8>> {
    if lower_bytes(enc) == seq![98u8] {
        base64_decoded(payload)
    } else if lower_bytes(enc) == seq![113u8] {
        q_decoded(payload)
    } else {
        None
    }
}

/// The shape of an accepted encoded word: `=?` at `i`, the charset up
/// to `ce`, the encoding up to `ee`, the payload up to `te`, `?=`
/// closing at `j`; the charset resolves, the payload transform
/// succeeds, and `v` is the transformed octets decoded under the
/// charset.
pub open spec fn ew_shape(s: Seq<u8>, i: int, ce: int, ee: int, te: int, j: int, v: Seq<char>) -> bool {
    &&& 0 <= i
    &&& i + 2 < ce
    &&& ce + 1 < ee
    &&& ee + 1 <= te
    &&& te + 2 == j <= s.len()
    &&& s[i] == 61 && s[i + 1] == 63 && s[ce] == 63 && s[ee] == 63 && s[te] == 63 && s[te + 1]
        == 61
    &&& charset_resolves(s.subrange(i + 2, ce))
    &&& match ew_transform(s.subrange(ce + 1, ee), s.subrange(ee + 1, te)) {
        Some(o) => v == decoded_text(Some(s.subrange(i + 2, ce)), o),
        None => false,
    }
}

/// Whether the bytes from `i` to `j` are an encoded word whose decoded
/// text is `v`.
pub open spec fn is_encoded_word_at(s: Seq<u8>, i: int, j: int, v: Seq<char>) -> bool {
    exists|ce: int, ee: int, te: int| ew_shape(s, i, ce, ee, te, j, v)
}

/// Whether an acceptable encoded word stands at `i`: the marker pair,
/// a nonempty charset that resolves, a one-letter `B` or `Q` encoding,
/// a payload its transform accepts, and the closing `?=`.
pub open spec fn ew_accepts(s: Seq<u8>, i: int) -> bool {
    let ce = ew_token_end(s, i + 2);
    let ee = ew_token_end(s, ce + 1);
    let te = ew_text_end(s, ee + 1);
    &&& 0 <= i
    &&& i + 2 <= s.len() && s[i] == 61 && s[i + 1] == 63
    &&& ce > i + 2
    &&& ce < s.len() && s[ce] == 63
    &&& ee > ce + 1
    &&& ee < s.len() && s[ee] == 63
    &&& te + 2 <= s.len() && s[te] == 63 && s[te + 1] == 61
    &&& charset_resolves(s.subrange(i + 2, ce))
    &&& ew_transform(s.subrange(ce + 1, ee), s.subrange(ee + 1, te)) is Some
}

/// An encoded word: `=?` charset `?` encoding `?` payload `?=`, decoded
/// to text.  The encoding must be `B` or `Q` (either case) and the
/// charset label must resolve; otherwise the token is not taken as an
/// encoded word at all and the caller falls back to other grammar
/// rules.
pub fn encoded_word(s: &[u8], i: usize) -> (r: Result<(usize, String), ParseError>)
    requires
        i <= s@.len(),
    ensures
        r matches Ok((j, v)) ==> i < j <= s@.len() && is_encoded_word_at(
            s@,
            i as int,
            j as int,
            v@,
        ),
        r matches Ok((j, v)) ==> ({
            let ce = ew_token_end(s@, i + 2);
            let ee = ew_token_end(s@, ce + 1);
            let te = ew_text_end(s@, ee + 1);
            &&& j == te + 2
            &&& v@ == decoded_text(
                Some(s@.subrange(i + 2, ce)),
                ew_transform(s@.subrange(ce + 1, ee), s@.subrange(ee + 1, te))->Some_0,
            )
        }),
        r is Ok <==> ew_accepts(s@, i as int),
        r matches Err(e) ==> e == ParseError::Malformed,
{
    if !(i < s.len() && s[i] == 61 && i + 1 < s.len() && s[i + 1] == 63) {
        return Err(ParseError::Malformed);
    }
    let cs_start = i + 2;
    let cs_end = scan_ew_token(s, cs_start);
    if cs_end == cs_start {
        return Err(ParseError::Malformed);
    }
    if !(cs_end < s.len() && s[cs_end] == 63) {
        return Err(ParseError::Malformed);
    }
    let enc_start = cs_end + 1;
    let enc_end = scan_ew_token(s, enc_start);
    if enc_end == enc_start {
        return Err(ParseError::Malformed);
    }
    if !(enc_end < s.len() && s[enc_end] == 63) {
        return Err(ParseError::Malformed);
    }
    let txt_start = enc_end + 1;
    let txt_end = scan_ew_text(s, txt_start);
    if !(txt_end < s.len() && s[txt_end] == 63 && txt_end + 1 < s.len() && s[txt_end + 1] == 61) {
        return Err(ParseError::Malformed);
    }
    let charset = vstd::slice::slice_to_vec(&s[cs_start..cs_end]);
    if !charset_known(charset.as_slice()) {
        return Err(ParseError::Malformed);
    }
    let payload = &s[txt_start..txt_end];
    let octets: Vec<u8>;
    if enc_end == enc_start + 1 && (s[enc_start] == 98 || s[enc_start] == 66) {
        match base64_decode(payload) {
            Some(v) => {
                octets = v;
            },
            None => {
                proof {
                    let enc_sub = s@.subrange(enc_start as int, enc_end as int);
                    assert(enc_sub.len() == 1 && enc_sub[0] == s@[enc_start as int]);
                    assert(lower_bytes(enc_sub) =~= seq![98u8]);
                    assert(payload@ == s@.subrange(txt_start as int, txt_end as int));
                    assert(ew_transform(
                        enc_sub,
                        s@.subrange(txt_start as int, txt_end as int),
                    ) is None);
                }
                return Err(ParseError::Malformed);
            },
        }
    } else if enc_end == enc_start + 1 && (s[enc_start] == 113 || s[enc_start] == 81) {
        match q_decode(payload) {
            Some(v) => {
                octets = v;
            },
            None => {
                proof {
                    let enc_sub = s@.subrange(enc_start as int, enc_end as int);
                    assert(enc_sub.len() == 1 && enc_sub[0] == s@[enc_start as int]);
                    assert(lower_bytes(enc_sub) =~= seq![113u8]);
                    assert(lower_bytes(enc_sub)[0] == 113u8);
                    assert(lower_bytes(enc_sub) != seq![98u8]) by {
                        if lower_bytes(enc_sub) == seq![98u8] {
                            assert(lower_bytes(enc_sub)[0] == 98u8);
                        }
                    }
                    assert(payload@ == s@.subrange(txt_start as int, txt_end as int));
                    assert(ew_transform(
                        enc_sub,
                        s@.subrange(txt_start as int, txt_end as int),
                    ) is None);
                }
                return Err(ParseError::Malformed);
            },
        }
    } else {
        proof {
            let enc_sub = s@.subrange(enc_start as int, enc_end as int);
            assert(lower_bytes(enc_sub).len() == enc_sub.len());
            if enc_sub.len() == 1 {
                assert(lower_bytes(enc_sub)[0] == crate::strings::lower_byte(
                    s@[enc_start as int],
                ));
                assert(seq![98u8][0] == 98u8 && seq![113u8][0] == 113u8);
            }
            assert(ew_transform(enc_sub, s@.subrange(txt_start as int, txt_end as int)) is None);
        }
        return Err(ParseError::Malformed);
    }
    let text = decode_bytes(Some(&charset), octets.as_slice());
    proof {
        assert(charset@ == s@.subrange(cs_start as int, cs_end as int));
        assert(payload@ == s@.subrange(txt_start as int, txt_end as int));
        let enc_sub = s@.subrange(enc_start as int, enc_end as int);
        assert(enc_sub.len() == 1 && enc_sub[0] == s@[enc_start as int]);
        if s@[enc_start as int] == 98 || s@[enc_start as int] == 66 {
            assert(lower_bytes(enc_sub) =~= seq![98u8]);
            assert(ew_transform(enc_sub, payload@) == base64_decoded(payload@));
            assert(ew_transform(enc_sub, payload@) == Some(octets@));
        } else {
            assert(lower_bytes(enc_sub) =~= seq![113u8]);
            assert(lower_bytes(enc_sub)[0] == 113u8);
            assert(lower_bytes(enc_sub) != seq![98u8]) by {
                if lower_bytes(enc_sub) == seq![98u8] {
                    assert(lower_bytes(enc_sub)[0] == 98u8);
                }
            }
            assert(ew_transform(enc_sub, payload@) == q_decoded(payload@));
            assert(ew_transform(enc_sub, payload@) == Some(octets@));
        }
        assert(ew_shape(
            s@,
            i as int,
            cs_end as int,
            enc_end as int,
            txt_end as int,
            txt_end + 2,
            text@,
        ));
    }
    Ok((txt_end + 2, text))
}

} // verus!

//! Byte/text helpers shared by all the parsers.
//!
//! Header fields arrive as raw bytes; decoded values leave as `String`s.
//! A byte is turned into the character with the same code point, the way
//! a latin-1 decoder would, so every byte sequence has a total text
//! reading.

use vstd::prelude::*;

verus! {

/// The text reading of a byte sequence: each byte becomes the character
/// with the same code.
pub open spec fn chars_of(b: Seq<u8>) -> Seq<char> {
    b.map(|_i: int, c: u8| c as char)
}

/// Relies on `String::push`: appends exactly one character.
#[verifier::external_body]
pub fn string_push(s: &mut String, c: char)
    ensures
        final(s)@ == old(s)@.push(c),
{
    s.push(c);
}

/// Build the text reading of a byte slice.
pub fn bytes_to_text(b: &[u8]) -> (r: String)
    ensures
        r@ == chars_of(b@),
{
    let mut out = String::new();
    let mut i: usize = 0;
    while i < b.len()
        invariant
            i <= b@.len(),
            out@ == chars_of(b@).take(i as int),
        decreases b@.len() - i,
    {
        string_push(&mut out, b[i] as char);
        i = i + 1;
        proof {
            assert(out@ =~= chars_of(b@).take(i as int));
        }
    }
    proof {
        assert(chars_of(b@).take(b@.len() as int) =~= chars_of(b@));
    }
    out
}

/// The byte reading of text whose characters all fit in a byte.
pub open spec fn key_bytes(s: Seq<char>) -> Seq<u8> {
    s.map(|_i: int, c: char| c as u8)
}

/// Reading bytes as text and back gives the bytes again.
pub proof fn lemma_key_bytes_chars(n: Seq<u8>)
    ensures
        key_bytes(chars_of(n)) == n,
{
    assert(key_bytes(chars_of(n)) =~= n);
}

/// ASCII lower-casing of one byte; other bytes are untouched.
pub open spec fn lower_byte(c: u8) -> u8 {
    if 65 <= c && c <= 90 {
        (c + 32) as u8
    } else {
        c
    }
}

/// ASCII lower-casing of a byte sequence.
pub open spec fn lower_bytes(b: Seq<u8>) -> Seq<u8> {
    b.map(|_i: int, c: u8| lower_byte(c))
}

/// Lower-case the ASCII letters of a byte slice.
pub fn lowercase_bytes(b: &[u8]) -> (r: Vec<u8>)
    ensures
        r@ == lower_bytes(b@),
{
    let mut out: Vec<u8> = Vec::new();
    let mut i: usize = 0;
    while i < b.len()
        invariant
            i <= b@.len(),
            out@ == lower_bytes(b@).take(i as int),
        decreases b@.len() - i,
    {
        let c = b[i];
        if 65 <= c && c <= 90 {
            out.push(c + 32);
        } else {
            out.push(c);
        }
        i = i + 1;
        proof {
            assert(out@ =~= lower_bytes(b@).take(i as int));
        }
    }
    proof {
        assert(lower_bytes(b@).take(b@.len() as int) =~= lower_bytes(b@));
    }
    out
}

/// Byte-for-byte equality of two slices.
pub fn bytes_eq(a: &[u8], b: &[u8]) -> (r: bool)
    ensures
        r == (a@ == b@),
{
    if a.len() != b.len() {
        proof {
            assert(a@ != b@);
        }
        return false;
    }
    let mut i: usize = 0;
    while i < a.len()
        invariant
            i <= a@.len(),
            a@.len() == b@.len(),
            forall|k: int| 0 <= k < i ==> a@[k] == b@[k],
        decreases a@.len() - i,
    {
        if a[i] != b[i] {
            proof {
                assert(a@[i as int] != b@[i as int]);
            }
            return false;
        }
        i = i + 1;
    }
    proof {
        assert(a@ =~= b@);
    }
    true
}

/// A hexadecimal digit, either case.
pub open spec fn is_hex_digit(c: u8) -> bool {
    (48 <= c && c <= 57) || (65 <= c && c <= 70) || (97 <= c && c <= 102)
}

/// The value of a hexadecimal digit.
pub open spec fn hex_val(c: u8) -> u8 {
    if 48 <= c && c <= 57 {
        (c - 48) as u8
    } else if 65 <= c && c <= 70 {
        (c - 55) as u8
    } else if 97 <= c && c <= 102 {
        (c - 87) as u8
    } else {
        0
    }
}

/// The byte a pair of hexadecimal digits denotes.
pub open spec fn hexpair_val(h: u8, l: u8) -> u8 {
    (hex_val(h) * 16 + hex_val(l)) as u8
}

/// Whether `c` is a hexadecimal digit.
pub fn hex_digit(c: u8) -> (r: bool)
    ensures
        r == is_hex_digit(c),
{
    (48 <= c && c <= 57) || (65 <= c && c <= 70) || (97 <= c && c <= 102)
}

/// The value of a hexadecimal digit.
pub fn hex_value(c: u8) -> (r: u8)
    ensures
        r == hex_val(c),
{
    if 48 <= c && c <= 57 {
        c - 48
    } else if 65 <= c && c <= 70 {
        c - 55
    } else if 97 <= c && c <= 102 {
        c - 87
    } else {
        0
    }
}

/// The byte a pair of hexadecimal digits denotes.
pub fn hexpair_value(h: u8, l: u8) -> (r: u8)
    requires
        is_hex_digit(h),
        is_hex_digit(l),
    ensures
        r == hexpair_val(h, l),
{
    hex_value(h) * 16 + hex_value(l)
}

/// Case-insensitive (ASCII) equality of two byte slices.
pub fn bytes_eq_ci(a: &[u8], b: &[u8]) -> (r: bool)
    ensures
        r == (lower_bytes(a@) == lower_bytes(b@)),
{
    let la = lowercase_bytes(a);
    let lb = lowercase_bytes(b);
    bytes_eq(la.as_slice(), lb.as_slice())
}

} // verus!

//! MIME parameter lists (RFC 2045 syntax with the RFC 2231
//! extended/continued parameters), and the Content-Type,
//! Content-Disposition and Content-Transfer-Encoding value grammars
//! built on them.

use vstd::prelude::*;
use vstd::slice::slice_to_vec;
use crate::ParseError;
use crate::charset::{charset_known, charset_resolves, decode_bytes, decoded_text};
use crate::rfc5322::{concat_qcontent, ofws, ofws_end, ofws_spec, quoted_string};
use crate::strings::{
    bytes_to_text,
    chars_of,
    hex_digit,
    hexpair_val,
    hexpair_value,
    is_hex_digit,
    key_bytes,
    lower_bytes,
    lowercase_bytes,
};

verus! {

/// A character of a value token: printable US-ASCII except the
/// tspecials.
pub open spec fn is_token_char(c: u8) -> bool {
    33 <= c && c <= 126 && c != 40 && c != 41 && c != 60 && c != 62 && c != 64 && c != 44 && c
        != 59 && c != 58 && c != 92 && c != 34 && c != 47 && c != 91 && c != 93 && c != 63 && c
        != 61
}

/// A character of an attribute name: a token character that is not
/// `*`, `'` or `%`.
pub open spec fn is_attribute_byte(c: u8) -> bool {
    is_token_char(c) && c != 42 && c != 39 && c != 37
}

/// A decimal digit.
pub open spec fn is_digit(c: u8) -> bool {
    48 <= c && c <= 57
}

fn token_char(c: u8) -> (r: bool)
    ensures
        r == is_token_char(c),
{
    33 <= c && c <= 126 && c != 40 && c != 41 && c != 60 && c != 62 && c != 64 && c != 44 && c
        != 59 && c != 58 && c != 92 && c != 34 && c != 47 && c != 91 && c != 93 && c != 63 && c
        != 61
}

/// Whether a byte may stand in an attribute name.
pub fn is_attribute_char(c: u8) -> (r: bool)
    ensures
        r == is_attribute_byte(c),
{
    token_char(c) && c != 42 && c != 39 && c != 37
}

fn digit_char(c: u8) -> (r: bool)
    ensures
        r == is_digit(c),
{
    48 <= c && c <= 57
}

/// First position at or after `i` whose byte is not a token character.
pub open spec fn token_end(s: Seq<u8>, i: int) -> int
    decreases s.len() - i,
{
    if i < 0 || i >= s.len() || !is_token_char(s[i]) {
        i
    } else {
        token_end(s, i + 1)
    }
}

/// First position at or after `i` whose byte is not an attribute
/// character.
pub open spec fn attr_end(s: Seq<u8>, i: int) -> int
    decreases s.len() - i,
{
    if i < 0 || i >= s.len() || !is_attribute_byte(s[i]) {
        i
    } else {
        attr_end(s, i + 1)
    }
}

/// First position at or after `i` whose byte is not a digit.
pub open spec fn digits_end(s: Seq<u8>, i: int) -> int
    decreases s.len() - i,
{
    if i < 0 || i >= s.len() || !is_digit(s[i]) {
        i
    } else {
        digits_end(s, i + 1)
    }
}

fn scan_token(s: &[u8], i: usize) -> (j: usize)
    requires
        i <= s@.len(),
    ensures
        i <= j <= s@.len(),
        forall|k: int| i <= k < j ==> is_token_char(s@[k]),
        j < s@.len() ==> !is_token_char(s@[j as int]),
        j == token_end(s@, i as int),
{
    let mut j = i;
    while j < s.len() && token_char(s[j])
        invariant
            i <= j <= s@.len(),
            forall|k: int| i <= k < j ==> is_token_char(s@[k]),
            token_end(s@, i as int) == token_end(s@, j as int),
        decreases s@.len() - j,
    {
        j = j + 1;
    }
    j
}

fn scan_attribute(s: &[u8], i: usize) -> (j: usize)
    requires
        i <= s@.len(),
    ensures
        i <= j <= s@.len(),
        forall|k: int| i <= k < j ==> is_attribute_byte(s@[k]),
        j < s@.len() ==> !is_attribute_byte(s@[j as int]),
        j == attr_end(s@, i as int),
{
    let mut j = i;
    while j < s.len() && is_attribute_char(s[j])
        invariant
            i <= j <= s@.len(),
            forall|k: int| i <= k < j ==> is_attribute_byte(s@[k]),
            attr_end(s@, i as int) == attr_end(s@, j as int),
        decreases s@.len() - j,
    {
        j = j + 1;
    }
    j
}

fn scan_digits(s: &[u8], i: usize) -> (j: usize)
    requires
        i <= s@.len(),
    ensures
        i <= j <= s@.len(),
        forall|k: int| i <= k < j ==> is_digit(s@[k]),
        j < s@.len() ==> !is_digit(s@[j as int]),
        j == digits_end(s@, i as int),
{
    let mut j = i;
    while j < s.len() && digit_char(s[j])
        invariant
            i <= j <= s@.len(),
            forall|k: int| i <= k < j ==> is_digit(s@[k]),
            digits_end(s@, i as int) == digits_end(s@, j as int),
        decreases s@.len() - j,
    {
        j = j + 1;
    }
    j
}

/// The number a digit run denotes.
pub open spec fn num_val(s: Seq<u8>) -> nat
    decreases s.len(),
{
    if s.len() == 0 {
        0
    } else {
        num_val(s.drop_last()) * 10 + (s.last() - 48) as nat
    }
}

spec fn pow10(n: nat) -> nat
    decreases n,
{
    if n == 0 {
        1nat
    } else {
        10 * pow10((n - 1) as nat)
    }
}

proof fn lemma_num_val_bound(s: Seq<u8>)
    requires
        forall|k: int| 0 <= k < s.len() ==> is_digit(s[k]),
    ensures
        num_val(s) < pow10(s.len() as nat),
    decreases s.len(),
{
    if s.len() > 0 {
        lemma_num_val_bound(s.drop_last());
    }
}

/// A parameter name: the attribute, lower-cased by the consumer, and
/// the continuation-section index when the parameter carries one.
#[derive(Debug)]
pub struct Name {
    /// The continuation-section index; absent on a simple parameter.
    pub section: Option<u32>,
    /// The attribute bytes as they stood in the input.
    pub name: Vec<u8>,
}

/// The payload of an extended parameter.
#[derive(Debug)]
pub enum ExtendedValue {
    /// The initial segment, which alone may carry a charset label and
    /// a language tag; its octets are already percent-decoded.
    Initial {
        /// The charset label, when one was given.
        encoding: Option<Vec<u8>>,
        /// The language tag, when one was given.
        language: Option<Vec<u8>>,
        /// The percent-decoded octets.
        value: Vec<u8>,
    },
    /// A continuation segment: percent-decoded octets only.
    Other(Vec<u8>),
}

/// A parameter's value.
#[derive(Debug)]
pub enum Value {
    /// A plain token or quoted-string value, already text.
    Regular(String),
    /// An RFC 2231 extended value.
    Extended(ExtendedValue),
}

/// One parsed parameter.
#[derive(Debug)]
pub struct Parameter {
    /// Its name.
    pub name: Name,
    /// Its value.
    pub value: Value,
}

/// The grammar never yields a continuation payload without a section
/// index.
pub open spec fn param_wf(p: Parameter) -> bool {
    match p.value {
        Value::Extended(ExtendedValue::Other(_)) => p.name.section is Some,
        _ => true,
    }
}

/// Well-formedness of a parsed parameter sequence.
pub open spec fn params_wf(ps: Seq<Parameter>) -> bool {
    forall|k: int| 0 <= k < ps.len() ==> param_wf(#[trigger] ps[k])
}

/// Where `=` with optional white space around it ends, when it stands
/// at `i`.
pub open spec fn eq_end(s: Seq<u8>, i: int) -> Option<int> {
    let p1 = ofws_end(s, i);
    if p1 < s.len() && s[p1] == 61 {
        Some(ofws_end(s, p1 + 1))
    } else {
        None
    }
}

/// `=` with optional white space around it.
fn equals_sign(s: &[u8], i: usize) -> (r: Result<usize, ParseError>)
    requires
        i <= s@.len(),
    ensures
        r matches Ok(j) ==> i < j <= s@.len() && eq_end(s@, i as int) == Some(j as int),
        r is Err ==> eq_end(s@, i as int) is None,
{
    let (p1, _) = ofws(s, i);
    if !(p1 < s.len() && s[p1] == 61) {
        return Err(ParseError::Malformed);
    }
    let (p2, _) = ofws(s, p1 + 1);
    Ok(p2)
}

/// A value token: one or more token characters, taken maximally.
fn token(s: &[u8], i: usize) -> (r: Result<(usize, Vec<u8>), ParseError>)
    requires
        i <= s@.len(),
    ensures
        r matches Ok((j, v)) ==> i < j <= s@.len() && v@ == s@.subrange(i as int, j as int) && (
        forall|k: int| i <= k < j ==> is_token_char(s@[k])) && (j < s@.len() ==> !is_token_char(
            s@[j as int],
        )) && j == token_end(s@, i as int),
        r is Ok <==> (i < s@.len() && is_token_char(s@[i as int])),
        r is Err ==> token_end(s@, i as int) == i,
        r matches Err(e) ==> e == ParseError::Malformed,
{
    let j = scan_token(s, i);
    if j == i {
        return Err(ParseError::Malformed);
    }
    Ok((j, slice_to_vec(&s[i..j])))
}

/// An attribute name: one or more attribute characters, taken
/// maximally.
fn attribute(s: &[u8], i: usize) -> (r: Result<(usize, Vec<u8>), ParseError>)
    requires
        i <= s@.len(),
    ensures
        r matches Ok((j, v)) ==> i < j <= s@.len() && v@ == s@.subrange(i as int, j as int) && (
        forall|k: int| i <= k < j ==> is_attribute_byte(s@[k])) && (j < s@.len()
            ==> !is_attribute_byte(s@[j as int])) && j == attr_end(s@, i as int),
        r is Ok <==> (i < s@.len() && is_attribute_byte(s@[i as int])),
        r is Ok ==> attr_end(s@, i as int) > i,
        r is Err ==> attr_end(s@, i as int) == i,
        r matches Err(e) ==> e == ParseError::Malformed,
{
    let j = scan_attribute(s, i);
    if j == i {
        return Err(ParseError::Malformed);
    }
    Ok((j, slice_to_vec(&s[i..j])))
}

/// What a continuation-section index at `i` comes to: the position
/// after it and its value, or nothing when none stands there.
pub open spec fn section_spec(s: Seq<u8>, i: int) -> Option<(int, nat)> {
    if !(0 <= i < s.len() && s[i] == 42) {
        None
    } else if i + 1 < s.len() && s[i + 1] == 48 {
        Some((i + 2, 0))
    } else {
        let de = digits_end(s, i + 1);
        let run = if de - (i + 1) > 9 {
            i + 10
        } else {
            de
        };
        if run == i + 1 {
            None
        } else {
            Some((run, num_val(s.subrange(i + 1, run))))
        }
    }
}

/// A continuation-section index: `*0` for the initial segment, or `*`
/// and a number of at most nine digits not starting in `0`.
fn section(s: &[u8], i: usize) -> (r: Result<(usize, u32), ParseError>)
    requires
        i <= s@.len(),
    ensures
        r matches Ok((j, n)) ==> i < j <= s@.len() && s@[i as int] == 42 && ((j == i + 2 && s@[i
            + 1] == 48 && n == 0) || (n == num_val(s@.subrange(i + 1, j as int)) && s@[i + 1] != 48
            && forall|m: int| i + 1 <= m < j ==> is_digit(s@[m]))),
        r matches Ok((j, n)) ==> section_spec(s@, i as int) == Some((j as int, n as nat)),
        r is Err ==> section_spec(s@, i as int) is None,
{
    if !(i < s.len() && s[i] == 42) {
        return Err(ParseError::Malformed);
    }
    if i + 1 < s.len() && s[i + 1] == 48 {
        return Ok((i + 2, 0));
    }
    let d_end = scan_digits(s, i + 1);
    let run = if d_end - (i + 1) > 9 {
        i + 1 + 9
    } else {
        d_end
    };
    if run == i + 1 {
        return Err(ParseError::Malformed);
    }
    let mut val: u32 = 0;
    let mut k = i + 1;
    proof {
        assert(s@.subrange(i + 1, i + 1 as int) =~= Seq::<u8>::empty());
    }
    while k < run
        invariant
            i + 1 <= k <= run <= s@.len(),
            run - (i + 1) <= 9,
            forall|m: int| i + 1 <= m < run ==> is_digit(s@[m]),
            val == num_val(s@.subrange(i + 1, k as int)),
            val < pow10((k - (i + 1)) as nat),
        decreases run - k,
    {
        proof {
            assert(s@.subrange(i + 1, k + 1 as int).drop_last() =~= s@.subrange(
                i + 1,
                k as int,
            ));
            lemma_num_val_bound(s@.subrange(i + 1, k + 1 as int));
            lemma_pow10_nine();
            assert(pow10((k + 1 - (i + 1)) as nat) <= pow10(9)) by {
                lemma_pow10_le((k + 1 - (i + 1)) as nat, 9);
            }
        }
        val = val * 10 + ((s[k] - 48) as u32);
        k = k + 1;
    }
    Ok((run, val))
}

proof fn lemma_pow10_nine()
    ensures
        pow10(9) == 1000000000,
{
    assert(pow10(0) == 1);
    assert(pow10(1) == 10);
    assert(pow10(2) == 100);
    assert(pow10(3) == 1000);
    assert(pow10(4) == 10000);
    assert(pow10(5) == 100000);
    assert(pow10(6) == 1000000);
    assert(pow10(7) == 10000000);
    assert(pow10(8) == 100000000);
    assert(pow10(9) == 1000000000);
}

proof fn lemma_pow10_le(a: nat, b: nat)
    requires
        a <= b,
    ensures
        pow10(a) <= pow10(b),
    decreases b,
{
    if a < b && b > 0 {
        lemma_pow10_le(a, (b - 1) as nat);
        assert(pow10(b) == 10 * pow10((b - 1) as nat));
    }
}

/// One step of percent-or-literal octet reading: the position where
/// the run ends and the decoded octets, with `%HH` turned into the
/// byte the hexadecimal digits denote.
pub open spec fn octets_parse(s: Seq<u8>, i: int) -> (int, Seq<u8>)
    decreases s.len() - i,
{
    if i < 0 || i >= s.len() {
        (i, Seq::empty())
    } else if s[i] == 37 && i + 3 <= s.len() && is_hex_digit(s[i + 1]) && is_hex_digit(s[i + 2]) {
        let (j, rest) = octets_parse(s, i + 3);
        (j, seq![hexpair_val(s[i + 1], s[i + 2])] + rest)
    } else if is_attribute_byte(s[i]) {
        let (j, rest) = octets_parse(s, i + 1);
        (j, seq![s[i]] + rest)
    } else {
        (i, Seq::empty())
    }
}

/// An octet-run read is maximal: reading again from the position
/// where it stopped consumes nothing and yields nothing.
pub proof fn lemma_octets_stop(s: Seq<u8>, i: int)
    requires
        0 <= i <= s.len(),
    ensures
        octets_parse(s, octets_parse(s, i).0) == (octets_parse(s, i).0, Seq::<u8>::empty()),
    decreases s.len() - i,
{
    if i >= s.len() {
    } else if s[i] == 37 && i + 3 <= s.len() && is_hex_digit(s[i + 1]) && is_hex_digit(s[i + 2]) {
        lemma_octets_stop(s, i + 3);
    } else if is_attribute_byte(s[i]) {
        lemma_octets_stop(s, i + 1);
    }
}

/// Read a maximal percent-or-literal octet run; never fails.
fn ext_octets(s: &[u8], i: usize) -> (r: (usize, Vec<u8>))
    requires
        i <= s@.len(),
    ensures
        i <= r.0 <= s@.len(),
        (r.0 as int, r.1@) == octets_parse(s@, i as int),
{
    let mut out: Vec<u8> = Vec::new();
    let mut j: usize = i;
    loop
        invariant
            i <= j <= s@.len(),
            octets_parse(s@, i as int) == {
                let (e, rest) = octets_parse(s@, j as int);
                (e, out@ + rest)
            },
        ensures
            i <= j <= s@.len(),
            octets_parse(s@, i as int) == (j as int, out@),
        decreases s@.len() - j,
    {
        if j < s.len() && s[j] == 37 && s.len() - j >= 3 && hex_digit(s[j + 1]) && hex_digit(
            s[j + 2],
        ) {
            out.push(hexpair_value(s[j + 1], s[j + 2]));
            j = j + 3;
        } else if j < s.len() && is_attribute_char(s[j]) {
            out.push(s[j]);
            j = j + 1;
        } else {
            proof {
                assert(octets_parse(s@, j as int) == (j as int, Seq::<u8>::empty()));
                assert(out@ + Seq::<u8>::empty() =~= out@);
            }
            break ;
        }
        proof {
            assert(octets_parse(s@, i as int) == {
                let (e, rest) = octets_parse(s@, j as int);
                (e, out@ + rest)
            }) by {
                assert(forall|a: Seq<u8>, b: Seq<u8>, c: Seq<u8>|
                    #[trigger] (a + (b + c)) == (a + b) + c) by {
                    assert forall|a: Seq<u8>, b: Seq<u8>, c: Seq<u8>| #[trigger]
                        (a + (b + c)) == (a + b) + c by {
                        assert(a + (b + c) =~= (a + b) + c);
                    }
                }
            }
        }
    }
    (j, out)
}

/// A parameter value: a token, or a quoted string merged to its text.
fn value(s: &[u8], i: usize) -> (r: Result<(usize, String), ParseError>)
    requires
        i <= s@.len(),
    ensures
        r matches Ok((j, _v)) ==> i < j <= s@.len(),
        i < s@.len() && is_token_char(s@[i as int]) ==> (r matches Ok((j, v)) && j == token_end(
            s@,
            i as int,
        ) && v@ == chars_of(s@.subrange(i as int, token_end(s@, i as int)))),
{
    match token(s, i) {
        Ok((j, v)) => {
            return Ok((j, bytes_to_text(v.as_slice())));
        },
        Err(ParseError::TooDeep) => {
            return Err(ParseError::TooDeep);
        },
        Err(ParseError::Malformed) => {
        },
    }
    match quoted_string(s, i, false) {
        Ok((j, units)) => Ok((j, concat_qcontent(&units))),
        Err(e) => Err(e),
    }
}

/// What a regular parameter's parse establishes: the attribute name
/// and section index read off the input, a regular value, and — when
/// the value is a plain token — the exact token text and end.
pub open spec fn regular_param_ok(s: Seq<u8>, i: int, j: int, p: Parameter) -> bool {
    let ae = attr_end(s, i);
    let pos = match section_spec(s, ae) {
        Some((ps, _)) => ps,
        None => ae,
    };
    &&& ae > i
    &&& p.name.name@ == s.subrange(i, ae)
    &&& (match (p.name.section, section_spec(s, ae)) {
        (Some(n), Some((_, sn))) => n as nat == sn,
        (None, None) => true,
        _ => false,
    })
    &&& eq_end(s, pos) is Some
    &&& p.value is Regular
    &&& ({
        let q = eq_end(s, pos)->0;
        q < s.len() && is_token_char(s[q]) ==> p.value->Regular_0@ == chars_of(
            s.subrange(q, token_end(s, q)),
        ) && j == token_end(s, q)
    })
}

/// Whether an `=` followed by a plain token value stands after the
/// attribute-plus-section prefix at `i` — the shape the regular form
/// always claims first.
pub open spec fn regular_token_shape(s: Seq<u8>, i: int) -> bool {
    let ae = attr_end(s, i);
    let pos = match section_spec(s, ae) {
        Some((ps, _)) => ps,
        None => ae,
    };
    &&& ae > i
    &&& eq_end(s, pos) matches Some(q) && q < s.len() && is_token_char(s[q])
}

/// A regular parameter: attribute, optional section, `=`, value.
fn regular_parameter(s: &[u8], i: usize) -> (r: Result<(usize, Parameter), ParseError>)
    requires
        i <= s@.len(),
    ensures
        r matches Ok((j, p)) ==> i < j <= s@.len() && param_wf(p) && regular_param_ok(
            s@,
            i as int,
            j as int,
            p,
        ),
        r is Err ==> !regular_token_shape(s@, i as int),
{
    let (p1, name_bytes) = match attribute(s, i) {
        Ok(x) => x,
        Err(e) => {
            return Err(e);
        },
    };
    let mut sect: Option<u32> = None;
    let mut pos = p1;
    match section(s, p1) {
        Ok((j, n)) => {
            sect = Some(n);
            pos = j;
        },
        Err(_) => {
        },
    }
    let p2 = match equals_sign(s, pos) {
        Ok(j) => j,
        Err(e) => {
            return Err(e);
        },
    };
    let (p3, v) = match value(s, p2) {
        Ok(x) => x,
        Err(e) => {
            return Err(e);
        },
    };
    Ok((p3, Parameter { name: Name { section: sect, name: name_bytes }, value: Value::Regular(v) }))
}

/// The shape an extended parameter takes after its attribute name:
/// the initial segment with its labels and percent-decoded octets, or
/// a continuation segment with its index and octets.
pub enum ExtParamShape {
    /// The initial segment: whether it carried the `*0` section, its
    /// charset label, its language tag, and its decoded octets.
    Initial {
        /// Whether the `*0` section index was written out.
        section0: bool,
        /// The charset label, when one was given.
        encoding: Option<Seq<u8>>,
        /// The language tag, when one was given.
        language: Option<Seq<u8>>,
        /// The percent-decoded octets.
        value: Seq<u8>,
    },
    /// A continuation segment: its section index and decoded octets.
    Continuation {
        /// The section index.
        section: nat,
        /// The percent-decoded octets.
        value: Seq<u8>,
    },
}

/// The initial-segment reading after an attribute ending at `ae`, when
/// one stands there: only this form may carry the charset and language
/// labels, and only with section `0` or no section at all.
pub open spec fn ext_initial_at(s: Seq<u8>, ae: int) -> Option<(int, ExtParamShape)> {
    let sect0 = ae + 1 < s.len() && s[ae] == 42 && s[ae + 1] == 48;
    let pos = if sect0 {
        ae + 2
    } else {
        ae
    };
    if pos < s.len() && s[pos] == 42 {
        match eq_end(s, pos + 1) {
            Some(p2) => {
                let le = attr_end(s, p2);
                let enc: Option<Seq<u8>> = if le > p2 {
                    Some(s.subrange(p2, le))
                } else {
                    None
                };
                let p3 = if le > p2 {
                    le
                } else {
                    p2
                };
                if p3 < s.len() && s[p3] == 39 {
                    let le2 = attr_end(s, p3 + 1);
                    let lang: Option<Seq<u8>> = if le2 > p3 + 1 {
                        Some(s.subrange(p3 + 1, le2))
                    } else {
                        None
                    };
                    let p4 = if le2 > p3 + 1 {
                        le2
                    } else {
                        p3 + 1
                    };
                    if p4 < s.len() && s[p4] == 39 {
                        let (p5, oct) = octets_parse(s, p4 + 1);
                        Some(
                            (
                                p5,
                                ExtParamShape::Initial {
                                    section0: sect0,
                                    encoding: enc,
                                    language: lang,
                                    value: oct,
                                },
                            ),
                        )
                    } else {
                        None
                    }
                } else {
                    None
                }
            },
            None => None,
        }
    } else {
        None
    }
}

/// The continuation-segment reading after an attribute ending at `ae`,
/// when one stands there: a non-initial section index and raw decoded
/// octets, no labels.
pub open spec fn ext_continuation_at(s: Seq<u8>, ae: int) -> Option<(int, ExtParamShape)> {
    match section_spec(s, ae) {
        Some((p1, n)) => {
            if p1 < s.len() && s[p1] == 42 {
                match eq_end(s, p1 + 1) {
                    Some(p2) => {
                        let (p3, oct) = octets_parse(s, p2);
                        Some((p3, ExtParamShape::Continuation { section: n, value: oct }))
                    },
                    None => None,
                }
            } else {
                None
            }
        },
        None => None,
    }
}

/// What an extended parameter at `i` comes to: where it ends, its
/// attribute-name bytes, and its shape — the initial form tried first,
/// the continuation form second.
pub open spec fn ext_param_spec(s: Seq<u8>, i: int) -> Option<(int, Seq<u8>, ExtParamShape)> {
    if !(0 <= i <= s.len()) {
        None
    } else {
        let ae = attr_end(s, i);
        if ae == i {
            None
        } else {
            match ext_initial_at(s, ae) {
                Some((j, sh)) => Some((j, s.subrange(i, ae), sh)),
                None => match ext_continuation_at(s, ae) {
                    Some((j, sh)) => Some((j, s.subrange(i, ae), sh)),
                    None => None,
                },
            }
        }
    }
}

/// Whether a parsed parameter carries exactly a given extended shape.
pub open spec fn ext_value_matches(p: Parameter, sh: ExtParamShape) -> bool {
    match sh {
        ExtParamShape::Initial { section0, encoding, language, value } => {
            &&& (match p.name.section {
                Some(n) => section0 && n == 0,
                None => !section0,
            })
            &&& (match p.value {
                Value::Extended(ExtendedValue::Initial { encoding: pe, language: pl, value: pv }) => {
                    &&& (match pe {
                        Some(e) => encoding == Some(e@),
                        None => encoding is None,
                    })
                    &&& (match pl {
                        Some(l) => language == Some(l@),
                        None => language is None,
                    })
                    &&& pv@ == value
                },
                _ => false,
            })
        },
        ExtParamShape::Continuation { section, value } => {
            &&& (match p.name.section {
                Some(n) => n as nat == section,
                None => false,
            })
            &&& (match p.value {
                Value::Extended(ExtendedValue::Other(o)) => o@ == value,
                _ => false,
            })
        },
    }
}

/// An extended parameter: either the initial segment with its charset
/// and language labels, or a continuation segment of raw octets.
fn extended_parameter(s: &[u8], i: usize) -> (r: Result<(usize, Parameter), ParseError>)
    requires
        i <= s@.len(),
    ensures
        r matches Ok((j, p)) ==> i < j <= s@.len() && param_wf(p) && (ext_param_spec(
            s@,
            i as int,
        ) matches Some(m) && j == m.0 && p.name.name@ == m.1 && ext_value_matches(p, m.2)),
        r is Err ==> ext_param_spec(s@, i as int) is None,
{
    let (pa, name_bytes) = match attribute(s, i) {
        Ok(x) => x,
        Err(e) => {
            return Err(e);
        },
    };
    // Initial form: an optional `*0` section, `*`, `=`, then
    // charset'language'octets.
    let mut sect: Option<u32> = None;
    let mut pos = pa;
    if pos < s.len() && s[pos] == 42 && pos + 1 < s.len() && s[pos + 1] == 48 {
        sect = Some(0);
        pos = pos + 2;
    }
    if pos < s.len() && s[pos] == 42 {
        match equals_sign(s, pos + 1) {
            Ok(p2) => {
                // charset label
                let mut encoding: Option<Vec<u8>> = None;
                let mut p3 = p2;
                match attribute(s, p2) {
                    Ok((j, v)) => {
                        encoding = Some(v);
                        p3 = j;
                    },
                    Err(_) => {
                    },
                }
                if p3 < s.len() && s[p3] == 39 {
                    let mut language: Option<Vec<u8>> = None;
                    let mut p4 = p3 + 1;
                    match attribute(s, p3 + 1) {
                        Ok((j, v)) => {
                            language = Some(v);
                            p4 = j;
                        },
                        Err(_) => {
                        },
                    }
                    if p4 < s.len() && s[p4] == 39 {
                        let (p5, octets) = ext_octets(s, p4 + 1);
                        proof {
                            assert((p5 as int, octets@) == octets_parse(s@, p4 + 1));
                            assert(ext_initial_at(s@, pa as int) is Some);
                        }
                        return Ok(
                            (
                                p5,
                                Parameter {
                                    name: Name { section: sect, name: name_bytes },
                                    value: Value::Extended(
                                        ExtendedValue::Initial { encoding, language, value: octets },
                                    ),
                                },
                            ),
                        );
                    }
                }
            },
            Err(_) => {
            },
        }
    }
    // Continuation form: a non-zero section, `*`, `=`, raw octets.
    let (p1, n) = match section(s, pa) {
        Ok(x) => x,
        Err(e) => {
            return Err(e);
        },
    };
    if !(p1 < s.len() && s[p1] == 42) {
        return Err(ParseError::Malformed);
    }
    let p2 = match equals_sign(s, p1 + 1) {
        Ok(j) => j,
        Err(e) => {
            return Err(e);
        },
    };
    let (p3, octets) = ext_octets(s, p2);
    proof {
        assert((p3 as int, octets@) == octets_parse(s@, p2 as int));
        assert(ext_initial_at(s@, pa as int) is None);
        assert(ext_continuation_at(s@, pa as int) is Some);
    }
    Ok(
        (
            p3,
            Parameter {
                name: Name { section: Some(n), name: name_bytes },
                value: Value::Extended(ExtendedValue::Other(octets)),
            },
        ),
    )
}

/// One parameter: the regular form, or failing that the extended form.
/// A parameter whose `=` is followed by a plain token always parses as
/// the regular form.
fn parameter(s: &[u8], i: usize) -> (r: Result<(usize, Parameter), ParseError>)
    requires
        i <= s@.len(),
    ensures
        r matches Ok((j, p)) ==> i < j <= s@.len() && param_wf(p) && (match p.value {
            Value::Regular(_) => regular_param_ok(s@, i as int, j as int, p),
            Value::Extended(_) => ext_param_spec(s@, i as int) matches Some(m) && j == m.0
                && p.name.name@ == m.1 && ext_value_matches(p, m.2) && !regular_token_shape(
                s@,
                i as int,
            ),
        }),
{
    match regular_parameter(s, i) {
        Ok(x) => {
            return Ok(x);
        },
        Err(ParseError::TooDeep) => {
            return Err(ParseError::TooDeep);
        },
        Err(ParseError::Malformed) => {
        },
    }
    extended_parameter(s, i)
}

/// A `;`-separated parameter list, ended by an optional `;` and an
/// optional line terminator.  Never fails outright: an input that
/// opens no parameter yields the empty list, and only the comment
/// depth bound is an error.
fn parameter_list(s: &[u8], i: usize) -> (r: Result<(usize, Vec<Parameter>), ParseError>)
    requires
        i <= s@.len(),
    ensures
        r matches Ok((j, v)) ==> i <= j <= s@.len() && params_wf(v@),
        r matches Err(e) ==> e == ParseError::TooDeep,
        i == s@.len() ==> (r matches Ok((j, v)) && j == i && v@.len() == 0),
{
    let mut out: Vec<Parameter> = Vec::new();
    let mut pos: usize = i;
    loop
        invariant
            i <= pos <= s@.len(),
            params_wf(out@),
            i == s@.len() ==> (pos == i && out@.len() == 0),
        decreases s@.len() - pos,
    {
        if !(pos < s.len() && s[pos] == 59) {
            break ;
        }
        let (p1, _) = ofws(s, pos + 1);
        match parameter(s, p1) {
            Ok((j, p)) => {
                out.push(p);
                pos = j;
            },
            Err(ParseError::TooDeep) => {
                return Err(ParseError::TooDeep);
            },
            Err(ParseError::Malformed) => {
                break ;
            },
        }
    }
    if pos < s.len() && s[pos] == 59 {
        pos = pos + 1;
    }
    if pos < s.len() && s[pos] == 13 && pos + 1 < s.len() && s[pos + 1] == 10 {
        pos = pos + 2;
    }
    Ok((pos, out))
}

/// One collected continuation segment of a composite value.
#[derive(Debug)]
pub enum Segment {
    /// Raw octets, still to be charset-decoded.
    Encoded(Vec<u8>),
    /// Text contributed by a plain parameter sharing the base name.
    Decoded(String),
}

/// The model of a segment: its octets or its text.
#[verifier::ext_equal]
pub enum GSeg {
    /// Raw octets, still to be charset-decoded.
    Encoded(Seq<u8>),
    /// Already-decoded text.
    Decoded(Seq<char>),
}

/// The model of one segment.
pub open spec fn gseg_of(s: Segment) -> GSeg {
    match s {
        Segment::Encoded(v) => GSeg::Encoded(v@),
        Segment::Decoded(t) => GSeg::Decoded(t@),
    }
}

/// The model of an indexed segment sequence.
pub open spec fn gsegs(v: Seq<(u32, Segment)>) -> Seq<(u32, GSeg)> {
    v.map(|_i: int, p: (u32, Segment)| (p.0, gseg_of(p.1)))
}

/// The lower-cased base name of a parameter.
pub open spec fn pname(p: Parameter) -> Seq<u8> {
    lower_bytes(p.name.name@)
}

/// The segment a sectioned parameter contributes.
pub open spec fn seg_of_param(p: Parameter) -> GSeg {
    match p.value {
        Value::Regular(v) => GSeg::Decoded(v@),
        Value::Extended(ExtendedValue::Initial { encoding: _, language: _, value }) => GSeg::Encoded(
            value@,
        ),
        Value::Extended(ExtendedValue::Other(v)) => GSeg::Encoded(v@),
    }
}

/// The charset label an initial extended segment carries, if any.
pub open spec fn initial_label(p: Parameter) -> Option<Seq<u8>> {
    match p.value {
        Value::Extended(ExtendedValue::Initial { encoding: Some(l), language: _, value: _ }) => Some(
            l@,
        ),
        _ => None,
    }
}

/// All the sectioned segments contributed under base name `n`, in
/// input order.
pub open spec fn segments_for(ps: Seq<Parameter>, n: Seq<u8>) -> Seq<(u32, GSeg)>
    decreases ps.len(),
{
    if ps.len() == 0 {
        Seq::empty()
    } else {
        let rest = segments_for(ps.drop_last(), n);
        let p = ps.last();
        if p.name.section is Some && pname(p) == n {
            rest.push((p.name.section->0, seg_of_param(p)))
        } else {
            rest
        }
    }
}

/// The charset for the composite value of base name `n`: the label of
/// the last sectioned initial segment whose label resolves, if any.
pub open spec fn composite_label(ps: Seq<Parameter>, n: Seq<u8>) -> Option<Seq<u8>>
    decreases ps.len(),
{
    if ps.len() == 0 {
        None
    } else {
        let p = ps.last();
        if p.name.section is Some && pname(p) == n && initial_label(p) is Some && charset_resolves(
            initial_label(p)->0,
        ) {
            initial_label(p)
        } else {
            composite_label(ps.drop_last(), n)
        }
    }
}

/// The last plain (unsectioned, regular) value given for base name
/// `n`, if any.
pub open spec fn last_simple(ps: Seq<Parameter>, n: Seq<u8>) -> Option<Seq<char>>
    decreases ps.len(),
{
    if ps.len() == 0 {
        None
    } else {
        let p = ps.last();
        if p.name.section is None && pname(p) == n && p.value is Regular {
            Some(p.value->Regular_0@)
        } else {
            last_simple(ps.drop_last(), n)
        }
    }
}

/// The last unsectioned extended-initial value given for base name
/// `n`, charset-decoded, if any.
pub open spec fn last_simple_encoded(ps: Seq<Parameter>, n: Seq<u8>) -> Option<Seq<char>>
    decreases ps.len(),
{
    if ps.len() == 0 {
        None
    } else {
        let p = ps.last();
        if p.name.section is None && (match p.value {
            Value::Extended(ExtendedValue::Initial { encoding: _, language: _, value: _ }) => true,
            _ => false,
        }) && pname(p) == n {
            match p.value {
                Value::Extended(
                    ExtendedValue::Initial { encoding: _, language: _, value },
                ) => Some(decoded_text(initial_label(p), value@)),
                _ => None,
            }
        } else {
            last_simple_encoded(ps.drop_last(), n)
        }
    }
}

/// Stable insertion of an indexed segment after every segment whose
/// index is not larger.
pub open spec fn insert_sorted(sorted: Seq<(u32, GSeg)>, x: (u32, GSeg)) -> Seq<(u32, GSeg)>
    decreases sorted.len(),
{
    if sorted.len() == 0 {
        seq![x]
    } else if sorted.last().0 <= x.0 {
        sorted.push(x)
    } else {
        insert_sorted(sorted.drop_last(), x).push(sorted.last())
    }
}

/// Stable sort of indexed segments, ascending by section index.
pub open spec fn sort_segs(s: Seq<(u32, GSeg)>) -> Seq<(u32, GSeg)>
    decreases s.len(),
{
    if s.len() == 0 {
        Seq::empty()
    } else {
        insert_sorted(sort_segs(s.drop_last()), s.last())
    }
}

/// Whether an indexed segment sequence is ascending by section index.
pub open spec fn segs_sorted(s: Seq<(u32, GSeg)>) -> bool {
    forall|a: int, b: int| 0 <= a < b < s.len() ==> (#[trigger] s[a]).0 <= (#[trigger] s[b]).0
}

proof fn lemma_insert_sorted_bound(s: Seq<(u32, GSeg)>, x: (u32, GSeg), c: u32)
    requires
        forall|k: int| 0 <= k < s.len() ==> (#[trigger] s[k]).0 <= c,
        x.0 <= c,
    ensures
        forall|k: int|
            0 <= k < insert_sorted(s, x).len() ==> (#[trigger] insert_sorted(s, x)[k]).0 <= c,
    decreases s.len(),
{
    if s.len() == 0 {
        assert(insert_sorted(s, x) == seq![x]);
        assert(seq![x][0] == x);
    } else if s.last().0 <= x.0 {
        assert(insert_sorted(s, x) == s.push(x));
    } else {
        assert(forall|k: int|
            0 <= k < s.drop_last().len() ==> (#[trigger] s.drop_last()[k]).0 <= c);
        lemma_insert_sorted_bound(s.drop_last(), x, c);
        let ins = insert_sorted(s.drop_last(), x);
        let res = insert_sorted(s, x);
        assert(res == ins.push(s.last()));
        assert(s.last() == s[s.len() - 1]);
        assert forall|k: int| 0 <= k < res.len() implies (#[trigger] res[k]).0 <= c by {
            if k < ins.len() {
                assert(res[k] == ins[k]);
            } else {
                assert(res[k] == s.last());
            }
        }
    }
}

proof fn lemma_insert_sorted_props(s: Seq<(u32, GSeg)>, x: (u32, GSeg))
    requires
        segs_sorted(s),
    ensures
        segs_sorted(insert_sorted(s, x)),
        insert_sorted(s, x).to_multiset() == s.to_multiset().insert(x),
    decreases s.len(),
{
    broadcast use vstd::seq_lib::group_to_multiset_ensures;

    if s.len() == 0 {
        assert(s =~= Seq::<(u32, GSeg)>::empty());
        assert(seq![x] =~= Seq::<(u32, GSeg)>::empty().push(x));
        assert(insert_sorted(s, x).to_multiset() =~= s.to_multiset().insert(x));
    } else if s.last().0 <= x.0 {
        assert(insert_sorted(s, x) == s.push(x));
        assert(forall|k: int| 0 <= k < s.len() ==> (#[trigger] s[k]).0 <= s.last().0);
        assert(segs_sorted(s.push(x)));
    } else {
        assert(segs_sorted(s.drop_last()));
        lemma_insert_sorted_props(s.drop_last(), x);
        assert(forall|k: int|
            0 <= k < s.drop_last().len() ==> (#[trigger] s.drop_last()[k]).0 <= s.last().0);
        lemma_insert_sorted_bound(s.drop_last(), x, s.last().0);
        let ins = insert_sorted(s.drop_last(), x);
        assert(segs_sorted(ins.push(s.last())));
        assert(s =~= s.drop_last().push(s.last()));
        assert(s.to_multiset() =~= s.drop_last().to_multiset().insert(s.last()));
        assert(ins.push(s.last()).to_multiset() =~= ins.to_multiset().insert(s.last()));
        assert(ins.to_multiset().insert(s.last()) =~= s.drop_last().to_multiset().insert(x).insert(
            s.last(),
        ));
        assert(s.drop_last().to_multiset().insert(x).insert(s.last())
            =~= s.drop_last().to_multiset().insert(s.last()).insert(x));
    }
}

/// The stable sort really sorts: its result carries the same segments,
/// as a multiset, in ascending section-index order.
pub proof fn lemma_sort_segs_sorts(s: Seq<(u32, GSeg)>)
    ensures
        segs_sorted(sort_segs(s)),
        sort_segs(s).to_multiset() == s.to_multiset(),
    decreases s.len(),
{
    broadcast use vstd::seq_lib::group_to_multiset_ensures;

    if s.len() == 0 {
    } else {
        lemma_sort_segs_sorts(s.drop_last());
        lemma_insert_sorted_props(sort_segs(s.drop_last()), s.last());
        assert(s =~= s.drop_last().push(s.last()));
        assert(s.to_multiset() =~= s.drop_last().to_multiset().insert(s.last()));
    }
}

/// Decoding of a sorted segment run: consecutive encoded segments are
/// clumped and charset-decoded as one byte run, so no multi-byte
/// character is split at a segment boundary; decoded text is spliced
/// in between, flushing the pending clump first.
pub open spec fn ds_run(segs: Seq<(u32, GSeg)>, label: Option<Seq<u8>>, pending: Seq<u8>) -> Seq<
    char,
>
    decreases segs.len(),
{
    if segs.len() == 0 {
        decoded_text(label, pending)
    } else {
        match segs[0].1 {
            GSeg::Encoded(b) => ds_run(segs.drop_first(), label, pending + b),
            GSeg::Decoded(t) => decoded_text(label, pending) + t + ds_run(
                segs.drop_first(),
                label,
                Seq::empty(),
            ),
        }
    }
}

/// The composite (multi-segment) value of base name `n`.
pub open spec fn composite_value(ps: Seq<Parameter>, n: Seq<u8>) -> Seq<char> {
    ds_run(sort_segs(segments_for(ps, n)), composite_label(ps, n), Seq::empty())
}

/// The final decoded value of base name `n` in a parameter list: a
/// composite value wins over an unsectioned extended one, which wins
/// over a plain one.
pub open spec fn param_map_value(ps: Seq<Parameter>, n: Seq<u8>) -> Option<Seq<char>> {
    if segments_for(ps, n).len() > 0 {
        Some(composite_value(ps, n))
    } else if last_simple_encoded(ps, n) is Some {
        last_simple_encoded(ps, n)
    } else {
        last_simple(ps, n)
    }
}

/// The view of an optional borrowed label.
pub open spec fn opt_label(l: Option<&Vec<u8>>) -> Option<Seq<u8>> {
    match l {
        Some(v) => Some(v@),
        None => None,
    }
}

proof fn lemma_seq_assoc_char(a: Seq<char>, b: Seq<char>, c: Seq<char>)
    ensures
        (a + b) + c == a + (b + c),
{
    assert((a + b) + c =~= a + (b + c));
}

/// Decode a collected segment list: sort it by section index (stable),
/// clump consecutive encoded segments, and decode each clump under the
/// given charset label, splicing decoded text in between.
pub fn decode_segments(input: Vec<(u32, Segment)>, label: Option<&Vec<u8>>) -> (r: String)
    ensures
        r@ == ds_run(sort_segs(gsegs(input@)), opt_label(label), Seq::empty()),
{
    let ghost orig = input@;
    let mut rest = input;
    let mut sorted: Vec<(u32, Segment)> = Vec::new();
    proof {
        assert(orig.take(0) =~= Seq::<(u32, Segment)>::empty());
        assert(gsegs(orig.take(0)) =~= Seq::<(u32, GSeg)>::empty());
    }
    while rest.len() > 0
        invariant
            rest@.len() <= orig.len(),
            rest@ == orig.skip(orig.len() - rest@.len()),
            gsegs(sorted@) == sort_segs(gsegs(orig.take(orig.len() - rest@.len()))),
        decreases rest@.len(),
    {
        let ghost m = orig.len() - rest@.len();
        proof {
            assert(rest@[0] == orig[m]);
            assert(orig.take(m + 1).drop_last() =~= orig.take(m as int));
            assert(gsegs(orig.take(m + 1)).drop_last() =~= gsegs(orig.take(m as int)));
            assert(gsegs(orig.take(m + 1)).last() == (orig[m].0, gseg_of(orig[m].1)));
        }
        let x = rest.remove(0);
        proof {
            assert(rest@ =~= orig.skip(m + 1));
        }
        let ghost gx = (x.0, gseg_of(x.1));
        let mut j = sorted.len();
        proof {
            assert(gsegs(sorted@).take(j as int) =~= gsegs(sorted@));
            assert(gsegs(sorted@).skip(j as int) =~= Seq::<(u32, GSeg)>::empty());
            assert(insert_sorted(gsegs(sorted@), gx) =~= insert_sorted(
                gsegs(sorted@).take(j as int),
                gx,
            ) + gsegs(sorted@).skip(j as int));
        }
        while j > 0 && sorted[j - 1].0 > x.0
            invariant
                j <= sorted@.len(),
                gx == (x.0, gseg_of(x.1)),
                insert_sorted(gsegs(sorted@), gx) == insert_sorted(
                    gsegs(sorted@).take(j as int),
                    gx,
                ) + gsegs(sorted@).skip(j as int),
            decreases j,
        {
            proof {
                let gs = gsegs(sorted@);
                assert(gs.take(j as int).last() == gs[j - 1]);
                assert(gs[j - 1].0 > gx.0);
                assert(gs.take(j as int).drop_last() =~= gs.take(j - 1));
                assert(insert_sorted(gs.take(j as int), gx) == insert_sorted(
                    gs.take(j - 1),
                    gx,
                ).push(gs[j - 1]));
                assert(insert_sorted(gs.take(j - 1), gx).push(gs[j - 1]) + gs.skip(j as int)
                    =~= insert_sorted(gs.take(j - 1), gx) + gs.skip(j - 1));
            }
            j = j - 1;
        }
        proof {
            let gs = gsegs(sorted@);
            if j == 0 {
                assert(gs.take(0) =~= Seq::<(u32, GSeg)>::empty());
                assert(insert_sorted(gs.take(0), gx) =~= seq![gx]);
                assert(insert_sorted(gs, gx) =~= seq![gx] + gs.skip(0));
            } else {
                assert(gs.take(j as int).last() == gs[j - 1]);
                assert(gs[j - 1].0 <= gx.0);
                assert(insert_sorted(gs.take(j as int), gx) == gs.take(j as int).push(gx));
            }
        }
        let ghost old_sorted = sorted@;
        sorted.insert(j, x);
        proof {
            let gs = gsegs(old_sorted);
            assert(gsegs(sorted@) =~= gs.take(j as int).push(gx) + gs.skip(j as int));
            if j == 0 {
                assert(gs.take(0).push(gx) =~= seq![gx]);
            }
            assert(gsegs(sorted@) =~= insert_sorted(gs, gx));
            assert(gsegs(sorted@) =~= sort_segs(gsegs(orig.take(m + 1))));
        }
    }
    proof {
        assert(orig.take(orig.len() as int) =~= orig);
    }
    let mut out = String::new();
    let mut pending: Vec<u8> = Vec::new();
    let mut t: usize = 0;
    let ghost all = gsegs(sorted@);
    proof {
        assert(all.skip(0) =~= all);
        assert(out@ + ds_run(all, opt_label(label), pending@) =~= ds_run(
            all,
            opt_label(label),
            pending@,
        ));
    }
    while t < sorted.len()
        invariant
            t <= sorted@.len(),
            all == gsegs(sorted@),
            out@ + ds_run(all.skip(t as int), opt_label(label), pending@) == ds_run(
                all,
                opt_label(label),
                Seq::empty(),
            ),
        decreases sorted@.len() - t,
    {
        proof {
            assert(all.skip(t as int)[0] == all[t as int]);
            assert(all.skip(t as int).drop_first() =~= all.skip(t + 1));
        }
        match &sorted[t] {
            (_sec, Segment::Encoded(b)) => {
                let mut chunk = slice_to_vec(b.as_slice());
                pending.append(&mut chunk);
            },
            (_sec, Segment::Decoded(txt)) => {
                let d = decode_bytes(label, pending.as_slice());
                vstd::string::StringExecFns::append(&mut out, d.as_str());
                vstd::string::StringExecFns::append(&mut out, txt.as_str());
                pending.clear();
                proof {
                    lemma_seq_assoc_char(
                        decoded_text(opt_label(label), pending@),
                        txt@,
                        ds_run(all.skip(t + 1), opt_label(label), Seq::empty()),
                    );
                }
            },
        }
        proof {
            lemma_seq_assoc_char(
                out@,
                Seq::empty(),
                ds_run(all.skip(t + 1), opt_label(label), pending@),
            );
        }
        t = t + 1;
    }
    proof {
        assert(all.skip(sorted@.len() as int) =~= Seq::<(u32, GSeg)>::empty());
    }
    let d = decode_bytes(label, pending.as_slice());
    vstd::string::StringExecFns::append(&mut out, d.as_str());
    out
}

/// A parameter that stands in the list makes its base name decodable.
proof fn lemma_param_occurs(ps: Seq<Parameter>, k: int)
    requires
        0 <= k < ps.len(),
        param_wf(ps[k]),
    ensures
        param_map_value(ps, pname(ps[k])) is Some,
    decreases ps.len(),
{
    let n = pname(ps[k]);
    if k == ps.len() - 1 {
        assert(ps.last() == ps[k]);
        match ps[k].name.section {
            Some(_) => {
                assert(segments_for(ps, n).len() > 0);
            },
            None => {
                match ps[k].value {
                    Value::Regular(_) => {
                        assert(last_simple(ps, n) is Some);
                    },
                    Value::Extended(ExtendedValue::Initial { encoding: _, language: _, value: _ }) => {
                        assert(last_simple_encoded(ps, n) is Some);
                    },
                    Value::Extended(ExtendedValue::Other(_)) => {
                        assert(false);
                    },
                }
            },
        }
    } else {
        assert(ps.drop_last()[k] == ps[k]);
        lemma_param_occurs(ps.drop_last(), k);
        assert(segments_for(ps.drop_last(), n).len() <= segments_for(ps, n).len());
        assert(last_simple(ps.drop_last(), n) is Some ==> last_simple(ps, n) is Some);
        assert(last_simple_encoded(ps.drop_last(), n) is Some ==> last_simple_encoded(
            ps,
            n,
        ) is Some);
    }
}

/// Whether a lowered name is already recorded.
fn contains_name(seen: &Vec<Vec<u8>>, n: &[u8]) -> (r: bool)
    ensures
        r == exists|m: int| 0 <= m < seen@.len() && #[trigger] seen@[m]@ == n@,
{
    let mut k: usize = 0;
    while k < seen.len()
        invariant
            k <= seen@.len(),
            forall|m: int| 0 <= m < k ==> #[trigger] seen@[m]@ != n@,
        decreases seen@.len() - k,
    {
        if crate::strings::bytes_eq(seen[k].as_slice(), n) {
            return true;
        }
        k = k + 1;
    }
    false
}

/// The final decoded value of base name `n`, scanned out of the whole
/// parameter list, or nothing when the name does not occur.
fn compute_value(input: &Vec<Parameter>, n: &[u8]) -> (r: Option<String>)
    ensures
        match r {
            Some(v) => param_map_value(input@, n@) == Some(v@),
            None => param_map_value(input@, n@) is None,
        },
{
    let ghost ps = input@;
    let mut segs: Vec<(u32, Segment)> = Vec::new();
    let mut label: Option<Vec<u8>> = None;
    let mut enc_val: Option<String> = None;
    let mut simp_val: Option<String> = None;
    let mut k: usize = 0;
    proof {
        assert(ps.take(0) =~= Seq::<Parameter>::empty());
        assert(gsegs(segs@) =~= segments_for(ps.take(0), n@));
    }
    while k < input.len()
        invariant
            k <= ps.len(),
            ps == input@,
            gsegs(segs@) == segments_for(ps.take(k as int), n@),
            (match label {
                Some(l) => composite_label(ps.take(k as int), n@) == Some(l@),
                None => composite_label(ps.take(k as int), n@) is None,
            }),
            (match enc_val {
                Some(v) => last_simple_encoded(ps.take(k as int), n@) == Some(v@),
                None => last_simple_encoded(ps.take(k as int), n@) is None,
            }),
            (match simp_val {
                Some(v) => last_simple(ps.take(k as int), n@) == Some(v@),
                None => last_simple(ps.take(k as int), n@) is None,
            }),
        decreases ps.len() - k,
    {
        proof {
            assert(ps.take(k + 1).drop_last() =~= ps.take(k as int));
            assert(ps.take(k + 1).last() == ps[k as int]);
        }
        let p = &input[k];
        let nm = lowercase_bytes(p.name.name.as_slice());
        if crate::strings::bytes_eq(nm.as_slice(), n) {
            match p.name.section {
                Some(sec) => {
                    match &p.value {
                        Value::Regular(v) => {
                            segs.push((sec, Segment::Decoded(v.clone())));
                        },
                        Value::Extended(ExtendedValue::Initial { encoding, language: _, value }) => {
                            match encoding {
                                Some(l) => {
                                    if charset_known(l.as_slice()) {
                                        label = Some(slice_to_vec(l.as_slice()));
                                    }
                                },
                                None => {
                                },
                            }
                            segs.push((sec, Segment::Encoded(slice_to_vec(value.as_slice()))));
                        },
                        Value::Extended(ExtendedValue::Other(v)) => {
                            segs.push((sec, Segment::Encoded(slice_to_vec(v.as_slice()))));
                        },
                    }
                    proof {
                        assert(gsegs(segs@) =~= segments_for(ps.take(k + 1), n@));
                    }
                },
                None => {
                    match &p.value {
                        Value::Regular(v) => {
                            simp_val = Some(v.clone());
                        },
                        Value::Extended(ExtendedValue::Initial { encoding, language: _, value }) => {
                            enc_val = Some(decode_bytes(encoding.as_ref(), value.as_slice()));
                        },
                        Value::Extended(ExtendedValue::Other(_)) => {
                        },
                    }
                },
            }
        }
        k = k + 1;
    }
    proof {
        assert(ps.take(ps.len() as int) =~= ps);
    }
    if segs.len() > 0 {
        proof {
            assert(segments_for(ps, n@).len() > 0);
        }
        let v = decode_segments(segs, label.as_ref());
        return Some(v);
    }
    proof {
        assert(segments_for(ps, n@).len() == 0);
    }
    match enc_val {
        Some(v) => Some(v),
        None => simp_val,
    }
}

/// Reassemble a parsed parameter list into one decoded text value per
/// distinct lower-cased base name.  Continued segments are sorted by
/// section index and decoded as clumped runs; a composite or extended
/// definition of a name wins over a plain one.  The order of the
/// entries is not specified.
/// Whether `key` is the text of some input parameter's lower-cased
/// base name.
pub open spec fn key_occurs(ps: Seq<Parameter>, key: Seq<char>) -> bool {
    exists|k: int| 0 <= k < ps.len() && key == #[trigger] chars_of(pname(ps[k]))
}

/// Every recorded key comes from some input parameter's lower-cased
/// name, read off the witness indices.
proof fn lemma_keys_from_inputs(
    input: Seq<Parameter>,
    out: Seq<(String, String)>,
    seen: Seq<Vec<u8>>,
    wit: Seq<int>,
)
    requires
        out.len() == seen.len(),
        wit.len() == seen.len(),
        forall|m: int| 0 <= m < out.len() ==> #[trigger] out[m].0@ == chars_of(seen[m]@),
        forall|m: int|
            0 <= m < seen.len() ==> 0 <= #[trigger] wit[m] < input.len() && seen[m]@ == pname(
                input[wit[m]],
            ),
    ensures
        forall|m: int|
            0 <= m < out.len() ==> key_occurs(input, #[trigger] out[m].0@),
{
    assert forall|m: int| 0 <= m < out.len() implies key_occurs(input, #[trigger] out[m].0@) by {
        assert(0 <= wit[m] < input.len());
        assert(out[m].0@ == chars_of(pname(input[wit[m]])));
    }
}

#[verifier::rlimit(50)]
pub fn decode_parameter_list(input: Vec<Parameter>) -> (r: Vec<(String, String)>)
    requires
        params_wf(input@),
    ensures
        forall|a: int, b: int| 0 <= a < b < r@.len() ==> r@[a].0@ != r@[b].0@,
        forall|m: int|
            0 <= m < r@.len() ==> param_map_value(input@, key_bytes(#[trigger] r@[m].0@)) == Some(
                r@[m].1@,
            ),
        forall|k: int|
            #![trigger input@[k]]
            0 <= k < input@.len() ==> exists|m: int|
                0 <= m < r@.len() && #[trigger] r@[m].0@ == chars_of(pname(input@[k])),
        forall|m: int| 0 <= m < r@.len() ==> key_occurs(input@, #[trigger] r@[m].0@),
{
    let mut seen: Vec<Vec<u8>> = Vec::new();
    let mut out: Vec<(String, String)> = Vec::new();
    let ghost mut wit: Seq<int> = Seq::empty();
    let mut k: usize = 0;
    while k < input.len()
        invariant
            k <= input@.len(),
            params_wf(input@),
            out@.len() == seen@.len(),
            forall|m: int| 0 <= m < out@.len() ==> #[trigger] out@[m].0@ == chars_of(seen@[m]@),
            forall|a: int, b: int| 0 <= a < b < seen@.len() ==> seen@[a]@ != seen@[b]@,
            forall|m: int|
                0 <= m < out@.len() ==> param_map_value(input@, seen@[m]@) == Some(
                    #[trigger] out@[m].1@,
                ),
            forall|j: int|
                #![trigger input@[j]]
                0 <= j < k ==> exists|m: int|
                    0 <= m < seen@.len() && #[trigger] seen@[m]@ == pname(input@[j]),
            wit.len() == seen@.len(),
            forall|m: int|
                0 <= m < seen@.len() ==> 0 <= #[trigger] wit[m] < k && seen@[m]@ == pname(
                    input@[wit[m]],
                ),
        decreases input@.len() - k,
    {
        let p = &input[k];
        let nm = lowercase_bytes(p.name.name.as_slice());
        proof {
            assert(nm@ == pname(input@[k as int]));
        }
        let ghost old_seen = seen@;
        if !contains_name(&seen, nm.as_slice()) {
            match compute_value(&input, nm.as_slice()) {
                Some(v) => {
                    out.push((bytes_to_text(nm.as_slice()), v));
                    seen.push(nm);
                    proof {
                        assert forall|j: int|
                            #![trigger input@[j]]
                            0 <= j < k + 1 implies exists|m: int|
                            0 <= m < seen@.len() && #[trigger] seen@[m]@ == pname(input@[j]) by {
                            if j < k {
                                let m = choose|m: int|
                                    0 <= m < old_seen.len() && #[trigger] old_seen[m]@ == pname(
                                        input@[j],
                                    );
                                assert(seen@[m]@ == pname(input@[j]));
                            } else {
                                assert(seen@[seen@.len() - 1]@ == pname(input@[j]));
                            }
                        }
                        wit = wit.push(k as int);
                        assert(seen@[seen@.len() - 1]@ == pname(input@[wit[seen@.len() - 1]]));
                    }
                },
                None => {
                    proof {
                        lemma_param_occurs(input@, k as int);
                        assert(false);
                    }
                },
            }
        } else {
            proof {
                assert(exists|m: int|
                    0 <= m < seen@.len() && #[trigger] seen@[m]@ == pname(input@[k as int]));
            }
        }
        k = k + 1;
    }
    proof {
        assert forall|m: int| 0 <= m < out@.len() implies param_map_value(
            input@,
            key_bytes(#[trigger] out@[m].0@),
        ) == Some(out@[m].1@) by {
            crate::strings::lemma_key_bytes_chars(seen@[m]@);
        }
        assert forall|k2: int| #![trigger input@[k2]] 0 <= k2 < input@.len() implies exists|m: int|
            0 <= m < out@.len() && #[trigger] out@[m].0@ == chars_of(pname(input@[k2])) by {
            let m = choose|m: int| 0 <= m < seen@.len() && #[trigger] seen@[m]@ == pname(
                input@[k2],
            );
            assert(out@[m].0@ == chars_of(pname(input@[k2])));
        }
        lemma_keys_from_inputs(input@, out@, seen@, wit);
        assert forall|a: int, b: int| 0 <= a < b < out@.len() implies out@[a].0@ != out@[b].0@ by {
            crate::strings::lemma_key_bytes_chars(seen@[a]@);
            crate::strings::lemma_key_bytes_chars(seen@[b]@);
            if out@[a].0@ == out@[b].0@ {
                assert(key_bytes(chars_of(seen@[a]@)) == key_bytes(chars_of(seen@[b]@)));
            }
        }
    }
    out
}

/// Match `pat` at `i`, ignoring ASCII case.  Returns the position just
/// past the match.
fn match_ci(s: &[u8], i: usize, pat: &[u8]) -> (r: Option<usize>)
    requires
        i <= s@.len(),
    ensures
        r matches Some(j) ==> i <= j <= s@.len() && j == i + pat@.len() && lower_bytes(
            s@.subrange(i as int, j as int),
        ) == lower_bytes(pat@),
{
    if s.len() - i < pat.len() {
        return None;
    }
    let end = i + pat.len();
    let mut k: usize = 0;
    while k < pat.len()
        invariant
            k <= pat@.len(),
            end == i + pat@.len(),
            end <= s@.len(),
            forall|m: int|
                0 <= m < k ==> crate::strings::lower_byte(s@[i + m]) == crate::strings::lower_byte(
                    #[trigger] pat@[m],
                ),
        decreases pat@.len() - k,
    {
        let a = s[i + k];
        let b = pat[k];
        let la = if 65 <= a && a <= 90 {
            a + 32
        } else {
            a
        };
        let lb = if 65 <= b && b <= 90 {
            b + 32
        } else {
            b
        };
        if la != lb {
            return None;
        }
        k = k + 1;
    }
    proof {
        assert(lower_bytes(s@.subrange(i as int, end as int)) =~= lower_bytes(pat@));
    }
    Some(end)
}

/// Whether `v` is the text of a token standing at `[a, b)` in `s`.
pub open spec fn is_token_text_at(s: Seq<u8>, a: int, b: int, v: Seq<char>) -> bool {
    &&& 0 <= a < b <= s.len()
    &&& v == chars_of(s.subrange(a, b))
    &&& forall|k: int| a <= k < b ==> is_token_char(s[k])
}

/// The distinct-name guarantee of a decoded parameter mapping.
pub open spec fn distinct_keys(params: Seq<(String, String)>) -> bool {
    forall|a: int, b: int| 0 <= a < b < params.len() ==> params[a].0@ != params[b].0@
}

/// Whether a `type/subtype` pair stands at the front of the input,
/// after optional folding white space.
pub open spec fn mime_shape(s: Seq<u8>) -> bool {
    let p0 = ofws_end(s, 0);
    let t1 = token_end(s, p0);
    &&& p0 < s.len() && is_token_char(s[p0])
    &&& t1 < s.len() && s[t1] == 47
    &&& t1 + 1 < s.len() && is_token_char(s[t1 + 1])
}

/// Where the `type/subtype` pair at the front of the input ends.
pub open spec fn mime_end(s: Seq<u8>) -> int {
    token_end(s, token_end(s, ofws_end(s, 0)) + 1)
}

/// Parse a MIME `Content-Type` header value: the `type/subtype` pair,
/// lower-cased, and the decoded parameter mapping.  Returns the
/// unconsumed remainder as well.  The parse is refused with the
/// malformed error exactly when no `type/subtype` pair opens the
/// input; past that, only the comment depth bound can fail it.
pub fn content_type(input: &[u8]) -> (r: Result<
    (&[u8], (String, Vec<(String, String)>)),
    ParseError,
>)
    ensures
        r matches Ok((rem, (mt, params))) ==> mime_shape(input@) && mt@ == chars_of(
            lower_bytes(input@.subrange(ofws_end(input@, 0), mime_end(input@))),
        ) && mt@.len() >= 3 && distinct_keys(params@) && (exists|j: int|
            0 < j <= input@.len() && rem@ == input@.subrange(j, input@.len() as int)),
        (r matches Err(e) && e == ParseError::Malformed) <==> !mime_shape(input@),
        input@.len() == 0 ==> r is Err,
{
    let (p0, _) = ofws(input, 0);
    let (p1, _t1) = match token(input, p0) {
        Ok(x) => x,
        Err(e) => {
            return Err(e);
        },
    };
    if !(p1 < input.len() && input[p1] == 47) {
        return Err(ParseError::Malformed);
    }
    let (p2, _t2) = match token(input, p1 + 1) {
        Ok(x) => x,
        Err(e) => {
            return Err(e);
        },
    };
    let mime = lowercase_bytes(&input[p0..p2]);
    let (p3, _) = ofws(input, p2);
    let (p4, plist) = match parameter_list(input, p3) {
        Ok(x) => x,
        Err(e) => {
            return Err(e);
        },
    };
    let params = decode_parameter_list(plist);
    let rem = &input[p4..input.len()];
    let mt = bytes_to_text(mime.as_slice());
    proof {
        assert(mime@ == lower_bytes(input@.subrange(p0 as int, p2 as int)));
        assert(mt@ == chars_of(lower_bytes(input@.subrange(p0 as int, p2 as int))));
        assert(exists|a: int, b: int|
            0 <= a < b <= input@.len() && mt@ == chars_of(lower_bytes(input@.subrange(a, b))));
    }
    Ok((rem, (mt, params)))
}

/// Value of a MIME `Content-Disposition` header.
#[derive(Clone, Debug, PartialEq)]
pub enum ContentDisposition {
    /// `inline`
    Inline,
    /// `attachment`
    Attachment,
    /// A value with an `x-` prefix; the prefix is not stored.
    Extended(String),
    /// Any other syntactically valid token.
    Token(String),
}

/// The canonical text of a disposition value.
pub open spec fn disposition_text(d: ContentDisposition) -> Seq<char> {
    match d {
        ContentDisposition::Inline => seq!['i', 'n', 'l', 'i', 'n', 'e'],
        ContentDisposition::Attachment => seq![
            'a',
            't',
            't',
            'a',
            'c',
            'h',
            'm',
            'e',
            'n',
            't',
        ],
        ContentDisposition::Extended(s) => seq!['x', '-'] + s@,
        ContentDisposition::Token(t) => t@,
    }
}

impl ContentDisposition {
    /// Render the value back as header text.
    pub fn to_text(&self) -> (r: String)
        ensures
            r@ == disposition_text(*self),
    {
        proof {
            reveal_strlit("inline");
            reveal_strlit("attachment");
            reveal_strlit("x-");
            assert("inline"@ =~= seq!['i', 'n', 'l', 'i', 'n', 'e']);
            assert("attachment"@ =~= seq!['a', 't', 't', 'a', 'c', 'h', 'm', 'e', 'n', 't']);
            assert("x-"@ =~= seq!['x', '-']);
        }
        match self {
            ContentDisposition::Inline => <String as vstd::string::StringExecFns>::from_str("inline"),
            ContentDisposition::Attachment => <String as vstd::string::StringExecFns>::from_str("attachment"),
            ContentDisposition::Extended(s) => {
                let mut out = <String as vstd::string::StringExecFns>::from_str("x-");
                vstd::string::StringExecFns::append(&mut out, s.as_str());
                out
            },
            ContentDisposition::Token(t) => t.clone(),
        }
    }
}

/// Parse a MIME `Content-Disposition` header value: the disposition
/// kind, matched case-insensitively with unknown tokens accepted, and
/// the decoded parameter mapping.
pub fn content_disposition(input: &[u8]) -> (r: Result<
    (&[u8], (ContentDisposition, Vec<(String, String)>)),
    ParseError,
>)
    ensures
        r matches Ok((rem, (d, params))) ==> distinct_keys(params@) && (exists|j: int|
            0 < j <= input@.len() && rem@ == input@.subrange(j, input@.len() as int)) && (match d {
            ContentDisposition::Token(tk) => exists|a: int, b: int|
                #[trigger] is_token_text_at(input@, a, b, tk@),
            ContentDisposition::Extended(tk) => exists|a: int, b: int|
                #[trigger] is_token_text_at(input@, a, b, tk@),
            _ => true,
        }),
        (r matches Err(e) && e == ParseError::Malformed) <==> !({
            let p0 = ofws_end(input@, 0);
            p0 < input@.len() && is_token_char(input@[p0])
        }),
        input@.len() == 0 ==> r is Err,
{
    let (p0, _) = ofws(input, 0);
    let pat_inline: [u8; 6] = [105, 110, 108, 105, 110, 101];
    let pat_attachment: [u8; 10] = [97, 116, 116, 97, 99, 104, 109, 101, 110, 116];
    let pat_x: [u8; 2] = [120, 45];
    let disp: ContentDisposition;
    let pos: usize;
    if let Some(j) = match_ci(input, p0, &pat_inline) {
        proof {
            assert(lower_bytes(input@.subrange(p0 as int, j as int))[0]
                == crate::strings::lower_byte(input@[p0 as int]));
            assert(lower_bytes(pat_inline@)[0] == crate::strings::lower_byte(pat_inline@[0]));
            assert(is_token_char(input@[p0 as int]));
        }
        disp = ContentDisposition::Inline;
        pos = j;
    } else if let Some(j) = match_ci(input, p0, &pat_attachment) {
        proof {
            assert(lower_bytes(input@.subrange(p0 as int, j as int))[0]
                == crate::strings::lower_byte(input@[p0 as int]));
            assert(lower_bytes(pat_attachment@)[0] == crate::strings::lower_byte(
                pat_attachment@[0],
            ));
            assert(is_token_char(input@[p0 as int]));
        }
        disp = ContentDisposition::Attachment;
        pos = j;
    } else {
        let mut x_tok: Option<(usize, Vec<u8>)> = None;
        if let Some(j) = match_ci(input, p0, &pat_x) {
            proof {
                assert(lower_bytes(input@.subrange(p0 as int, j as int))[0]
                    == crate::strings::lower_byte(input@[p0 as int]));
                assert(lower_bytes(pat_x@)[0] == crate::strings::lower_byte(pat_x@[0]));
                assert(is_token_char(input@[p0 as int]));
            }
            match token(input, j) {
                Ok((j2, v)) => {
                    x_tok = Some((j2, v));
                },
                Err(_) => {
                },
            }
        }
        match x_tok {
            Some((j, v)) => {
                let ghost tok_start = j - v@.len();
                let text = bytes_to_text(v.as_slice());
                proof {
                    assert(is_token_text_at(input@, tok_start, j as int, text@));
                    assert(exists|a: int, b: int| #[trigger] is_token_text_at(input@, a, b, text@));
                }
                disp = ContentDisposition::Extended(text);
                proof {
                    assert(is_token_text_at(input@, tok_start, j as int, disp->Extended_0@));
                    assert(exists|a: int, b: int|
                        #[trigger] is_token_text_at(input@, a, b, disp->Extended_0@));
                }
                pos = j;
            },
            None => {
                match token(input, p0) {
                    Ok((j, v)) => {
                        let text = bytes_to_text(v.as_slice());
                        proof {
                            assert(is_token_text_at(input@, p0 as int, j as int, text@));
                            assert(exists|a: int, b: int|
                                #[trigger] is_token_text_at(input@, a, b, text@));
                        }
                        disp = ContentDisposition::Token(text);
                        proof {
                            assert(is_token_text_at(input@, p0 as int, j as int, disp->Token_0@));
                            assert(exists|a: int, b: int|
                                #[trigger] is_token_text_at(input@, a, b, disp->Token_0@));
                        }
                        pos = j;
                    },
                    Err(e) => {
                        return Err(e);
                    },
                }
            },
        }
    }
    let (p3, _) = ofws(input, pos);
    let (p4, plist) = match parameter_list(input, p3) {
        Ok(x) => x,
        Err(e) => {
            return Err(e);
        },
    };
    let params = decode_parameter_list(plist);
    let rem = &input[p4..input.len()];
    proof {
        assert(pos > 0 && p4 >= pos);
    }
    Ok((rem, (disp, params)))
}

/// Value of a MIME `Content-Transfer-Encoding` header.
#[derive(Clone, Debug, PartialEq)]
pub enum ContentTransferEncoding {
    /// `7bit`
    SevenBit,
    /// `8bit`
    EightBit,
    /// `binary`
    Binary,
    /// `base64`
    Base64,
    /// `quoted-printable`
    QuotedPrintable,
    /// A value with an `x-` prefix; the prefix is not stored.
    Extended(String),
    /// Any other syntactically valid token.
    Token(String),
}

/// The canonical text of a transfer-encoding value.
pub open spec fn cte_text(e: ContentTransferEncoding) -> Seq<char> {
    match e {
        ContentTransferEncoding::SevenBit => seq!['7', 'b', 'i', 't'],
        ContentTransferEncoding::EightBit => seq!['8', 'b', 'i', 't'],
        ContentTransferEncoding::Binary => seq!['b', 'i', 'n', 'a', 'r', 'y'],
        ContentTransferEncoding::Base64 => seq!['b', 'a', 's', 'e', '6', '4'],
        ContentTransferEncoding::QuotedPrintable => seq![
            'q',
            'u',
            'o',
            't',
            'e',
            'd',
            '-',
            'p',
            'r',
            'i',
            'n',
            't',
            'a',
            'b',
            'l',
            'e',
        ],
        ContentTransferEncoding::Extended(s) => seq!['x', '-'] + s@,
        ContentTransferEncoding::Token(t) => t@,
    }
}

impl ContentTransferEncoding {
    /// Render the value back as header text.
    pub fn to_text(&self) -> (r: String)
        ensures
            r@ == cte_text(*self),
    {
        proof {
            reveal_strlit("7bit");
            reveal_strlit("8bit");
            reveal_strlit("binary");
            reveal_strlit("base64");
            reveal_strlit("quoted-printable");
            reveal_strlit("x-");
            assert("7bit"@ =~= seq!['7', 'b', 'i', 't']);
            assert("8bit"@ =~= seq!['8', 'b', 'i', 't']);
            assert("binary"@ =~= seq!['b', 'i', 'n', 'a', 'r', 'y']);
            assert("base64"@ =~= seq!['b', 'a', 's', 'e', '6', '4']);
            assert("quoted-printable"@ =~= seq![
                'q',
                'u',
                'o',
                't',
                'e',
                'd',
                '-',
                'p',
                'r',
                'i',
                'n',
                't',
                'a',
                'b',
                'l',
                'e',
            ]);
            assert("x-"@ =~= seq!['x', '-']);
        }
        match self {
            ContentTransferEncoding::SevenBit => <String as vstd::string::StringExecFns>::from_str("7bit"),
            ContentTransferEncoding::EightBit => <String as vstd::string::StringExecFns>::from_str("8bit"),
            ContentTransferEncoding::Binary => <String as vstd::string::StringExecFns>::from_str("binary"),
            ContentTransferEncoding::Base64 => <String as vstd::string::StringExecFns>::from_str("base64"),
            ContentTransferEncoding::QuotedPrintable => <String as vstd::string::StringExecFns>::from_str(
                "quoted-printable",
            ),
            ContentTransferEncoding::Extended(s) => {
                let mut out = <String as vstd::string::StringExecFns>::from_str("x-");
                vstd::string::StringExecFns::append(&mut out, s.as_str());
                out
            },
            ContentTransferEncoding::Token(t) => t.clone(),
        }
    }
}

/// Parse a MIME `Content-Transfer-Encoding` header value, matched
/// case-insensitively with unknown tokens accepted.
pub fn content_transfer_encoding(input: &[u8]) -> (r: Result<
    (&[u8], ContentTransferEncoding),
    ParseError,
>)
    ensures
        r matches Ok((rem, v)) ==> (exists|j: int|
            0 < j <= input@.len() && rem@ == input@.subrange(j, input@.len() as int)) && (match v {
            ContentTransferEncoding::Token(tk) => exists|a: int, b: int|
                #[trigger] is_token_text_at(input@, a, b, tk@),
            ContentTransferEncoding::Extended(tk) => exists|a: int, b: int|
                #[trigger] is_token_text_at(input@, a, b, tk@),
            _ => true,
        }),
        r is Ok <==> ({
            let p0 = ofws_end(input@, 0);
            p0 < input@.len() && is_token_char(input@[p0])
        }),
        input@.len() == 0 ==> r is Err,
{
    let (p0, _) = ofws(input, 0);
    let pat_7bit: [u8; 4] = [55, 98, 105, 116];
    let pat_8bit: [u8; 4] = [56, 98, 105, 116];
    let pat_binary: [u8; 6] = [98, 105, 110, 97, 114, 121];
    let pat_base64: [u8; 6] = [98, 97, 115, 101, 54, 52];
    let pat_qp: [u8; 16] = [113, 117, 111, 116, 101, 100, 45, 112, 114, 105, 110, 116, 97, 98, 108, 101];
    let pat_x: [u8; 2] = [120, 45];
    let cte: ContentTransferEncoding;
    let pos: usize;
    if let Some(j) = match_ci(input, p0, &pat_7bit) {
        proof {
            assert(lower_bytes(input@.subrange(p0 as int, j as int))[0]
                == crate::strings::lower_byte(input@[p0 as int]));
            assert(lower_bytes(pat_7bit@)[0] == crate::strings::lower_byte(pat_7bit@[0]));
            assert(is_token_char(input@[p0 as int]));
        }
        cte = ContentTransferEncoding::SevenBit;
        pos = j;
    } else if let Some(j) = match_ci(input, p0, &pat_8bit) {
        proof {
            assert(lower_bytes(input@.subrange(p0 as int, j as int))[0]
                == crate::strings::lower_byte(input@[p0 as int]));
            assert(lower_bytes(pat_8bit@)[0] == crate::strings::lower_byte(pat_8bit@[0]));
            assert(is_token_char(input@[p0 as int]));
        }
        cte = ContentTransferEncoding::EightBit;
        pos = j;
    } else if let Some(j) = match_ci(input, p0, &pat_binary) {
        proof {
            assert(lower_bytes(input@.subrange(p0 as int, j as int))[0]
                == crate::strings::lower_byte(input@[p0 as int]));
            assert(lower_bytes(pat_binary@)[0] == crate::strings::lower_byte(pat_binary@[0]));
            assert(is_token_char(input@[p0 as int]));
        }
        cte = ContentTransferEncoding::Binary;
        pos = j;
    } else if let Some(j) = match_ci(input, p0, &pat_base64) {
        proof {
            assert(lower_bytes(input@.subrange(p0 as int, j as int))[0]
                == crate::strings::lower_byte(input@[p0 as int]));
            assert(lower_bytes(pat_base64@)[0] == crate::strings::lower_byte(pat_base64@[0]));
            assert(is_token_char(input@[p0 as int]));
        }
        cte = ContentTransferEncoding::Base64;
        pos = j;
    } else if let Some(j) = match_ci(input, p0, &pat_qp) {
        proof {
            assert(lower_bytes(input@.subrange(p0 as int, j as int))[0]
                == crate::strings::lower_byte(input@[p0 as int]));
            assert(lower_bytes(pat_qp@)[0] == crate::strings::lower_byte(pat_qp@[0]));
            assert(is_token_char(input@[p0 as int]));
        }
        cte = ContentTransferEncoding::QuotedPrintable;
        pos = j;
    } else {
        let mut x_tok: Option<(usize, Vec<u8>)> = None;
        if let Some(j) = match_ci(input, p0, &pat_x) {
            proof {
                assert(lower_bytes(input@.subrange(p0 as int, j as int))[0]
                    == crate::strings::lower_byte(input@[p0 as int]));
                assert(lower_bytes(pat_x@)[0] == crate::strings::lower_byte(pat_x@[0]));
                assert(is_token_char(input@[p0 as int]));
            }
            match token(input, j) {
                Ok((j2, v)) => {
                    x_tok = Some((j2, v));
                },
                Err(_) => {
                },
            }
        }
        match x_tok {
            Some((j, v)) => {
                let ghost tok_start = j - v@.len();
                let text = bytes_to_text(v.as_slice());
                proof {
                    assert(is_token_text_at(input@, tok_start, j as int, text@));
                    assert(exists|a: int, b: int| #[trigger] is_token_text_at(input@, a, b, text@));
                }
                cte = ContentTransferEncoding::Extended(text);
                proof {
                    assert(is_token_text_at(input@, tok_start, j as int, cte->Extended_0@));
                    assert(exists|a: int, b: int|
                        #[trigger] is_token_text_at(input@, a, b, cte->Extended_0@));
                }
                pos = j;
            },
            None => {
                match token(input, p0) {
                    Ok((j, v)) => {
                        let text = bytes_to_text(v.as_slice());
                        proof {
                            assert(is_token_text_at(input@, p0 as int, j as int, text@));
                            assert(exists|a: int, b: int|
                                #[trigger] is_token_text_at(input@, a, b, text@));
                        }
                        cte = ContentTransferEncoding::Token(text);
                        proof {
                            assert(is_token_text_at(input@, p0 as int, j as int, cte->Token_0@));
                            assert(exists|a: int, b: int|
                                #[trigger] is_token_text_at(input@, a, b, cte->Token_0@));
                        }
                        pos = j;
                    },
                    Err(e) => {
                        return Err(e);
                    },
                }
            },
        }
    }
    let (p3, _) = ofws(input, pos);
    proof {
        assert(pos > 0 && p3 >= pos);
    }
    let rem = &input[p3..input.len()];
    Ok((rem, cte))
}

} // verus!

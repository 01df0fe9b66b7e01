//! SMTP delivery status notification (DSN) extension parameters
//! (RFC 3461).

use vstd::prelude::*;
use crate::ParseError;
use crate::strings::{
    bytes_to_text,
    chars_of,
    hex_digit,
    hexpair_val,
    hexpair_value,
    is_hex_digit,
};

verus! {

/// A character that stands for itself inside xtext: printable US-ASCII
/// except `+` and `=`.
pub open spec fn is_xchar(c: u8) -> bool {
    (33 <= c && c <= 42) || (44 <= c && c <= 60) || (62 <= c && c <= 126)
}

fn xchar_char(c: u8) -> (r: bool)
    ensures
        r == is_xchar(c),
{
    (33 <= c && c <= 42) || (44 <= c && c <= 60) || (62 <= c && c <= 126)
}

/// One step of xtext reading from position `i`: the position where the
/// xtext run ends and the decoded octets, with `+HH` pairs turned into
/// the byte the hexadecimal digits denote.
pub open spec fn xtext_parse(s: Seq<u8>, i: int) -> (int, Seq<u8>)
    decreases s.len() - i,
{
    if i < 0 || i >= s.len() {
        (i, Seq::empty())
    } else if is_xchar(s[i]) {
        let (j, rest) = xtext_parse(s, i + 1);
        (j, seq![s[i]] + rest)
    } else if s[i] == 43 && i + 3 <= s.len() && is_hex_digit(s[i + 1]) && is_hex_digit(s[i + 2]) {
        let (j, rest) = xtext_parse(s, i + 3);
        (j, seq![hexpair_val(s[i + 1], s[i + 2])] + rest)
    } else {
        (i, Seq::empty())
    }
}

/// Read a maximal xtext run starting at `i`; never fails.  Returns the
/// end of the run and the decoded octets.
pub fn xtext(s: &[u8], i: usize) -> (r: (usize, Vec<u8>))
    requires
        i <= s@.len(),
    ensures
        i <= r.0 <= s@.len(),
        (r.0 as int, r.1@) == xtext_parse(s@, i as int),
{
    let mut out: Vec<u8> = Vec::new();
    let mut j: usize = i;
    loop
        invariant
            i <= j <= s@.len(),
            xtext_parse(s@, i as int) == {
                let (e, rest) = xtext_parse(s@, j as int);
                (e, out@ + rest)
            },
        ensures
            i <= j <= s@.len(),
            xtext_parse(s@, i as int) == (j as int, out@),
        decreases s@.len() - j,
    {
        if j < s.len() && xchar_char(s[j]) {
            out.push(s[j]);
            j = j + 1;
        } else if j < s.len() && s[j] == 43 && s.len() - j >= 3 && hex_digit(s[j + 1]) && hex_digit(
            s[j + 2],
        ) {
            out.push(hexpair_value(s[j + 1], s[j + 2]));
            j = j + 3;
        } else {
            proof {
                assert(xtext_parse(s@, j as int) == (j as int, Seq::<u8>::empty()));
                assert(out@ + Seq::<u8>::empty() =~= out@);
            }
            break ;
        }
        proof {
            assert(xtext_parse(s@, i as int) == {
                let (e, rest) = xtext_parse(s@, j as int);
                (e, out@ + rest)
            }) by {
                assert(forall|a: Seq<u8>, b: Seq<u8>, c: Seq<u8>|
                    #[trigger] (a + (b + c)) == (a + b) + c) by {
                    assert forall|a: Seq<u8>, b: Seq<u8>, c: Seq<u8>| #[trigger]
                        (a + (b + c)) == (a + b) + c by {
                        assert(a + (b + c) =~= (a + b) + c);
                    }
                }
            }
        }
    }
    (j, out)
}

/// An xtext read is maximal: reading again from the position where it
/// stopped consumes nothing and yields nothing.
pub proof fn lemma_xtext_stops(s: Seq<u8>, i: int)
    requires
        0 <= i <= s.len(),
    ensures
        xtext_parse(s, xtext_parse(s, i).0) == (xtext_parse(s, i).0, Seq::<u8>::empty()),
    decreases s.len() - i,
{
    if i >= s.len() {
    } else if is_xchar(s[i]) {
        lemma_xtext_stops(s, i + 1);
    } else if s[i] == 43 && i + 3 <= s.len() && is_hex_digit(s[i + 1]) && is_hex_digit(s[i + 2]) {
        lemma_xtext_stops(s, i + 3);
    }
}

/// Whether decoded xtext octets are printable: visible US-ASCII, space,
/// or one of the white-space control characters.
pub open spec fn xtext_printable(b: Seq<u8>) -> bool {
    forall|k: int| 0 <= k < b.len() ==> ((32 <= #[trigger] b[k] && b[k] <= 126) || (9 <= b[k] && b[k]
        <= 13))
}

fn xtext_printable_check(b: &[u8]) -> (r: bool)
    ensures
        r == xtext_printable(b@),
{
    let mut k: usize = 0;
    while k < b.len()
        invariant
            k <= b@.len(),
            forall|m: int| 0 <= m < k ==> ((32 <= #[trigger] b@[m] && b@[m] <= 126) || (9 <= b@[m]
                && b@[m] <= 13)),
        decreases b@.len() - k,
    {
        let c = b[k];
        if !((32 <= c && c <= 126) || (9 <= c && c <= 13)) {
            return false;
        }
        k = k + 1;
    }
    true
}

/// The whole of `b` read as xtext, when it is consumed exactly and its
/// decoded octets are printable.
pub open spec fn xtext_full(b: Seq<u8>) -> Option<Seq<u8>> {
    let (j, d) = xtext_parse(b, 0);
    if j == b.len() && xtext_printable(d) {
        Some(d)
    } else {
        None
    }
}

/// Parse the ESMTP `ORCPT` parameter of a `RCPT TO` command: an
/// address type, a semicolon, then the xtext-encoded original
/// recipient address.  Returns the unconsumed remainder, the address
/// type and the decoded address.
pub fn orcpt_address(input: &[u8]) -> (r: Result<(&[u8], (String, String)), ParseError>)
    ensures
        r matches Ok((rem, (atype, addr))) ==> atype@.len() >= 1 && (exists|a: int|
            0 <= a && a < crate::rfc5322::atext_end(input@, a) && atype@ == chars_of(
                #[trigger] input@.subrange(a, crate::rfc5322::atext_end(input@, a)),
            )) && (exists|sc: int|
            #![trigger input@[sc]]
            {
                let (e, d) = xtext_parse(input@, sc + 1);
                &&& 0 <= sc < input@.len()
                &&& input@[sc] == 59
                &&& addr@ == chars_of(d)
                &&& xtext_printable(d)
                &&& rem@ == input@.subrange(e, input@.len() as int)
            }),
        ({
            let ae = crate::rfc5322::atext_end(input@, 0);
            input@.len() > 0 && crate::rfc5322::is_atext(input@[0]) && ae < input@.len()
                && input@[ae] == 59 && xtext_printable(xtext_parse(input@, ae + 1).1)
        }) ==> (r matches Ok((rem, (atype, addr))) && atype@ == chars_of(
            input@.subrange(0, crate::rfc5322::atext_end(input@, 0)),
        ) && addr@ == chars_of(xtext_parse(input@, crate::rfc5322::atext_end(input@, 0) + 1).1)
            && rem@ == input@.subrange(
            xtext_parse(input@, crate::rfc5322::atext_end(input@, 0) + 1).0,
            input@.len() as int,
        )),
        input@.len() == 0 ==> r is Err,
{
    let (p1, at_bytes) = match crate::rfc5322::atom(input, 0) {
        Ok(x) => x,
        Err(e) => {
            return Err(e);
        },
    };
    if !(p1 < input.len() && input[p1] == 59) {
        return Err(ParseError::Malformed);
    }
    let (p2, decoded) = xtext(input, p1 + 1);
    if !xtext_printable_check(decoded.as_slice()) {
        return Err(ParseError::Malformed);
    }
    let rem = &input[p2..input.len()];
    let atype = bytes_to_text(at_bytes.as_slice());
    let addr = bytes_to_text(decoded.as_slice());
    proof {
        assert({
            let (e, d) = xtext_parse(input@, p1 + 1);
            &&& input@[p1 as int] == 59
            &&& addr@ == chars_of(d)
            &&& xtext_printable(d)
            &&& rem@ == input@.subrange(e, input@.len() as int)
        });
        let a = choose|a: int|
            0 <= a && a < crate::rfc5322::atext_end(input@, a) && at_bytes@
                == #[trigger] input@.subrange(a, crate::rfc5322::atext_end(input@, a));
        assert(atype@ == chars_of(input@.subrange(a, crate::rfc5322::atext_end(input@, a))));
    }
    Ok((rem, (atype, addr)))
}

/// The DSN return type desired by the sender.
#[derive(Clone, Copy, Debug, PartialEq, Eq, Structural)]
pub enum DSNRet {
    /// Return the full message content.
    Full,
    /// Return only the message headers.
    Hdrs,
}

/// DSN parameters of a `MAIL` command.
#[derive(Clone, Debug, PartialEq)]
pub struct DSNMailParams {
    /// A mail transaction identifier provided by the sender, decoded
    /// from xtext; absent when not specified.
    pub envid: Option<String>,
    /// The DSN return type desired by the sender; absent when not
    /// specified.
    pub ret: Option<DSNRet>,
}

/// Why a DSN parameter list was rejected.
#[derive(Clone, Copy, Debug, PartialEq, Eq, Structural)]
pub enum DsnError {
    /// A named option appeared twice where at most one is allowed.
    DuplicateParameter,
    /// A named option was present but its value was missing, malformed
    /// or over-length.
    InvalidValue,
}

/// The ASCII lower-case code of a character.
pub open spec fn lc_code(c: char) -> u32 {
    if 65 <= c as u32 && c as u32 <= 90 {
        (c as u32 + 32) as u32
    } else {
        c as u32
    }
}

/// Case-insensitive (ASCII) match of `s` against the lower-case
/// pattern `pat`.
pub open spec fn str_is_ci(s: Seq<char>, pat: Seq<char>) -> bool {
    s.len() == pat.len() && forall|k: int| 0 <= k < s.len() ==> lc_code(#[trigger] s[k]) == pat[k]
        as u32
}

/// Compare a string against a lower-case pattern, ignoring ASCII case.
fn str_eq_ci(s: &str, pat: &str) -> (r: bool)
    ensures
        r == str_is_ci(s@, pat@),
{
    let n = vstd::string::StrSliceExecFns::unicode_len(s);
    let m = vstd::string::StrSliceExecFns::unicode_len(pat);
    if n != m {
        return false;
    }
    let mut k: usize = 0;
    while k < n
        invariant
            k <= n,
            n == s@.len(),
            n == pat@.len(),
            forall|j: int| 0 <= j < k ==> lc_code(#[trigger] s@[j]) == pat@[j] as u32,
        decreases n - k,
    {
        let c = vstd::string::StrSliceExecFns::get_char(s, k);
        let p = vstd::string::StrSliceExecFns::get_char(pat, k);
        let code = c as u32;
        let lowered = if 65 <= code && code <= 90 {
            code + 32
        } else {
            code
        };
        if lowered != p as u32 {
            return false;
        }
        k = k + 1;
    }
    true
}

/// The ASCII rendering of text: each character below 128 keeps its
/// code, every other character becomes `?`.
pub open spec fn ascii_repr(s: Seq<char>) -> Seq<u8> {
    s.map(
        |_i: int, c: char|
            if (c as u32) < 128 {
                c as u8
            } else {
                63u8
            },
    )
}

/// Render text as ASCII bytes, with `?` for anything outside ASCII.
fn str_to_ascii(s: &str) -> (r: Vec<u8>)
    ensures
        r@ == ascii_repr(s@),
{
    let n = vstd::string::StrSliceExecFns::unicode_len(s);
    let mut out: Vec<u8> = Vec::new();
    let mut k: usize = 0;
    while k < n
        invariant
            k <= n,
            n == s@.len(),
            out@ == ascii_repr(s@).take(k as int),
        decreases n - k,
    {
        let c = vstd::string::StrSliceExecFns::get_char(s, k);
        if (c as u32) < 128 {
            out.push(c as u8);
        } else {
            out.push(63);
        }
        k = k + 1;
        proof {
            assert(out@ =~= ascii_repr(s@).take(k as int));
        }
    }
    proof {
        assert(ascii_repr(s@).take(n as int) =~= ascii_repr(s@));
    }
    out
}

/// The meaning of one ESMTP parameter list, read left to right:
/// `RET` and `ENVID` options are picked out and validated, everything
/// else is kept, and the first offending option decides the error.
pub open spec fn dsn_spec<'a>(input: Seq<(&'a str, Option<&'a str>)>) -> Result<
    (Option<Seq<char>>, Option<DSNRet>, Seq<(&'a str, Option<&'a str>)>),
    DsnError,
>
    decreases input.len(),
{
    if input.len() == 0 {
        Ok((None, None, Seq::empty()))
    } else {
        match dsn_spec(input.drop_last()) {
            Err(e) => Err(e),
            Ok((envid, ret, rest)) => {
                let (name, value) = input.last();
                if str_is_ci(name@, seq!['r', 'e', 't']) {
                    match value {
                        Some(v) => {
                            if ret is Some {
                                Err(DsnError::DuplicateParameter)
                            } else if str_is_ci(v@, seq!['f', 'u', 'l', 'l']) {
                                Ok((envid, Some(DSNRet::Full), rest))
                            } else if str_is_ci(v@, seq!['h', 'd', 'r', 's']) {
                                Ok((envid, Some(DSNRet::Hdrs), rest))
                            } else {
                                Err(DsnError::InvalidValue)
                            }
                        },
                        None => Err(DsnError::InvalidValue),
                    }
                } else if str_is_ci(name@, seq!['e', 'n', 'v', 'i', 'd']) {
                    match value {
                        Some(v) => {
                            if envid is Some {
                                Err(DsnError::DuplicateParameter)
                            } else {
                                let bytes = ascii_repr(v@);
                                if bytes.len() > 100 {
                                    Err(DsnError::InvalidValue)
                                } else {
                                    match xtext_full(bytes) {
                                        Some(d) => Ok((Some(chars_of(d)), ret, rest)),
                                        None => Err(DsnError::InvalidValue),
                                    }
                                }
                            }
                        },
                        None => Err(DsnError::InvalidValue),
                    }
                } else {
                    Ok((envid, ret, rest.push(input.last())))
                }
            },
        }
    }
}

/// Once a prefix of the parameter list is in error, the whole list is
/// in the same error: later parameters cannot undo it.
proof fn lemma_dsn_err<'a>(input: Seq<(&'a str, Option<&'a str>)>, k: int)
    requires
        0 <= k <= input.len(),
        dsn_spec(input.take(k)) is Err,
    ensures
        dsn_spec(input) == dsn_spec(input.take(k)),
    decreases input.len() - k,
{
    if k == input.len() {
        assert(input.take(k) =~= input);
    } else {
        assert(input.take(k + 1).drop_last() =~= input.take(k));
        lemma_dsn_err(input, k + 1);
    }
}

/// Parse a list of ESMTP parameters from a `MAIL FROM` command into a
/// DSN option block.  `RET` takes `FULL` or `HDRS` and `ENVID` takes a
/// printable xtext value of at most 100 bytes, each at most once; a
/// repeated option is a duplicate-parameter error and a missing or bad
/// value an invalid-value error.  Parameters that are neither are
/// returned unconsumed, in order.
pub fn dsn_mail_params<'a>(input: &[(&'a str, Option<&'a str>)]) -> (r: Result<
    (DSNMailParams, Vec<(&'a str, Option<&'a str>)>),
    DsnError,
>)
    ensures
        r matches Ok((params, rest)) ==> dsn_spec(input@) matches Ok(st) && (match params.envid {
            Some(e) => st.0 == Some(e@),
            None => st.0 is None,
        }) && params.ret == st.1 && rest@ == st.2,
        r matches Err(e) ==> dsn_spec(input@) == Err::<
            (Option<Seq<char>>, Option<DSNRet>, Seq<(&'a str, Option<&'a str>)>),
            DsnError,
        >(e),
{
    let mut out: Vec<(&'a str, Option<&'a str>)> = Vec::new();
    let mut envid_val: Option<String> = None;
    let mut ret_val: Option<DSNRet> = None;
    let mut k: usize = 0;
    proof {
        assert(input@.take(0) =~= Seq::<(&'a str, Option<&'a str>)>::empty());
    }
    while k < input.len()
        invariant
            k <= input@.len(),
            dsn_spec(input@.take(k as int)) matches Ok(st) && (match envid_val {
                Some(e) => st.0 == Some(e@),
                None => st.0 is None,
            }) && ret_val == st.1 && out@ == st.2,
        decreases input@.len() - k,
    {
        proof {
            assert(input@.take(k + 1).drop_last() =~= input@.take(k as int));
            assert(input@.take(k + 1).last() == input@[k as int]);
        }
        let (name, value) = input[k];
        if str_eq_ci(name, "ret") {
            proof {
                reveal_strlit("ret");
                assert("ret"@ =~= seq!['r', 'e', 't']);
            }
            match value {
                Some(v) => {
                    if ret_val.is_some() {
                    proof {
                        assert(dsn_spec(input@.take(k + 1)) is Err);
                        assert(dsn_spec(input@.take(k + 1))->Err_0 == DsnError::DuplicateParameter);
                        lemma_dsn_err(input@, k + 1);
                    }
                        return Err(DsnError::DuplicateParameter);
                    }
                    proof {
                        reveal_strlit("full");
                        reveal_strlit("hdrs");
                        assert("full"@ =~= seq!['f', 'u', 'l', 'l']);
                        assert("hdrs"@ =~= seq!['h', 'd', 'r', 's']);
                    }
                    if str_eq_ci(v, "full") {
                        ret_val = Some(DSNRet::Full);
                    } else if str_eq_ci(v, "hdrs") {
                        ret_val = Some(DSNRet::Hdrs);
                    } else {
                    proof {
                        assert(dsn_spec(input@.take(k + 1)) is Err);
                        assert(dsn_spec(input@.take(k + 1))->Err_0 == DsnError::InvalidValue);
                        lemma_dsn_err(input@, k + 1);
                    }
                        return Err(DsnError::InvalidValue);
                    }
                },
                None => {
                    proof {
                        assert(dsn_spec(input@.take(k + 1)) is Err);
                        assert(dsn_spec(input@.take(k + 1))->Err_0 == DsnError::InvalidValue);
                        lemma_dsn_err(input@, k + 1);
                    }
                    return Err(DsnError::InvalidValue);
                },
            }
        } else {
            proof {
                reveal_strlit("ret");
                assert("ret"@ =~= seq!['r', 'e', 't']);
                reveal_strlit("envid");
                assert("envid"@ =~= seq!['e', 'n', 'v', 'i', 'd']);
            }
            if str_eq_ci(name, "envid") {
                match value {
                    Some(v) => {
                        if envid_val.is_some() {
                            proof {
                                assert(dsn_spec(input@.take(k + 1)) is Err);
                                assert(dsn_spec(input@.take(k + 1))->Err_0 == DsnError::DuplicateParameter);
                                lemma_dsn_err(input@, k + 1);
                            }
                            return Err(DsnError::DuplicateParameter);
                        }
                        let inascii = str_to_ascii(v);
                        if inascii.len() > 100 {
                            proof {
                                assert(dsn_spec(input@.take(k + 1)) is Err);
                                assert(dsn_spec(input@.take(k + 1))->Err_0 == DsnError::InvalidValue);
                                lemma_dsn_err(input@, k + 1);
                            }
                            return Err(DsnError::InvalidValue);
                        }
                        let (end, decoded) = xtext(inascii.as_slice(), 0);
                        if end != inascii.len() {
                            proof {
                                assert(dsn_spec(input@.take(k + 1)) is Err);
                                assert(dsn_spec(input@.take(k + 1))->Err_0 == DsnError::InvalidValue);
                                lemma_dsn_err(input@, k + 1);
                            }
                            return Err(DsnError::InvalidValue);
                        }
                        if !xtext_printable_check(decoded.as_slice()) {
                            proof {
                                assert(dsn_spec(input@.take(k + 1)) is Err);
                                assert(dsn_spec(input@.take(k + 1))->Err_0 == DsnError::InvalidValue);
                                lemma_dsn_err(input@, k + 1);
                            }
                            return Err(DsnError::InvalidValue);
                        }
                        envid_val = Some(bytes_to_text(decoded.as_slice()));
                    },
                    None => {
                            proof {
                                assert(dsn_spec(input@.take(k + 1)) is Err);
                                assert(dsn_spec(input@.take(k + 1))->Err_0 == DsnError::InvalidValue);
                                lemma_dsn_err(input@, k + 1);
                            }
                        return Err(DsnError::InvalidValue);
                    },
                }
            } else {
                out.push((name, value));
            }
        }
        k = k + 1;
    }
    proof {
        assert(input@.take(input@.len() as int) =~= input@);
    }
    Ok((DSNMailParams { envid: envid_val, ret: ret_val }, out))
}

} // verus!

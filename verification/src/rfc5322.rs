//! Parsers for Internet Message Format (RFC 5322) address fields.
//!
//! Comments are recognized and discarded; encoded words are decoded
//! where the grammar allows them.  Every parser takes the input slice
//! and a start position and, on success, returns the position of the
//! first byte it did not consume together with the parsed value.

use vstd::prelude::*;
use vstd::slice::slice_to_vec;
use crate::ParseError;
use crate::strings::{bytes_to_text, chars_of};

verus! {

/// How many levels of comment nesting are accepted before a parse is
/// rejected outright, so that crafted input cannot exhaust the stack.
pub const MAX_COMMENT_DEPTH: u32 = 100;

/// Space or horizontal tab.
pub open spec fn is_wsp(c: u8) -> bool {
    c == 32 || c == 9
}

/// A visible (printing) US-ASCII character.
pub open spec fn is_vchar(c: u8) -> bool {
    33 <= c && c <= 126
}

/// A character allowed in plain comment text: printable US-ASCII
/// except `(`, `)` and `\`.
pub open spec fn is_ctext(c: u8) -> bool {
    (33 <= c && c <= 39) || (42 <= c && c <= 91) || (93 <= c && c <= 126)
}

/// A character allowed unescaped inside a quoted string: printable
/// US-ASCII except `"` and `\`.
pub open spec fn is_qtext(c: u8) -> bool {
    c == 33 || (35 <= c && c <= 91) || (93 <= c && c <= 126)
}

/// A character of an atom: letters, digits and the RFC 5322 atext
/// specials.
pub open spec fn is_atext(c: u8) -> bool {
    (48 <= c && c <= 57) || (65 <= c && c <= 90) || (97 <= c && c <= 122) || c == 33 || (35 <= c
        && c <= 39) || c == 42 || c == 43 || c == 45 || c == 47 || c == 61 || c == 63 || (94 <= c
        && c <= 96) || (123 <= c && c <= 126)
}

/// A character allowed inside a domain literal: printable US-ASCII
/// except `[`, `]` and `\`.
pub open spec fn is_dtext(c: u8) -> bool {
    (33 <= c && c <= 90) || (94 <= c && c <= 126)
}

fn wsp_char(c: u8) -> (r: bool)
    ensures
        r == is_wsp(c),
{
    c == 32 || c == 9
}

fn vchar_char(c: u8) -> (r: bool)
    ensures
        r == is_vchar(c),
{
    33 <= c && c <= 126
}

fn ctext_char(c: u8) -> (r: bool)
    ensures
        r == is_ctext(c),
{
    (33 <= c && c <= 39) || (42 <= c && c <= 91) || (93 <= c && c <= 126)
}

fn qtext_char(c: u8) -> (r: bool)
    ensures
        r == is_qtext(c),
{
    c == 33 || (35 <= c && c <= 91) || (93 <= c && c <= 126)
}

fn atext_char(c: u8) -> (r: bool)
    ensures
        r == is_atext(c),
{
    (48 <= c && c <= 57) || (65 <= c && c <= 90) || (97 <= c && c <= 122) || c == 33 || (35 <= c
        && c <= 39) || c == 42 || c == 43 || c == 45 || c == 47 || c == 61 || c == 63 || (94 <= c
        && c <= 96) || (123 <= c && c <= 126)
}

fn dtext_char(c: u8) -> (r: bool)
    ensures
        r == is_dtext(c),
{
    (33 <= c && c <= 90) || (94 <= c && c <= 126)
}

/// First position at or after `i` whose byte is not white space.
pub open spec fn wsp_end(s: Seq<u8>, i: int) -> int
    decreases s.len() - i,
{
    if i < 0 || i >= s.len() || !is_wsp(s[i]) {
        i
    } else {
        wsp_end(s, i + 1)
    }
}

/// First position at or after `i` whose byte is not atom text.
pub open spec fn atext_end(s: Seq<u8>, i: int) -> int
    decreases s.len() - i,
{
    if i < 0 || i >= s.len() || !is_atext(s[i]) {
        i
    } else {
        atext_end(s, i + 1)
    }
}

fn scan_wsp(s: &[u8], i: usize) -> (j: usize)
    requires
        i <= s@.len(),
    ensures
        i <= j <= s@.len(),
        forall|k: int| i <= k < j ==> is_wsp(s@[k]),
        j < s@.len() ==> !is_wsp(s@[j as int]),
        j == wsp_end(s@, i as int),
{
    let mut j = i;
    while j < s.len() && wsp_char(s[j])
        invariant
            i <= j <= s@.len(),
            forall|k: int| i <= k < j ==> is_wsp(s@[k]),
            wsp_end(s@, i as int) == wsp_end(s@, j as int),
        decreases s@.len() - j,
    {
        j = j + 1;
    }
    j
}

/// First position at or after `i` whose byte is not comment text.
fn scan_ctext(s: &[u8], i: usize) -> (j: usize)
    requires
        i <= s@.len(),
    ensures
        i <= j <= s@.len(),
        forall|k: int| i <= k < j ==> is_ctext(s@[k]),
        j < s@.len() ==> !is_ctext(s@[j as int]),
{
    let mut j = i;
    while j < s.len() && ctext_char(s[j])
        invariant
            i <= j <= s@.len(),
            forall|k: int| i <= k < j ==> is_ctext(s@[k]),
        decreases s@.len() - j,
    {
        j = j + 1;
    }
    j
}

/// First position at or after `i` whose byte is not quoted-string text.
fn scan_qtext(s: &[u8], i: usize) -> (j: usize)
    requires
        i <= s@.len(),
    ensures
        i <= j <= s@.len(),
        forall|k: int| i <= k < j ==> is_qtext(s@[k]),
        j < s@.len() ==> !is_qtext(s@[j as int]),
{
    let mut j = i;
    while j < s.len() && qtext_char(s[j])
        invariant
            i <= j <= s@.len(),
            forall|k: int| i <= k < j ==> is_qtext(s@[k]),
        decreases s@.len() - j,
    {
        j = j + 1;
    }
    j
}

/// First position at or after `i` whose byte is not atom text.
fn scan_atext(s: &[u8], i: usize) -> (j: usize)
    requires
        i <= s@.len(),
    ensures
        i <= j <= s@.len(),
        forall|k: int| i <= k < j ==> is_atext(s@[k]),
        j < s@.len() ==> !is_atext(s@[j as int]),
        j == atext_end(s@, i as int),
{
    let mut j = i;
    while j < s.len() && atext_char(s[j])
        invariant
            i <= j <= s@.len(),
            forall|k: int| i <= k < j ==> is_atext(s@[k]),
            atext_end(s@, i as int) == atext_end(s@, j as int),
        decreases s@.len() - j,
    {
        j = j + 1;
    }
    j
}

/// First position at or after `i` whose byte is not domain-literal text.
fn scan_dtext(s: &[u8], i: usize) -> (j: usize)
    requires
        i <= s@.len(),
    ensures
        i <= j <= s@.len(),
        forall|k: int| i <= k < j ==> is_dtext(s@[k]),
        j < s@.len() ==> !is_dtext(s@[j as int]),
{
    let mut j = i;
    while j < s.len() && dtext_char(s[j])
        invariant
            i <= j <= s@.len(),
            forall|k: int| i <= k < j ==> is_dtext(s@[k]),
        decreases s@.len() - j,
    {
        j = j + 1;
    }
    j
}

/// What folding white space at `i` comes to: the position after it and
/// the white-space characters around the discarded fold, or nothing
/// when none stands there.
pub open spec fn fws_spec(s: Seq<u8>, i: int) -> Option<(int, Seq<u8>)> {
    let j1 = wsp_end(s, i);
    if j1 + 2 <= s.len() && s[j1] == 13 && s[j1 + 1] == 10 {
        let j3 = wsp_end(s, j1 + 2);
        if j3 == j1 + 2 {
            None
        } else {
            Some((j3, s.subrange(i, j1) + s.subrange(j1 + 2, j3)))
        }
    } else if j1 == i {
        None
    } else {
        Some((j1, s.subrange(i, j1)))
    }
}

/// What optional folding white space at `i` comes to; total.
pub open spec fn ofws_spec(s: Seq<u8>, i: int) -> (int, Seq<u8>) {
    match fws_spec(s, i) {
        Some(x) => x,
        None => (i, Seq::empty()),
    }
}

/// The position after optional folding white space at `i`.
pub open spec fn ofws_end(s: Seq<u8>, i: int) -> int {
    ofws_spec(s, i).0
}

/// Folding white space: an optional white-space run ending in a line
/// fold, then at least one white-space character.  The fold itself is
/// semantically invisible; only the white-space characters around it
/// are returned.
pub fn fws(s: &[u8], i: usize) -> (r: Result<(usize, Vec<u8>), ParseError>)
    requires
        i <= s@.len(),
    ensures
        r matches Ok((j, v)) ==> i < j <= s@.len() && v@.len() >= 1 && (forall|k: int|
            0 <= k < v@.len() ==> is_wsp(v@[k])),
        r matches Ok((j, v)) ==> fws_spec(s@, i as int) == Some((j as int, v@)),
        r is Err ==> fws_spec(s@, i as int) is None,
{
    let j1 = scan_wsp(s, i);
    if j1 < s.len() && j1 + 1 < s.len() && s[j1] == 13 && s[j1 + 1] == 10 {
        let j2 = j1 + 2;
        let j3 = scan_wsp(s, j2);
        if j3 == j2 {
            return Err(ParseError::Malformed);
        }
        let mut v = slice_to_vec(&s[i..j1]);
        let mut tail = slice_to_vec(&s[j2..j3]);
        v.append(&mut tail);
        proof {
            assert(forall|k: int| 0 <= k < v@.len() ==> is_wsp(v@[k]));
            assert(v@ =~= s@.subrange(i as int, j1 as int) + s@.subrange(j2 as int, j3 as int));
        }
        Ok((j3, v))
    } else {
        if j1 == i {
            return Err(ParseError::Malformed);
        }
        let v = slice_to_vec(&s[i..j1]);
        Ok((j1, v))
    }
}

/// Folding white space or nothing; never fails.
pub fn ofws(s: &[u8], i: usize) -> (r: (usize, Vec<u8>))
    requires
        i <= s@.len(),
    ensures
        i <= r.0 <= s@.len(),
        forall|k: int| 0 <= k < r.1@.len() ==> is_wsp(r.1@[k]),
        (r.0 as int, r.1@) == ofws_spec(s@, i as int),
{
    match fws(s, i) {
        Ok((j, v)) => (j, v),
        Err(_) => (i, Vec::new()),
    }
}

/// A backslash-escaped character pair.  Returns the escaped character.
pub fn quoted_pair(s: &[u8], i: usize) -> (r: Result<(usize, u8), ParseError>)
    requires
        i <= s@.len(),
    ensures
        r matches Ok((j, c)) ==> j == i + 2 && i + 2 <= s@.len() && s@[i as int] == 92 && c == s@[i
            + 1] && (is_vchar(c) || is_wsp(c)),
        r is Ok <==> i + 2 <= s@.len() && s@[i as int] == 92 && (is_vchar(s@[i + 1]) || is_wsp(
            s@[i + 1],
        )),
{
    if i < s.len() && s[i] == 92 && i + 1 < s.len() {
        let c = s[i + 1];
        if vchar_char(c) || wsp_char(c) {
            return Ok((i + 2, c));
        }
    }
    Err(ParseError::Malformed)
}

/// One node of a comment's content: a literal text run, or a nested
/// comment with its own content nodes.
#[derive(Debug)]
pub enum CommentContent {
    /// A run of plain comment text.
    Text(Vec<u8>),
    /// A nested comment.
    Comment(Vec<CommentContent>),
}

/// The one-level model of a comment node: the text run as a byte
/// sequence, or the nested comment left as it stands.
#[verifier::ext_equal]
pub enum CNode {
    /// The bytes of a text run.
    Text(Seq<u8>),
    /// A nested comment, unchanged.
    Sub(Vec<CommentContent>),
}

/// The one-level model of a comment node.
pub open spec fn shallow(c: CommentContent) -> CNode {
    match c {
        CommentContent::Text(v) => CNode::Text(v@),
        CommentContent::Comment(cs) => CNode::Sub(cs),
    }
}

/// The one-level model of a sequence of comment nodes.
pub open spec fn shallow_seq(s: Seq<CommentContent>) -> Seq<CNode> {
    s.map(|_i: int, c: CommentContent| shallow(c))
}

/// Coalescing of comment content: empty text runs vanish and adjacent
/// text runs fuse, left to right; nested comments pass through.
pub open spec fn coalesce(s: Seq<CNode>) -> Seq<CNode>
    decreases s.len(),
{
    if s.len() == 0 {
        Seq::empty()
    } else {
        let rest = coalesce(s.drop_last());
        match s.last() {
            CNode::Sub(v) => rest.push(CNode::Sub(v)),
            CNode::Text(t) => {
                if t.len() == 0 {
                    rest
                } else if rest.len() > 0 && rest.last() is Text {
                    rest.drop_last().push(CNode::Text(rest.last()->Text_0 + t))
                } else {
                    rest.push(CNode::Text(t))
                }
            },
        }
    }
}

/// A coalesced sequence holds no empty text run and no two adjacent
/// text runs.
pub open spec fn is_coalesced(s: Seq<CNode>) -> bool {
    (forall|k: int| 0 <= k < s.len() ==> (#[trigger] s[k] is Text ==> s[k]->Text_0.len() > 0))
        && (forall|k: int| 0 <= k && k + 1 < s.len() ==> !(#[trigger] s[k] is Text && s[k + 1] is Text))
}

/// Coalescing always yields a coalesced sequence, so downstream code
/// never sees run-length-fragmented text.
pub proof fn lemma_coalesce_is_coalesced(s: Seq<CNode>)
    ensures
        is_coalesced(coalesce(s)),
    decreases s.len(),
{
    if s.len() == 0 {
    } else {
        lemma_coalesce_is_coalesced(s.drop_last());
    }
}

/// Coalesce a comment's content nodes: drop empty text runs and fuse
/// each run of adjacent text nodes into one node.
pub fn concat_comment(input: Vec<CommentContent>) -> (out: Vec<CommentContent>)
    ensures
        shallow_seq(out@) == coalesce(shallow_seq(input@)),
{
    let ghost orig: Seq<CommentContent> = input@;
    let mut input = input;
    let mut rev: Vec<CommentContent> = Vec::new();
    while input.len() > 0
        invariant
            input@ == orig.take(input@.len() as int),
            input@.len() + rev@.len() == orig.len(),
            forall|k: int| 0 <= k < rev@.len() ==> rev@[k] == orig[orig.len() - 1 - k],
        decreases input@.len(),
    {
        proof {
            assert(input@.last() == orig[input@.len() - 1]);
        }
        match input.pop() {
            Some(x) => {
                rev.push(x);
            },
            None => {
            },
        }
    }
    let mut out: Vec<CommentContent> = Vec::new();
    while rev.len() > 0
        invariant
            rev@.len() <= orig.len(),
            forall|k: int| 0 <= k < rev@.len() ==> rev@[k] == orig[orig.len() - 1 - k],
            shallow_seq(out@) == coalesce(
                shallow_seq(orig.take(orig.len() - rev@.len())),
            ),
        decreases rev@.len(),
    {
        let ghost n = orig.len() - rev@.len();
        proof {
            assert(rev@.last() == orig[n]);
            assert(orig.take(n + 1).drop_last() =~= orig.take(n as int));
            assert(shallow_seq(orig.take(n + 1)).drop_last() =~= shallow_seq(
                orig.take(n as int),
            ));
            assert(shallow_seq(orig.take(n + 1)).last() == shallow(orig[n]));
        }
        let node = match rev.pop() {
            Some(x) => x,
            None => {
                return out;
            },
        };
        match node {
            CommentContent::Text(t) => {
                if t.len() == 0 {
                    proof {
                        assert(shallow_seq(out@) =~= coalesce(shallow_seq(orig.take(n + 1))));
                    }
                } else {
                    let mut last_is_text = false;
                    if out.len() > 0 {
                        last_is_text = match &out[out.len() - 1] {
                            CommentContent::Text(_) => true,
                            CommentContent::Comment(_) => false,
                        };
                    }
                    if last_is_text {
                        proof {
                            assert(shallow_seq(out@).last() == shallow(out@.last()));
                        }
                        let mut t = t;
                        match out.pop() {
                            Some(CommentContent::Text(mut pt)) => {
                                pt.append(&mut t);
                                out.push(CommentContent::Text(pt));
                            },
                            Some(other) => {
                                out.push(other);
                            },
                            None => {
                            },
                        }
                        proof {
                            assert(shallow_seq(out@) =~~= coalesce(
                                shallow_seq(orig.take(n + 1)),
                            ));
                        }
                    } else {
                        out.push(CommentContent::Text(t));
                        proof {
                            assert(shallow_seq(out@) =~~= coalesce(
                                shallow_seq(orig.take(n + 1)),
                            ));
                        }
                    }
                }
            },
            CommentContent::Comment(cs) => {
                out.push(CommentContent::Comment(cs));
                proof {
                    assert(shallow_seq(out@) =~~= coalesce(shallow_seq(orig.take(n + 1))));
                }
            },
        }
    }
    proof {
        assert(orig.take(orig.len() as int) =~= orig);
    }
    out
}

/// A parenthesized comment, possibly nested.  Returns its coalesced
/// content nodes; the caller normally discards them.  Nesting deeper
/// than `depth` levels is rejected with a distinct error instead of
/// recursing without bound.
pub fn comment(s: &[u8], i: usize, depth: u32) -> (r: Result<
    (usize, Vec<CommentContent>),
    ParseError,
>)
    requires
        i <= s@.len(),
    ensures
        r matches Ok((j, v)) ==> i < j <= s@.len() && s@[i as int] == 40 && s@[j - 1] == 41
            && is_coalesced(shallow_seq(v@)),
        depth >= 1 && (i == s@.len() || s@[i as int] != 40) ==> r == Err::<
            (usize, Vec<CommentContent>),
            ParseError,
        >(ParseError::Malformed),
    decreases depth,
{
    if depth == 0 {
        return Err(ParseError::TooDeep);
    }
    if !(i < s.len() && s[i] == 40) {
        return Err(ParseError::Malformed);
    }
    let mut parts: Vec<CommentContent> = Vec::new();
    let mut pos: usize = i + 1;
    loop
        invariant
            i + 1 <= pos <= s@.len(),
            s@[i as int] == 40,
            i < s@.len(),
            depth >= 1,
        decreases s@.len() - pos,
    {
        let save = pos;
        let (p1, ws) = ofws(s, pos);
        let mut advanced = false;
        if p1 < s.len() && ctext_char(s[p1]) {
            let j = scan_ctext(s, p1);
            parts.push(CommentContent::Text(ws));
            parts.push(CommentContent::Text(slice_to_vec(&s[p1..j])));
            pos = j;
            advanced = true;
        } else {
            match quoted_pair(s, p1) {
                Ok((j, c)) => {
                    let mut one: Vec<u8> = Vec::new();
                    one.push(c);
                    parts.push(CommentContent::Text(ws));
                    parts.push(CommentContent::Text(one));
                    pos = j;
                    advanced = true;
                },
                Err(_) => {
                    if p1 < s.len() && s[p1] == 40 {
                        match comment(s, p1, depth - 1) {
                            Ok((j, sub)) => {
                                parts.push(CommentContent::Text(ws));
                                parts.push(CommentContent::Comment(sub));
                                pos = j;
                                advanced = true;
                            },
                            Err(ParseError::TooDeep) => {
                                return Err(ParseError::TooDeep);
                            },
                            Err(ParseError::Malformed) => {
                            },
                        }
                    }
                },
            }
        }
        if !advanced {
            pos = save;
            break ;
        }
    }
    let (p2, ws2) = ofws(s, pos);
    parts.push(CommentContent::Text(ws2));
    if p2 < s.len() && s[p2] == 41 {
        let out = concat_comment(parts);
        proof {
            lemma_coalesce_is_coalesced(shallow_seq(parts@));
        }
        Ok((p2 + 1, out))
    } else {
        Err(ParseError::Malformed)
    }
}

/// No comment/white-space run can start at `i`: no folding white
/// space opens there, and the next byte is not `(`.
pub open spec fn cfws_blocked(s: Seq<u8>, i: int) -> bool {
    fws_spec(s, i) is None && (i == s.len() || s[i] != 40)
}

/// A run of comments and folding white space, consumed and discarded.
/// Returns the position after the run, which is past at least one
/// byte.
pub fn cfws(s: &[u8], i: usize) -> (r: Result<usize, ParseError>)
    requires
        i <= s@.len(),
    ensures
        r matches Ok(j) ==> i < j <= s@.len(),
        cfws_blocked(s@, i as int) ==> r == Err::<usize, ParseError>(ParseError::Malformed),
{
    let mut pos: usize = i;
    let mut count: u64 = 0;
    loop
        invariant
            i <= pos <= s@.len(),
            count > 0 ==> pos > i,
            cfws_blocked(s@, i as int) ==> (pos == i && count == 0),
        decreases s@.len() - pos,
    {
        let save = pos;
        let (p1, _ws) = ofws(s, pos);
        match comment(s, p1, MAX_COMMENT_DEPTH) {
            Ok((j, _c)) => {
                pos = j;
                if count < u64::MAX {
                    count = count + 1;
                }
            },
            Err(ParseError::TooDeep) => {
                return Err(ParseError::TooDeep);
            },
            Err(ParseError::Malformed) => {
                pos = save;
                break ;
            },
        }
    }
    if count > 0 {
        let (p2, _ws) = ofws(s, pos);
        Ok(p2)
    } else {
        match fws(s, i) {
            Ok((j, _v)) => Ok(j),
            Err(_) => Err(ParseError::Malformed),
        }
    }
}

/// One content unit of a quoted string.
#[derive(Debug)]
pub enum QContent {
    /// Literal text: a quoted-text run, an escaped pair or retained
    /// interior white space.
    Literal(String),
    /// The decoded text of an embedded encoded word, recognized only
    /// when the relaxed quoted-string grammar is chosen.
    EncodedWord(String),
}

/// One word of a display name.
#[derive(Debug)]
pub enum Word {
    /// The decoded text of an encoded word.
    EncodedWord(String),
    /// An atom.
    Atom(String),
    /// A quoted string, as its content units.
    QS(Vec<QContent>),
}

/// One flattened text fragment, tagged with where it came from.  The
/// tags of two adjacent fragments decide whether a space separates
/// them when they are merged.
#[derive(Debug)]
pub enum Text {
    /// From an encoded word.
    EncodedWord(String),
    /// Literal text out of a quoted string.
    Literal(String),
    /// An atom.
    Atom(String),
}

/// The characters a fragment carries.
pub open spec fn text_chars(t: Text) -> Seq<char> {
    match t {
        Text::EncodedWord(s) => s@,
        Text::Literal(s) => s@,
        Text::Atom(s) => s@,
    }
}

/// The fragment a quoted-string content unit turns into.
pub open spec fn qcontent_text(q: QContent) -> Text {
    match q {
        QContent::Literal(s) => Text::Literal(s),
        QContent::EncodedWord(s) => Text::EncodedWord(s),
    }
}

/// The fragments a word turns into.
pub open spec fn word_texts(w: Word) -> Seq<Text> {
    match w {
        Word::EncodedWord(s) => seq![Text::EncodedWord(s)],
        Word::Atom(s) => seq![Text::Atom(s)],
        Word::QS(q) => q@.map(|_i: int, c: QContent| qcontent_text(c)),
    }
}

/// All the fragments of a word sequence, in order.
pub open spec fn flatten_words(s: Seq<Word>) -> Seq<Text>
    decreases s.len(),
{
    if s.len() == 0 {
        Seq::empty()
    } else {
        word_texts(s[0]) + flatten_words(s.drop_first())
    }
}

/// Whether two adjacent fragments join without a separating space:
/// two literal runs were already adjacent in the source, and two
/// encoded words join directly by the RFC 2047 rule.
pub open spec fn joins_close(a: Text, b: Text) -> bool {
    (a is Literal && b is Literal) || (a is EncodedWord && b is EncodedWord)
}

/// The merged text of the fragments from position `i` on: each
/// fragment's text, with a single space after it unless the next
/// fragment joins closely or there is no next fragment.
pub open spec fn merged_from(s: Seq<Text>, i: int) -> Seq<char>
    decreases s.len() - i,
{
    if i < 0 || i >= s.len() {
        Seq::empty()
    } else if i == s.len() - 1 {
        text_chars(s[i])
    } else {
        text_chars(s[i]) + (if joins_close(s[i], s[i + 1]) {
            Seq::<char>::empty()
        } else {
            seq![' ']
        }) + merged_from(s, i + 1)
    }
}

/// The merged text of a fragment sequence.
pub open spec fn merged_text(s: Seq<Text>) -> Seq<char> {
    merged_from(s, 0)
}

impl QContent {
    /// The text this unit carries.
    pub fn get(&self) -> (r: &str)
        ensures
            r@ == text_chars(qcontent_text(*self)),
    {
        match self {
            QContent::Literal(s) => s.as_str(),
            QContent::EncodedWord(s) => s.as_str(),
        }
    }

    /// This unit as a tagged fragment.
    pub fn to_text(&self) -> (r: Text)
        ensures
            r == qcontent_text(*self),
    {
        match self {
            QContent::Literal(s) => Text::Literal(s.clone()),
            QContent::EncodedWord(s) => Text::EncodedWord(s.clone()),
        }
    }
}

impl Text {
    /// The text this fragment carries.
    pub fn get(&self) -> (r: &str)
        ensures
            r@ == text_chars(*self),
    {
        match self {
            Text::EncodedWord(s) => s.as_str(),
            Text::Literal(s) => s.as_str(),
            Text::Atom(s) => s.as_str(),
        }
    }
}

impl Word {
    /// The tagged fragments this word contributes.
    pub fn to_text_vec(&self) -> (r: Vec<Text>)
        ensures
            r@ == word_texts(*self),
    {
        match self {
            Word::Atom(a) => {
                let mut v: Vec<Text> = Vec::new();
                v.push(Text::Atom(a.clone()));
                proof {
                    assert(v@ =~= word_texts(*self));
                }
                v
            },
            Word::EncodedWord(e) => {
                let mut v: Vec<Text> = Vec::new();
                v.push(Text::EncodedWord(e.clone()));
                proof {
                    assert(v@ =~= word_texts(*self));
                }
                v
            },
            Word::QS(q) => {
                let mut v: Vec<Text> = Vec::new();
                let mut i: usize = 0;
                while i < q.len()
                    invariant
                        i <= q@.len(),
                        v@ == q@.take(i as int).map(|_i: int, c: QContent| qcontent_text(c)),
                    decreases q@.len() - i,
                {
                    v.push(q[i].to_text());
                    i = i + 1;
                    proof {
                        assert(v@ =~= q@.take(i as int).map(
                            |_i: int, c: QContent| qcontent_text(c),
                        ));
                    }
                }
                proof {
                    assert(q@.take(q@.len() as int) =~= q@);
                }
                v
            },
        }
    }
}

/// Merge a flat fragment sequence into one string by the adjacency
/// rule of `merged_from`.
pub fn merge_texts(flat: &Vec<Text>) -> (r: String)
    ensures
        r@ == merged_text(flat@),
{
    let mut out = String::new();
    let mut i: usize = 0;
    proof {
        assert(out@ + merged_from(flat@, 0) =~= merged_from(flat@, 0));
    }
    while i < flat.len()
        invariant
            i <= flat@.len(),
            out@ + merged_from(flat@, i as int) == merged_text(flat@),
        decreases flat@.len() - i,
    {
        vstd::string::StringExecFns::append(&mut out, flat[i].get());
        if i + 1 < flat.len() {
            let close = match (&flat[i], &flat[i + 1]) {
                (Text::Literal(_), Text::Literal(_)) => true,
                (Text::EncodedWord(_), Text::EncodedWord(_)) => true,
                _ => false,
            };
            if !close {
                crate::strings::string_push(&mut out, ' ');
            }
            proof {
                assert(out@ + merged_from(flat@, i + 1) =~= merged_text(flat@));
            }
        } else {
            proof {
                assert(out@ + merged_from(flat@, i + 1) =~= merged_text(flat@));
            }
        }
        i = i + 1;
    }
    proof {
        assert(out@ =~= merged_text(flat@));
    }
    out
}

/// Merge the content units of a quoted string into its display text.
pub fn concat_qcontent(input: &Vec<QContent>) -> (r: String)
    ensures
        r@ == merged_text(input@.map(|_i: int, c: QContent| qcontent_text(c))),
{
    let mut flat: Vec<Text> = Vec::new();
    let mut i: usize = 0;
    while i < input.len()
        invariant
            i <= input@.len(),
            flat@ == input@.take(i as int).map(|_i: int, c: QContent| qcontent_text(c)),
        decreases input@.len() - i,
    {
        flat.push(input[i].to_text());
        i = i + 1;
        proof {
            assert(flat@ =~= input@.take(i as int).map(|_i: int, c: QContent| qcontent_text(c)));
        }
    }
    proof {
        assert(input@.take(input@.len() as int) =~= input@);
    }
    merge_texts(&flat)
}

/// Merge a display name's words into its display text.
pub fn concat_atom_and_qs(input: &Vec<Word>) -> (r: String)
    ensures
        r@ == merged_text(flatten_words(input@)),
{
    let mut flat: Vec<Text> = Vec::new();
    let mut i: usize = 0;
    while i < input.len()
        invariant
            i <= input@.len(),
            flat@ == flatten_words(input@.take(i as int)),
        decreases input@.len() - i,
    {
        let mut part = input[i].to_text_vec();
        flat.append(&mut part);
        i = i + 1;
        proof {
            lemma_flatten_words_take(input@, i as int);
        }
    }
    proof {
        assert(input@.take(input@.len() as int) =~= input@);
    }
    merge_texts(&flat)
}

/// The word-merge tie-break, stated for any two adjacent fragments:
/// two encoded words join with no separator and the white space
/// between them is gone; two literal runs join with no separator; any
/// other adjacency keeps exactly one space.
pub proof fn lemma_word_merge_tie_break(a: String, b: String)
    ensures
        merged_text(seq![Text::EncodedWord(a), Text::EncodedWord(b)]) == a@ + b@,
        merged_text(seq![Text::Literal(a), Text::Literal(b)]) == a@ + b@,
        merged_text(seq![Text::Atom(a), Text::EncodedWord(b)]) == a@ + seq![' '] + b@,
        merged_text(seq![Text::EncodedWord(a), Text::Atom(b)]) == a@ + seq![' '] + b@,
        merged_text(seq![Text::Literal(a), Text::EncodedWord(b)]) == a@ + seq![' '] + b@,
        merged_text(seq![Text::Atom(a), Text::Atom(b)]) == a@ + seq![' '] + b@,
{
    let ew = seq![Text::EncodedWord(a), Text::EncodedWord(b)];
    assert(merged_from(ew, 1) == b@);
    assert(merged_text(ew) =~= a@ + b@);
    let ll = seq![Text::Literal(a), Text::Literal(b)];
    assert(merged_from(ll, 1) == b@);
    assert(merged_text(ll) =~= a@ + b@);
    let ae = seq![Text::Atom(a), Text::EncodedWord(b)];
    assert(merged_from(ae, 1) == b@);
    assert(merged_text(ae) =~= a@ + seq![' '] + b@);
    let ea = seq![Text::EncodedWord(a), Text::Atom(b)];
    assert(merged_from(ea, 1) == b@);
    assert(merged_text(ea) =~= a@ + seq![' '] + b@);
    let le = seq![Text::Literal(a), Text::EncodedWord(b)];
    assert(merged_from(le, 1) == b@);
    assert(merged_text(le) =~= a@ + seq![' '] + b@);
    let aa = seq![Text::Atom(a), Text::Atom(b)];
    assert(merged_from(aa, 1) == b@);
    assert(merged_text(aa) =~= a@ + seq![' '] + b@);
}

/// Flattening a one-longer prefix appends the last word's fragments.
proof fn lemma_flatten_words_take(s: Seq<Word>, i: int)
    requires
        0 < i <= s.len(),
    ensures
        flatten_words(s.take(i)) == flatten_words(s.take(i - 1)) + word_texts(s[i - 1]),
    decreases i,
{
    if i == 1 {
        assert(s.take(1).drop_first() =~= s.take(0));
        assert(flatten_words(s.take(1)) =~= word_texts(s[0]) + flatten_words(s.take(0)));
        assert(flatten_words(s.take(0)) =~= Seq::<Text>::empty());
        assert(flatten_words(s.take(1)) =~= flatten_words(s.take(0)) + word_texts(s[0]));
    } else {
        lemma_flatten_words_take(s.drop_first(), i - 1);
        assert(s.take(i).drop_first() =~= s.drop_first().take(i - 1));
        assert(s.take(i - 1).drop_first() =~= s.drop_first().take(i - 2));
        assert(flatten_words(s.take(i)) == word_texts(s[0]) + flatten_words(
            s.drop_first().take(i - 1),
        ));
        assert(flatten_words(s.take(i - 1)) == word_texts(s[0]) + flatten_words(
            s.drop_first().take(i - 2),
        ));
        assert(s.drop_first()[i - 2] == s[i - 1]);
        assert(flatten_words(s.take(i)) =~= flatten_words(s.take(i - 1)) + word_texts(s[i - 1]));
    }
}

/// Optional `cfws`: skips a comment/white-space run when one is there.
/// Only the depth error is passed on; absence of the run is not a
/// failure.
pub fn opt_cfws(s: &[u8], i: usize) -> (r: Result<usize, ParseError>)
    requires
        i <= s@.len(),
    ensures
        r matches Ok(j) ==> i <= j <= s@.len(),
        r matches Err(e) ==> e == ParseError::TooDeep,
        cfws_blocked(s@, i as int) ==> r == Ok::<usize, ParseError>(i),
{
    match cfws(s, i) {
        Ok(j) => Ok(j),
        Err(ParseError::TooDeep) => Err(ParseError::TooDeep),
        Err(ParseError::Malformed) => Ok(i),
    }
}

/// A quoted string, as its content units in source order.  Interior
/// folding white space is retained as literal text; comments around
/// the quotes are discarded.  When `ew_in_qs` is chosen, embedded
/// encoded words are recognized and decoded; under the strict grammar
/// they stay literal text.
pub fn quoted_string(s: &[u8], i: usize, ew_in_qs: bool) -> (r: Result<
    (usize, Vec<QContent>),
    ParseError,
>)
    requires
        i <= s@.len(),
    ensures
        r matches Ok((j, v)) ==> i < j <= s@.len() && (!ew_in_qs ==> forall|k: int|
            0 <= k < v@.len() ==> #[trigger] v@[k] is Literal),
        cfws_blocked(s@, i as int) && (i == s@.len() || s@[i as int] != 34) ==> r == Err::<
            (usize, Vec<QContent>),
            ParseError,
        >(ParseError::Malformed),
{
    let start = match opt_cfws(s, i) {
        Ok(j) => j,
        Err(e) => {
            return Err(e);
        },
    };
    if !(start < s.len() && s[start] == 34) {
        return Err(ParseError::Malformed);
    }
    let mut units: Vec<QContent> = Vec::new();
    let mut pos: usize = start + 1;
    loop
        invariant
            start + 1 <= pos <= s@.len(),
            start < s@.len(),
            !ew_in_qs ==> forall|k: int| 0 <= k < units@.len() ==> #[trigger] units@[k] is Literal,
        decreases s@.len() - pos,
    {
        let save = pos;
        let (p1, ws) = ofws(s, pos);
        let mut advanced = false;
        let mut ew: Option<String> = None;
        if ew_in_qs {
            match crate::rfc2047::encoded_word(s, p1) {
                Ok((j, v)) => {
                    ew = Some(v);
                    pos = j;
                },
                Err(_) => {
                },
            }
        }
        match ew {
            Some(v) => {
                if ws.len() > 0 {
                    units.push(QContent::Literal(bytes_to_text(ws.as_slice())));
                }
                units.push(QContent::EncodedWord(v));
                advanced = true;
            },
            None => {
                if p1 < s.len() && qtext_char(s[p1]) {
                    let j = scan_qtext(s, p1);
                    if ws.len() > 0 {
                        units.push(QContent::Literal(bytes_to_text(ws.as_slice())));
                    }
                    units.push(QContent::Literal(bytes_to_text(&s[p1..j])));
                    pos = j;
                    advanced = true;
                } else {
                    match quoted_pair(s, p1) {
                        Ok((j, c)) => {
                            let mut one: Vec<u8> = Vec::new();
                            one.push(c);
                            if ws.len() > 0 {
                                units.push(QContent::Literal(bytes_to_text(ws.as_slice())));
                            }
                            units.push(QContent::Literal(bytes_to_text(one.as_slice())));
                            pos = j;
                            advanced = true;
                        },
                        Err(_) => {
                        },
                    }
                }
            },
        }
        if !advanced {
            pos = save;
            break ;
        }
    }
    let (p2, ws2) = ofws(s, pos);
    if ws2.len() > 0 {
        units.push(QContent::Literal(bytes_to_text(ws2.as_slice())));
    }
    if !(p2 < s.len() && s[p2] == 34) {
        return Err(ParseError::Malformed);
    }
    let after = match opt_cfws(s, p2 + 1) {
        Ok(j) => j,
        Err(e) => {
            return Err(e);
        },
    };
    Ok((after, units))
}

/// Extend a run end `e` across `.`-joined atom-text runs: while a dot
/// followed by atom text stands at `e`, jump past the next run.
pub open spec fn dot_ext(s: Seq<u8>, e: int) -> int
    decreases s.len() - e,
{
    if 0 <= e && e + 1 < s.len() && s[e] == 46 && is_atext(s[e + 1]) && e + 1 < atext_end(
        s,
        e + 1,
    ) <= s.len() {
        dot_ext(s, atext_end(s, e + 1))
    } else {
        e
    }
}

/// Where the dot-atom run starting at `i` ends: maximal atom-text
/// runs joined by single dots, each dot followed by more atom text.
pub open spec fn dot_run_end(s: Seq<u8>, i: int) -> int {
    dot_ext(s, atext_end(s, i))
}

/// A dot-atom: atom text with interior dots, no white space around the
/// dots, optional comments and folding around the whole.  Returns the
/// dot-atom's bytes.
pub fn dot_atom(s: &[u8], i: usize) -> (r: Result<(usize, Vec<u8>), ParseError>)
    requires
        i <= s@.len(),
    ensures
        r matches Ok((j, v)) ==> i < j <= s@.len() && v@.len() >= 1 && (forall|k: int|
            0 <= k < v@.len() ==> (is_atext(v@[k]) || v@[k] == 46)) && is_atext(v@[0]) && is_atext(
            v@[v@.len() - 1],
        ) && (exists|a: int|
            i <= a && a + v@.len() <= j && v@ == #[trigger] s@.subrange(a, a + v@.len())),
        i < s@.len() && is_atext(s@[i as int]) && cfws_blocked(s@, dot_run_end(s@, i as int)) ==> (
        r matches Ok((j, v)) && j == dot_run_end(s@, i as int) && v@ == s@.subrange(
            i as int,
            dot_run_end(s@, i as int),
        )),
{
    let start = match opt_cfws(s, i) {
        Ok(j) => j,
        Err(e) => {
            return Err(e);
        },
    };
    let a_end = scan_atext(s, start);
    if a_end == start {
        return Err(ParseError::Malformed);
    }
    let mut pos = a_end;
    while pos < s.len() && s[pos] == 46 && pos + 1 < s.len() && atext_char(s[pos + 1])
        invariant
            start < pos <= s@.len(),
            forall|k: int| start <= k < pos ==> (is_atext(s@[k]) || s@[k] == 46),
            is_atext(s@[start as int]),
            is_atext(s@[pos - 1]),
            dot_run_end(s@, start as int) == dot_ext(s@, pos as int),
        decreases s@.len() - pos,
    {
        let n_end = scan_atext(s, pos + 1);
        pos = n_end;
    }
    let v = slice_to_vec(&s[start..pos]);
    let after = match opt_cfws(s, pos) {
        Ok(j) => j,
        Err(e) => {
            return Err(e);
        },
    };
    let res = (after, v);
    proof {
        assert(res.1@ == s@.subrange(start as int, start + res.1@.len()));
        assert(exists|a: int|
            i <= a && a + res.1@.len() <= after && res.1@ == #[trigger] s@.subrange(
                a,
                a + res.1@.len(),
            ));
    }
    Ok(res)
}

/// An atom: one run of atom text, optional comments and folding around
/// it.  Returns the atom's bytes.
pub fn atom(s: &[u8], i: usize) -> (r: Result<(usize, Vec<u8>), ParseError>)
    requires
        i <= s@.len(),
    ensures
        r matches Ok((j, v)) ==> i < j <= s@.len() && v@.len() >= 1 && (forall|k: int|
            0 <= k < v@.len() ==> is_atext(v@[k])),
        r matches Ok((j, v)) ==> exists|a: int|
            i <= a && a < atext_end(s@, a) <= j && v@ == #[trigger] s@.subrange(
                a,
                atext_end(s@, a),
            ),
        i < s@.len() && is_atext(s@[i as int]) && cfws_blocked(s@, atext_end(s@, i as int)) ==> (
        r matches Ok((j, v)) && j == atext_end(s@, i as int) && v@ == s@.subrange(
            i as int,
            atext_end(s@, i as int),
        )),
        cfws_blocked(s@, i as int) && (i == s@.len() || !is_atext(s@[i as int])) ==> r == Err::<
            (usize, Vec<u8>),
            ParseError,
        >(ParseError::Malformed),
{
    let start = match opt_cfws(s, i) {
        Ok(j) => j,
        Err(e) => {
            return Err(e);
        },
    };
    let a_end = scan_atext(s, start);
    if a_end == start {
        return Err(ParseError::Malformed);
    }
    let v = slice_to_vec(&s[start..a_end]);
    let after = match opt_cfws(s, a_end) {
        Ok(j) => j,
        Err(e) => {
            return Err(e);
        },
    };
    proof {
        assert(v@ == s@.subrange(start as int, atext_end(s@, start as int)));
        assert(exists|a: int|
            i <= a && a < atext_end(s@, a) <= after && v@ == #[trigger] s@.subrange(
                a,
                atext_end(s@, a),
            ));
    }
    Ok((after, v))
}

/// One word of a display name: an encoded word, an atom or a quoted
/// string, each with optional surrounding comments and folding.
pub fn word(s: &[u8], i: usize, ew_in_qs: bool) -> (r: Result<(usize, Word), ParseError>)
    requires
        i <= s@.len(),
    ensures
        r matches Ok((j, w)) ==> i < j <= s@.len() && (w is EncodedWord ==> exists|a: int, b: int|
            i <= a < b <= j && crate::rfc2047::is_encoded_word_at(s@, a, b, w->EncodedWord_0@)),
        i < s@.len() && is_atext(s@[i as int]) && !crate::rfc2047::ew_accepts(s@, i as int)
            && cfws_blocked(s@, atext_end(s@, i as int)) ==> (r matches Ok((j, w)) && j
            == atext_end(s@, i as int) && w is Atom && w->Atom_0@ == chars_of(
            s@.subrange(i as int, atext_end(s@, i as int)),
        )),
        cfws_blocked(s@, i as int) && !crate::rfc2047::ew_accepts(s@, i as int) && (i == s@.len()
            || (!is_atext(s@[i as int]) && s@[i as int] != 34)) ==> r == Err::<
            (usize, Word),
            ParseError,
        >(ParseError::Malformed),
{
    let p = match opt_cfws(s, i) {
        Ok(j) => j,
        Err(e) => {
            return Err(e);
        },
    };
    match crate::rfc2047::encoded_word(s, p) {
        Ok((j, v)) => {
            let after = match opt_cfws(s, j) {
                Ok(a) => a,
                Err(e) => {
                    return Err(e);
                },
            };
            let w = Word::EncodedWord(v);
            proof {
                assert(crate::rfc2047::is_encoded_word_at(s@, p as int, j as int, w->EncodedWord_0@));
                assert(i <= p < j <= after);
                assert(exists|a: int, b: int|
                    i <= a < b <= after && crate::rfc2047::is_encoded_word_at(
                        s@,
                        a,
                        b,
                        w->EncodedWord_0@,
                    ));
            }
            return Ok((after, w));
        },
        Err(ParseError::TooDeep) => {
            return Err(ParseError::TooDeep);
        },
        Err(ParseError::Malformed) => {
        },
    }
    match atom(s, i) {
        Ok((j, v)) => {
            let w = Word::Atom(bytes_to_text(v.as_slice()));
            proof {
                assert(w->Atom_0@ == chars_of(v@));
            }
            return Ok((j, w));
        },
        Err(ParseError::TooDeep) => {
            return Err(ParseError::TooDeep);
        },
        Err(ParseError::Malformed) => {
        },
    }
    match quoted_string(s, i, ew_in_qs) {
        Ok((j, v)) => Ok((j, Word::QS(v))),
        Err(e) => Err(e),
    }
}

/// A display name: one or more words, merged into one string by the
/// adjacency rule.
/// The one-atom display-name shape at `i`: a single atom run that no
/// further word can extend, with no comments or folding around it.
pub open spec fn single_atom_shape(s: Seq<u8>, i: int) -> bool {
    let ae = atext_end(s, i);
    &&& 0 <= i < s.len() && is_atext(s[i])
    &&& !crate::rfc2047::ew_accepts(s, i)
    &&& cfws_blocked(s, ae)
    &&& !crate::rfc2047::ew_accepts(s, ae)
    &&& (ae == s.len() || (!is_atext(s[ae]) && s[ae] != 34))
}

pub fn display_name(s: &[u8], i: usize, ew_in_qs: bool) -> (r: Result<(usize, String), ParseError>)
    requires
        i <= s@.len(),
    ensures
        r matches Ok((j, _v)) ==> i < j <= s@.len(),
        single_atom_shape(s@, i as int) ==> (r matches Ok((j, d)) && j == atext_end(
            s@,
            i as int,
        ) && d@ == chars_of(s@.subrange(i as int, atext_end(s@, i as int)))),
{
    let mut words: Vec<Word> = Vec::new();
    let mut pos: usize = i;
    loop
        invariant
            i <= pos <= s@.len(),
            words@.len() > 0 ==> pos > i,
            single_atom_shape(s@, i as int) ==> ((pos == i && words@.len() == 0) || (pos
                == atext_end(s@, i as int) && words@.len() == 1 && words@[0] is Atom
                && words@[0]->Atom_0@ == chars_of(
                s@.subrange(i as int, atext_end(s@, i as int)),
            ))),
        ensures
            i <= pos <= s@.len(),
            words@.len() > 0 ==> pos > i,
            single_atom_shape(s@, i as int) ==> (pos == atext_end(s@, i as int) && words@.len()
                == 1 && words@[0] is Atom && words@[0]->Atom_0@ == chars_of(
                s@.subrange(i as int, atext_end(s@, i as int)),
            )),
        decreases s@.len() - pos,
    {
        match word(s, pos, ew_in_qs) {
            Ok((j, w)) => {
                words.push(w);
                pos = j;
            },
            Err(ParseError::TooDeep) => {
                return Err(ParseError::TooDeep);
            },
            Err(ParseError::Malformed) => {
                break ;
            },
        }
    }
    if words.len() == 0 {
        return Err(ParseError::Malformed);
    }
    let d = concat_atom_and_qs(&words);
    proof {
        if single_atom_shape(s@, i as int) {
            let t = words@[0];
            assert(words@.drop_first() =~= Seq::<Word>::empty());
            assert(flatten_words(words@.drop_first()) == Seq::<Text>::empty());
            assert(flatten_words(words@) == word_texts(t) + flatten_words(words@.drop_first()));
            assert(flatten_words(words@) =~= word_texts(t));
            assert(word_texts(t) =~= seq![Text::Atom(t->Atom_0)]);
            assert(merged_text(seq![Text::Atom(t->Atom_0)]) == text_chars(
                Text::Atom(t->Atom_0),
            ));
        }
    }
    Ok((pos, d))
}

/// A plain addr-spec shape at `i`: a dot-atom, `@`, a dot-atom, with
/// no comments or folding anywhere in or after it.
pub open spec fn plain_addr_shape(s: Seq<u8>, i: int) -> bool {
    let le = dot_run_end(s, i);
    let de = dot_run_end(s, le + 1);
    &&& 0 <= i < s.len() && is_atext(s[i])
    &&& le < s.len() && s[le] == 64
    &&& le + 1 < s.len() && is_atext(s[le + 1])
    &&& cfws_blocked(s, de)
}

/// The local part of an address: a dot-atom, or a quoted string merged
/// to its display text.
pub fn local_part(s: &[u8], i: usize, ew_in_qs: bool) -> (r: Result<(usize, String), ParseError>)
    requires
        i <= s@.len(),
    ensures
        r matches Ok((j, _v)) ==> i < j <= s@.len(),
        i < s@.len() && is_atext(s@[i as int]) && cfws_blocked(s@, dot_run_end(s@, i as int)) ==> (
        r matches Ok((j, v)) && j == dot_run_end(s@, i as int) && v@ == chars_of(
            s@.subrange(i as int, dot_run_end(s@, i as int)),
        )),
{
    match dot_atom(s, i) {
        Ok((j, v)) => {
            return Ok((j, bytes_to_text(v.as_slice())));
        },
        Err(ParseError::TooDeep) => {
            return Err(ParseError::TooDeep);
        },
        Err(ParseError::Malformed) => {
        },
    }
    match quoted_string(s, i, ew_in_qs) {
        Ok((j, v)) => Ok((j, concat_qcontent(&v))),
        Err(e) => Err(e),
    }
}

/// A domain literal: bracketed domain text, kept verbatim with its
/// brackets.
pub fn domain_literal(s: &[u8], i: usize) -> (r: Result<(usize, Vec<u8>), ParseError>)
    requires
        i <= s@.len(),
    ensures
        r matches Ok((j, v)) ==> i < j <= s@.len() && v@.len() >= 2 && v@[0] == 91 && v@[v@.len()
            - 1] == 93,
{
    let start = match opt_cfws(s, i) {
        Ok(j) => j,
        Err(e) => {
            return Err(e);
        },
    };
    if !(start < s.len() && s[start] == 91) {
        return Err(ParseError::Malformed);
    }
    let mut out: Vec<u8> = Vec::new();
    out.push(91);
    let mut pos: usize = start + 1;
    loop
        invariant
            start + 1 <= pos <= s@.len(),
            out@.len() >= 1,
            out@[0] == 91,
        decreases s@.len() - pos,
    {
        let save = pos;
        let (p1, mut ws) = ofws(s, pos);
        if p1 < s.len() && dtext_char(s[p1]) {
            let j = scan_dtext(s, p1);
            out.append(&mut ws);
            let mut run = slice_to_vec(&s[p1..j]);
            out.append(&mut run);
            pos = j;
        } else {
            pos = save;
            break ;
        }
    }
    let (p2, mut ws2) = ofws(s, pos);
    out.append(&mut ws2);
    if !(p2 < s.len() && s[p2] == 93) {
        return Err(ParseError::Malformed);
    }
    out.push(93);
    let after = match opt_cfws(s, p2 + 1) {
        Ok(j) => j,
        Err(e) => {
            return Err(e);
        },
    };
    Ok((after, out))
}

/// A domain: a dot-atom, or a domain literal kept verbatim.
pub fn domain(s: &[u8], i: usize) -> (r: Result<(usize, Vec<u8>), ParseError>)
    requires
        i <= s@.len(),
    ensures
        r matches Ok((j, v)) ==> i < j <= s@.len() && v@.len() >= 1,
        i < s@.len() && is_atext(s@[i as int]) && cfws_blocked(s@, dot_run_end(s@, i as int)) ==> (
        r matches Ok((j, v)) && j == dot_run_end(s@, i as int) && v@ == s@.subrange(
            i as int,
            dot_run_end(s@, i as int),
        )),
{
    match dot_atom(s, i) {
        Ok((j, v)) => {
            return Ok((j, v));
        },
        Err(ParseError::TooDeep) => {
            return Err(ParseError::TooDeep);
        },
        Err(ParseError::Malformed) => {
        },
    }
    domain_literal(s, i)
}

/// Well-formedness of an assembled address text: at least a character
/// on some side of an `@` that is there.
pub open spec fn addr_text_wf(v: Seq<char>) -> bool {
    v.len() >= 2 && exists|k: int| 0 <= k < v.len() && v[k] == '@'
}

/// An addr-spec, `local@domain`, assembled as one text value.
pub fn addr_spec(s: &[u8], i: usize, ew_in_qs: bool) -> (r: Result<(usize, String), ParseError>)
    requires
        i <= s@.len(),
    ensures
        r matches Ok((j, v)) ==> i < j <= s@.len() && addr_text_wf(v@),
        plain_addr_shape(s@, i as int) ==> (r matches Ok((j, v)) && j == dot_run_end(
            s@,
            dot_run_end(s@, i as int) + 1,
        ) && v@ == chars_of(
            s@.subrange(i as int, dot_run_end(s@, dot_run_end(s@, i as int) + 1)),
        )),
{
    let (p1, lp) = match local_part(s, i, ew_in_qs) {
        Ok(x) => x,
        Err(e) => {
            return Err(e);
        },
    };
    if !(p1 < s.len() && s[p1] == 64) {
        return Err(ParseError::Malformed);
    }
    let (p2, dom) = match domain(s, p1 + 1) {
        Ok(x) => x,
        Err(e) => {
            return Err(e);
        },
    };
    let ghost lp_view = lp@;
    let mut out = lp;
    crate::strings::string_push(&mut out, '@');
    let dom_text = bytes_to_text(dom.as_slice());
    vstd::string::StringExecFns::append(&mut out, dom_text.as_str());
    proof {
        assert(out@ == lp_view.push('@') + chars_of(dom@));
        assert(out@[lp_view.len() as int] == '@');
        assert(out@.len() == lp_view.len() + 1 + dom@.len());
        assert(addr_text_wf(out@));
        if plain_addr_shape(s@, i as int) {
            let le = dot_run_end(s@, i as int);
            let de = dot_run_end(s@, le + 1);
            assert(s@[le] == 64);
            assert(out@ =~= chars_of(s@.subrange(i as int, de)));
        }
    }
    Ok((p2, out))
}

/// An angle-addr: an addr-spec between `<` and `>`, with optional
/// comments and folding around the brackets.
pub fn angle_addr(s: &[u8], i: usize, ew_in_qs: bool) -> (r: Result<(usize, String), ParseError>)
    requires
        i <= s@.len(),
    ensures
        r matches Ok((j, v)) ==> i < j <= s@.len() && addr_text_wf(v@),
        cfws_blocked(s@, i as int) && (i == s@.len() || s@[i as int] != 60) ==> r == Err::<
            (usize, String),
            ParseError,
        >(ParseError::Malformed),
{
    let start = match opt_cfws(s, i) {
        Ok(j) => j,
        Err(e) => {
            return Err(e);
        },
    };
    if !(start < s.len() && s[start] == 60) {
        return Err(ParseError::Malformed);
    }
    let (p1, addr) = match addr_spec(s, start + 1, ew_in_qs) {
        Ok(x) => x,
        Err(e) => {
            return Err(e);
        },
    };
    if !(p1 < s.len() && s[p1] == 62) {
        return Err(ParseError::Malformed);
    }
    let after = match opt_cfws(s, p1 + 1) {
        Ok(j) => j,
        Err(e) => {
            return Err(e);
        },
    };
    Ok((after, addr))
}

/// One mailbox: an optional display name and an `local@domain` address
/// text.
#[derive(Clone, Debug, PartialEq)]
pub struct Mailbox {
    /// The decoded display name, when one was given.
    pub dname: Option<String>,
    /// The address as `local@domain` text.
    pub address: String,
}

/// A named group of mailboxes.
#[derive(Clone, Debug, PartialEq)]
pub struct Group {
    /// The decoded display name of the group.
    pub dname: String,
    /// The group's members, in source order; may be empty.
    pub members: Vec<Mailbox>,
}

/// One address: a single mailbox or a group.
#[derive(Clone, Debug, PartialEq)]
pub enum Address {
    /// A single mailbox.
    Mailbox(Mailbox),
    /// A group of mailboxes.
    Group(Group),
}

/// Well-formedness of a parsed mailbox: the address text holds an `@`
/// and at least one more character.
pub open spec fn mailbox_wf(m: Mailbox) -> bool {
    addr_text_wf(m.address@)
}

/// Well-formedness of a parsed address: every mailbox in it is
/// well-formed.
pub open spec fn address_wf(a: Address) -> bool {
    match a {
        Address::Mailbox(m) => mailbox_wf(m),
        Address::Group(g) => forall|k: int| 0 <= k < g.members@.len() ==> mailbox_wf(g.members@[k]),
    }
}

/// A name-addr: an optional display name, then an angle-addr.
pub fn name_addr(s: &[u8], i: usize, ew_in_qs: bool) -> (r: Result<(usize, Mailbox), ParseError>)
    requires
        i <= s@.len(),
    ensures
        r matches Ok((j, m)) ==> i < j <= s@.len() && mailbox_wf(m),
        plain_addr_shape(s@, i as int) && !crate::rfc2047::ew_accepts(s@, i as int) ==> r == Err::<
            (usize, Mailbox),
            ParseError,
        >(ParseError::Malformed),
{
    proof {
        if plain_addr_shape(s@, i as int) && !crate::rfc2047::ew_accepts(s@, i as int) {
            let ae = atext_end(s@, i as int);
            let le = dot_run_end(s@, i as int);
            if le == ae {
                assert(s@[ae] == 64);
            } else {
                assert(dot_ext(s@, ae) != ae);
                assert(s@[ae] == 46);
            }
            assert(single_atom_shape(s@, i as int));
        }
    }
    let mut dname: Option<String> = None;
    let mut pos: usize = i;
    match display_name(s, i, ew_in_qs) {
        Ok((j, d)) => {
            dname = Some(d);
            pos = j;
        },
        Err(ParseError::TooDeep) => {
            return Err(ParseError::TooDeep);
        },
        Err(ParseError::Malformed) => {
        },
    }
    let (p1, address) = match angle_addr(s, pos, ew_in_qs) {
        Ok(x) => x,
        Err(e) => {
            return Err(e);
        },
    };
    Ok((p1, Mailbox { dname, address }))
}

/// A mailbox: a name-addr, or a bare addr-spec with no display name.
pub fn mailbox(s: &[u8], i: usize, ew_in_qs: bool) -> (r: Result<(usize, Mailbox), ParseError>)
    requires
        i <= s@.len(),
    ensures
        r matches Ok((j, m)) ==> i < j <= s@.len() && mailbox_wf(m),
        plain_addr_shape(s@, i as int) && !crate::rfc2047::ew_accepts(s@, i as int) ==> (
        r matches Ok((j, m)) && j == dot_run_end(s@, dot_run_end(s@, i as int) + 1)
            && m.dname is None && m.address@ == chars_of(
            s@.subrange(i as int, dot_run_end(s@, dot_run_end(s@, i as int) + 1)),
        )),
{
    match name_addr(s, i, ew_in_qs) {
        Ok(x) => {
            return Ok(x);
        },
        Err(ParseError::TooDeep) => {
            return Err(ParseError::TooDeep);
        },
        Err(ParseError::Malformed) => {
        },
    }
    match addr_spec(s, i, ew_in_qs) {
        Ok((j, a)) => {
            let m = Mailbox { dname: None, address: a };
            proof {
                assert(m.dname is None && m.address@ == a@);
            }
            Ok((j, m))
        },
        Err(e) => Err(e),
    }
}

/// A comma-separated list of one or more mailboxes.
pub fn mailbox_list(s: &[u8], i: usize, ew_in_qs: bool) -> (r: Result<
    (usize, Vec<Mailbox>),
    ParseError,
>)
    requires
        i <= s@.len(),
    ensures
        r matches Ok((j, v)) ==> i < j <= s@.len() && v@.len() >= 1 && (forall|k: int|
            0 <= k < v@.len() ==> mailbox_wf(v@[k])),
{
    let (p1, first) = match mailbox(s, i, ew_in_qs) {
        Ok(x) => x,
        Err(e) => {
            return Err(e);
        },
    };
    let mut out: Vec<Mailbox> = Vec::new();
    out.push(first);
    let mut pos = p1;
    loop
        invariant
            i < pos <= s@.len(),
            out@.len() >= 1,
            forall|k: int| 0 <= k < out@.len() ==> mailbox_wf(out@[k]),
        decreases s@.len() - pos,
    {
        if !(pos < s.len() && s[pos] == 44) {
            break ;
        }
        match mailbox(s, pos + 1, ew_in_qs) {
            Ok((j, m)) => {
                out.push(m);
                pos = j;
            },
            Err(ParseError::TooDeep) => {
                return Err(ParseError::TooDeep);
            },
            Err(ParseError::Malformed) => {
                break ;
            },
        }
    }
    Ok((pos, out))
}

/// A group's member list: a mailbox list, or pure comments and folding
/// white space standing for an empty group.
pub fn group_list(s: &[u8], i: usize, ew_in_qs: bool) -> (r: Result<
    (usize, Vec<Mailbox>),
    ParseError,
>)
    requires
        i <= s@.len(),
    ensures
        r matches Ok((j, v)) ==> i < j <= s@.len() && (forall|k: int|
            0 <= k < v@.len() ==> mailbox_wf(v@[k])),
{
    match mailbox_list(s, i, ew_in_qs) {
        Ok(x) => {
            return Ok(x);
        },
        Err(ParseError::TooDeep) => {
            return Err(ParseError::TooDeep);
        },
        Err(ParseError::Malformed) => {
        },
    }
    match cfws(s, i) {
        Ok(j) => Ok((j, Vec::new())),
        Err(e) => Err(e),
    }
}

/// A group: a display name, a colon, an optional member list and a
/// closing semicolon.
pub fn group(s: &[u8], i: usize, ew_in_qs: bool) -> (r: Result<(usize, Group), ParseError>)
    requires
        i <= s@.len(),
    ensures
        r matches Ok((j, g)) ==> i < j <= s@.len() && (forall|k: int|
            0 <= k < g.members@.len() ==> mailbox_wf(g.members@[k])),
{
    let (p1, dname) = match display_name(s, i, ew_in_qs) {
        Ok(x) => x,
        Err(e) => {
            return Err(e);
        },
    };
    if !(p1 < s.len() && s[p1] == 58) {
        return Err(ParseError::Malformed);
    }
    let mut members: Vec<Mailbox> = Vec::new();
    let mut pos: usize = p1 + 1;
    match group_list(s, p1 + 1, ew_in_qs) {
        Ok((j, v)) => {
            members = v;
            pos = j;
        },
        Err(ParseError::TooDeep) => {
            return Err(ParseError::TooDeep);
        },
        Err(ParseError::Malformed) => {
        },
    }
    if !(pos < s.len() && s[pos] == 59) {
        return Err(ParseError::Malformed);
    }
    let after = match opt_cfws(s, pos + 1) {
        Ok(j) => j,
        Err(e) => {
            return Err(e);
        },
    };
    Ok((after, Group { dname, members }))
}

/// One address: a mailbox or a group.
pub fn address(s: &[u8], i: usize, ew_in_qs: bool) -> (r: Result<(usize, Address), ParseError>)
    requires
        i <= s@.len(),
    ensures
        r matches Ok((j, a)) ==> i < j <= s@.len() && address_wf(a),
        plain_addr_shape(s@, i as int) && !crate::rfc2047::ew_accepts(s@, i as int) ==> (
        r matches Ok((j, a)) && j == dot_run_end(s@, dot_run_end(s@, i as int) + 1)
            && a is Mailbox && a->Mailbox_0.dname is None && a->Mailbox_0.address@ == chars_of(
            s@.subrange(i as int, dot_run_end(s@, dot_run_end(s@, i as int) + 1)),
        )),
{
    match mailbox(s, i, ew_in_qs) {
        Ok((j, m)) => {
            let a = Address::Mailbox(m);
            proof {
                assert(a is Mailbox && a->Mailbox_0 == m);
            }
            return Ok((j, a));
        },
        Err(ParseError::TooDeep) => {
            return Err(ParseError::TooDeep);
        },
        Err(ParseError::Malformed) => {
        },
    }
    match group(s, i, ew_in_qs) {
        Ok((j, g)) => Ok((j, Address::Group(g))),
        Err(e) => Err(e),
    }
}

/// The whole input from `i` on is one plain addr-spec: a dot-atom,
/// `@`, a dot-atom, then nothing but at most one line terminator.
pub open spec fn plain_single_address(s: Seq<u8>, i: int) -> bool {
    let de = dot_run_end(s, dot_run_end(s, i) + 1);
    &&& plain_addr_shape(s, i)
    &&& !crate::rfc2047::ew_accepts(s, i)
    &&& (de == s.len() || (de + 2 == s.len() && s[de] == 13 && s[de + 1] == 10))
}

/// A comma-separated list of one or more addresses.
pub fn address_list(s: &[u8], i: usize, ew_in_qs: bool) -> (r: Result<
    (usize, Vec<Address>),
    ParseError,
>)
    requires
        i <= s@.len(),
    ensures
        r matches Ok((j, v)) ==> i < j <= s@.len() && v@.len() >= 1 && (forall|k: int|
            0 <= k < v@.len() ==> address_wf(v@[k])),
        plain_single_address(s@, i as int) ==> (r matches Ok((j, v)) && j == dot_run_end(
            s@,
            dot_run_end(s@, i as int) + 1,
        ) && v@.len() == 1 && v@[0] is Mailbox && v@[0]->Mailbox_0.dname is None
            && v@[0]->Mailbox_0.address@ == chars_of(
            s@.subrange(i as int, dot_run_end(s@, dot_run_end(s@, i as int) + 1)),
        )),
{
    let (p1, first) = match address(s, i, ew_in_qs) {
        Ok(x) => x,
        Err(e) => {
            return Err(e);
        },
    };
    let mut out: Vec<Address> = Vec::new();
    out.push(first);
    let mut pos = p1;
    loop
        invariant
            i < pos <= s@.len(),
            out@.len() >= 1,
            forall|k: int| 0 <= k < out@.len() ==> address_wf(out@[k]),
            plain_single_address(s@, i as int) ==> (pos == dot_run_end(
                s@,
                dot_run_end(s@, i as int) + 1,
            ) && out@.len() == 1 && out@[0] is Mailbox && out@[0]->Mailbox_0.dname is None
                && out@[0]->Mailbox_0.address@ == chars_of(
                s@.subrange(i as int, dot_run_end(s@, dot_run_end(s@, i as int) + 1)),
            )),
        decreases s@.len() - pos,
    {
        if !(pos < s.len() && s[pos] == 44) {
            break ;
        }
        match address(s, pos + 1, ew_in_qs) {
            Ok((j, a)) => {
                out.push(a);
                pos = j;
            },
            Err(ParseError::TooDeep) => {
                return Err(ParseError::TooDeep);
            },
            Err(ParseError::Malformed) => {
                break ;
            },
        }
    }
    Ok((pos, out))
}

/// Skip one CRLF when it stands at `i`.
fn opt_crlf(s: &[u8], i: usize) -> (j: usize)
    requires
        i <= s@.len(),
    ensures
        i <= j <= s@.len(),
        i + 2 <= s@.len() && s@[i as int] == 13 && s@[i + 1] == 10 ==> j == i + 2,
        !(i + 2 <= s@.len() && s@[i as int] == 13 && s@[i + 1] == 10) ==> j == i,
{
    if i < s.len() && i + 1 < s.len() && s[i] == 13 && s[i + 1] == 10 {
        i + 2
    } else {
        i
    }
}

/// Parse a `From:` header value (RFC 5322 as updated by RFC 6854): an
/// address list, then an optional line terminator.  Returns the
/// unconsumed remainder and the addresses; strict quoted-string
/// grammar.
pub fn from(input: &[u8]) -> (r: Result<(&[u8], Vec<Address>), ParseError>)
    ensures
        r matches Ok((rem, v)) ==> v@.len() >= 1 && (forall|k: int|
            0 <= k < v@.len() ==> address_wf(v@[k])) && (exists|j: int|
            0 < j <= input@.len() && rem@ == input@.subrange(j, input@.len() as int)),
        plain_single_address(input@, 0) ==> (r matches Ok((rem, v)) && rem@ == Seq::<u8>::empty()
            && v@.len() == 1 && v@[0] is Mailbox && v@[0]->Mailbox_0.dname is None
            && v@[0]->Mailbox_0.address@ == chars_of(
            input@.subrange(0, dot_run_end(input@, dot_run_end(input@, 0) + 1)),
        )),
        input@.len() == 0 ==> r is Err,
{
    address_list_crlf(input, false)
}

/// Parse a `Sender:` header value: one address, then an optional line
/// terminator.
pub fn sender(input: &[u8]) -> (r: Result<(&[u8], Address), ParseError>)
    ensures
        r matches Ok((rem, a)) ==> address_wf(a) && (exists|j: int|
            0 < j <= input@.len() && rem@ == input@.subrange(j, input@.len() as int)),
        plain_single_address(input@, 0) ==> (r matches Ok((rem, a)) && rem@ == Seq::<u8>::empty()
            && a is Mailbox && a->Mailbox_0.dname is None && a->Mailbox_0.address@ == chars_of(
            input@.subrange(0, dot_run_end(input@, dot_run_end(input@, 0) + 1)),
        )),
        input@.len() == 0 ==> r is Err,
{
    let (p1, a) = match address(input, 0, false) {
        Ok(x) => x,
        Err(e) => {
            return Err(e);
        },
    };
    let p2 = opt_crlf(input, p1);
    let rem = &input[p2..input.len()];
    proof {
        if plain_single_address(input@, 0) {
            assert(rem@ =~= Seq::<u8>::empty());
        }
    }
    Ok((rem, a))
}

/// Parse a `Reply-To:` header value: an address list, then an optional
/// line terminator.
pub fn reply_to(input: &[u8]) -> (r: Result<(&[u8], Vec<Address>), ParseError>)
    ensures
        r matches Ok((rem, v)) ==> v@.len() >= 1 && (forall|k: int|
            0 <= k < v@.len() ==> address_wf(v@[k])) && (exists|j: int|
            0 < j <= input@.len() && rem@ == input@.subrange(j, input@.len() as int)),
        plain_single_address(input@, 0) ==> (r matches Ok((rem, v)) && rem@ == Seq::<u8>::empty()
            && v@.len() == 1 && v@[0] is Mailbox && v@[0]->Mailbox_0.dname is None
            && v@[0]->Mailbox_0.address@ == chars_of(
            input@.subrange(0, dot_run_end(input@, dot_run_end(input@, 0) + 1)),
        )),
        input@.len() == 0 ==> r is Err,
{
    address_list_crlf(input, false)
}

/// Parse an address list with a choice of quoted-string grammar: under
/// the relaxed one, encoded words are recognized and decoded inside
/// quoted strings; under the strict one they stay literal text.
pub fn address_list_crlf(input: &[u8], ew_in_qs: bool) -> (r: Result<
    (&[u8], Vec<Address>),
    ParseError,
>)
    ensures
        r matches Ok((rem, v)) ==> v@.len() >= 1 && (forall|k: int|
            0 <= k < v@.len() ==> address_wf(v@[k])) && (exists|j: int|
            0 < j <= input@.len() && rem@ == input@.subrange(j, input@.len() as int)),
        plain_single_address(input@, 0) ==> (r matches Ok((rem, v)) && rem@ == Seq::<u8>::empty()
            && v@.len() == 1 && v@[0] is Mailbox && v@[0]->Mailbox_0.dname is None
            && v@[0]->Mailbox_0.address@ == chars_of(
            input@.subrange(0, dot_run_end(input@, dot_run_end(input@, 0) + 1)),
        )),
        input@.len() == 0 ==> r is Err,
{
    let (p1, v) = match address_list(input, 0, ew_in_qs) {
        Ok(x) => x,
        Err(e) => {
            return Err(e);
        },
    };
    let p2 = opt_crlf(input, p1);
    let rem = &input[p2..input.len()];
    proof {
        if plain_single_address(input@, 0) {
            assert(rem@ =~= Seq::<u8>::empty());
        }
    }
    Ok((rem, v))
}

} // verus!

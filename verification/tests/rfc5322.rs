use rustyknife::rfc5322::{from, sender, reply_to, address_list_crlf, Address, Group, Mailbox};
use rustyknife::ParseError;

fn mbx(dname: Option<&str>, address: &str) -> Mailbox {
    Mailbox { dname: dname.map(|s| s.to_string()), address: address.to_string() }
}

#[test]
fn simple_addr_spec() {
    let (rem, parsed) = from(b"john.doe@example.org").unwrap();
    assert!(rem.is_empty());
    assert_eq!(parsed, vec![Address::Mailbox(mbx(None, "john.doe@example.org"))]);
}

#[test]
fn name_addr_with_display_name() {
    let (rem, parsed) = from(b"John Doe <john@example.org>").unwrap();
    assert!(rem.is_empty());
    assert_eq!(parsed, vec![Address::Mailbox(mbx(Some("John Doe"), "john@example.org"))]);
}

#[test]
fn quoted_display_name() {
    let (rem, parsed) = from(b"\"Joe Q. Public\" <john.q.public@example.com>").unwrap();
    assert!(rem.is_empty());
    assert_eq!(
        parsed,
        vec![Address::Mailbox(mbx(Some("Joe Q. Public"), "john.q.public@example.com"))]
    );
}

#[test]
fn domain_literal_address() {
    let (rem, parsed) = from(b"jdoe@[192.168.0.1]").unwrap();
    assert!(rem.is_empty());
    assert_eq!(parsed, vec![Address::Mailbox(mbx(None, "jdoe@[192.168.0.1]"))]);
}

// The group example: one group with three mailboxes, the third display
// name kept and its trailing comment discarded.
#[test]
fn group_example() {
    let input =
        b"A Group:Chris Jones <c@public.example>,joe@example.org,John <jdoe@one.test>(comment);";
    let (rem, parsed) = from(input).unwrap();
    assert!(rem.is_empty());
    assert_eq!(
        parsed,
        vec![Address::Group(Group {
            dname: "A Group".to_string(),
            members: vec![
                mbx(Some("Chris Jones"), "c@public.example"),
                mbx(None, "joe@example.org"),
                mbx(Some("John"), "jdoe@one.test"),
            ],
        })]
    );
}

#[test]
fn folded_group_with_comments() {
    let input = b"  A Group(Some people)\r\n :Chris Jones <c@(Chris's host.)public.example>,\r\n joe@example.org,\r\n John <jdoe@one.test> (my dear friend); (the end of the group)\r\n";
    let (rem, parsed) = from(input).unwrap();
    assert!(rem.is_empty());
    assert_eq!(
        parsed,
        vec![Address::Group(Group {
            dname: "A Group".to_string(),
            members: vec![
                mbx(Some("Chris Jones"), "c@public.example"),
                mbx(None, "joe@example.org"),
                mbx(Some("John"), "jdoe@one.test"),
            ],
        })]
    );
}

#[test]
fn empty_group() {
    let (rem, parsed) = from(b"Undisclosed recipients:;").unwrap();
    assert!(rem.is_empty());
    assert_eq!(
        parsed,
        vec![Address::Group(Group { dname: "Undisclosed recipients".to_string(), members: vec![] })]
    );
}

#[test]
fn sender_single_address() {
    let (rem, parsed) = sender(b"John <john@example.org>\r\n").unwrap();
    assert!(rem.is_empty());
    assert_eq!(parsed, Address::Mailbox(mbx(Some("John"), "john@example.org")));
}

#[test]
fn reply_to_list() {
    let (rem, parsed) = reply_to(b"a@b.test, c@d.test").unwrap();
    assert!(rem.is_empty());
    assert_eq!(parsed, vec![
        Address::Mailbox(mbx(None, "a@b.test")),
        Address::Mailbox(mbx(None, "c@d.test")),
    ]);
}

#[test]
fn empty_input_fails() {
    assert!(from(b"").is_err());
    assert!(sender(b"").is_err());
}

#[test]
fn trailing_garbage_is_returned() {
    let (rem, parsed) = from(b"a@b.test junk").unwrap();
    assert_eq!(parsed.len(), 1);
    assert_eq!(rem, b"junk");
}

// Word-merge tie-break: adjacent encoded words join with no space; a
// literal next to an encoded word keeps one space.
#[test]
fn encoded_word_merge_no_space() {
    let (rem, parsed) = from(b"=?utf-8?q?Hello?= =?utf-8?q?World?= <a@b.test>").unwrap();
    assert!(rem.is_empty());
    assert_eq!(parsed, vec![Address::Mailbox(mbx(Some("HelloWorld"), "a@b.test"))]);
}

#[test]
fn encoded_word_merge_space_kept() {
    let (rem, parsed) = from(b"Hello =?utf-8?q?World?= <a@b.test>").unwrap();
    assert!(rem.is_empty());
    assert_eq!(parsed, vec![Address::Mailbox(mbx(Some("Hello World"), "a@b.test"))]);
}

#[test]
fn encoded_word_q_specials() {
    // `_` is a space, `=E2=98=83` is a UTF-8 snowman.
    let (rem, parsed) = from(b"=?utf-8?q?snow_man_=E2=98=83?= <s@b.test>").unwrap();
    assert!(rem.is_empty());
    assert_eq!(parsed, vec![Address::Mailbox(mbx(Some("snow man \u{2603}"), "s@b.test"))]);
}

#[test]
fn encoded_word_base64() {
    let (_, decoded) =
        rustyknife::rfc2047::encoded_word(b"=?x-sjis?B?lEWWQI7Kg4GM9ZTygs6CtSiPzik=?=", 0).unwrap();
    assert_eq!(decoded, "\u{5fcd}\u{6cd5}\u{5199}\u{30e1}\u{5149}\u{98db}\u{3070}\u{3057}(\u{7b11})");
}

#[test]
fn malformed_encoded_word_is_an_atom() {
    // A bad charset makes the token fall back to a plain atom.
    let (rem, parsed) = from(b"=?nosuchcharset?q?x?= <a@b.test>").unwrap();
    assert!(rem.is_empty());
    assert_eq!(parsed, vec![Address::Mailbox(mbx(Some("=?nosuchcharset?q?x?="), "a@b.test"))]);
}

// Comment insertion at CFWS-legal positions does not change the value.
#[test]
fn comment_insertion_invariance() {
    let plain = from(b"John <john@example.org>, a@b.test").unwrap();
    let variants: &[&[u8]] = &[
        b"(c)John <john@example.org>, a@b.test",
        b"John (c)<john@example.org>, a@b.test",
        b"John <john@(c)example.org>, a@b.test",
        b"John <john@example.org(c)>, a@b.test",
        b"John <john@example.org>(c), a@b.test",
        b"John <john@example.org>, (nested (comment)) a@b.test",
    ];
    for v in variants {
        let got = from(v).unwrap();
        assert_eq!(got.1, plain.1, "comment variant changed the parse");
        assert!(got.0.is_empty());
    }
}

// Deeply nested comments are rejected with the distinct depth error,
// not a crash.
#[test]
fn pathological_comment_nesting() {
    let mut input = Vec::new();
    for _ in 0..300 {
        input.push(b'(');
    }
    for _ in 0..300 {
        input.push(b')');
    }
    input.extend_from_slice(b"a@b.test");
    assert_eq!(from(&input).unwrap_err(), ParseError::TooDeep);
}

#[test]
fn shallow_comment_nesting_is_fine() {
    let mut input = Vec::new();
    for _ in 0..50 {
        input.push(b'(');
    }
    for _ in 0..50 {
        input.push(b')');
    }
    input.extend_from_slice(b"a@b.test");
    let (rem, parsed) = from(&input).unwrap();
    assert!(rem.is_empty());
    assert_eq!(parsed, vec![Address::Mailbox(mbx(None, "a@b.test"))]);
}

// The construction-time quoted-string mode: relaxed decodes encoded
// words inside quotes, strict keeps them literal.
#[test]
fn encoded_word_in_quotes_modes() {
    let input = b"\"=?utf-8?q?Hi?=\" <a@b.test>";
    let strict = address_list_crlf(input, false).unwrap().1;
    let relaxed = address_list_crlf(input, true).unwrap().1;
    assert_eq!(strict, vec![Address::Mailbox(mbx(Some("=?utf-8?q?Hi?="), "a@b.test"))]);
    assert_eq!(relaxed, vec![Address::Mailbox(mbx(Some("Hi"), "a@b.test"))]);
}

fn needs_quoting(s: &str) -> bool {
    !s.chars().all(|c| {
        c.is_ascii_alphanumeric() || "!#$%&'*+-/=?^_`{|}~".contains(c)
    }) || s.is_empty()
}

fn render_dname(s: &str) -> String {
    if needs_quoting(s) {
        let mut out = String::from("\"");
        for c in s.chars() {
            if c == '"' || c == '\\' {
                out.push('\\');
            }
            out.push(c);
        }
        out.push('"');
        out
    } else {
        s.to_string()
    }
}

fn render_mailbox(m: &Mailbox) -> String {
    match &m.dname {
        Some(d) => format!("{} <{}>", render_dname(d), m.address),
        None => m.address.clone(),
    }
}

fn render_address(a: &Address) -> String {
    match a {
        Address::Mailbox(m) => render_mailbox(m),
        Address::Group(g) => {
            let members: Vec<String> = g.members.iter().map(render_mailbox).collect();
            format!("{}:{};", render_dname(&g.dname), members.join(","))
        }
    }
}

// Structural round trip: parse, re-serialize, re-parse, same structure.
#[test]
fn round_trip_address_list() {
    let inputs: &[&[u8]] = &[
        b"john.doe@example.org",
        b"John Doe <john@example.org>",
        b"\"Joe Q. Public\" <john.q.public@example.com>",
        b"A Group:Chris Jones <c@public.example>,joe@example.org,John <jdoe@one.test>;",
        b"Empty:;",
        b"x@y.test, Z <z@w.test>, G:a@b.test;",
        b"jdoe@[192.168.0.1]",
    ];
    for input in inputs {
        let (rem, parsed) = from(input).unwrap();
        assert!(rem.is_empty());
        let rendered: Vec<String> = parsed.iter().map(render_address).collect();
        let rendered = rendered.join(",");
        let (rem2, reparsed) = from(rendered.as_bytes()).unwrap();
        assert!(rem2.is_empty(), "rendering left garbage: {rendered}");
        assert_eq!(reparsed, parsed, "round trip changed structure for {rendered}");
    }
}

// Idempotence: with no trailing garbage the remainder is empty, and
// re-parsing exactly the consumed bytes consumes them all again.
#[test]
fn idempotent_reparse_of_consumed_prefix() {
    let inputs: &[&[u8]] = &[
        b"a@b.test, c@d.test junk",
        b"John <j@d.test>\r\n",
        b"G:a@b.test; trailing",
    ];
    for input in inputs {
        let (rem, parsed) = from(input).unwrap();
        let consumed = &input[..input.len() - rem.len()];
        let (rem2, reparsed) = from(consumed).unwrap();
        assert!(rem2.is_empty());
        assert_eq!(reparsed, parsed);
    }
}

// Two adjacent quoted strings are both literal runs, so they join
// with no separating space.
#[test]
fn adjacent_quoted_strings_join_closely() {
    let (rem, parsed) = from(b"\"a\" \"b\" <x@y.test>").unwrap();
    assert!(rem.is_empty());
    assert_eq!(parsed, vec![Address::Mailbox(mbx(Some("ab"), "x@y.test"))]);
}

use rustyknife::rfc2231::{
    content_disposition, content_transfer_encoding, content_type, ContentDisposition,
    ContentTransferEncoding,
};

fn param_map(params: &[(String, String)]) -> Vec<(&str, &str)> {
    let mut out: Vec<(&str, &str)> = params.iter().map(|(k, v)| (k.as_str(), v.as_str())).collect();
    out.sort();
    out
}

#[test]
fn content_type_simple() {
    let (rem, (mt, params)) = content_type(b"text/plain; charset=us-ascii").unwrap();
    assert!(rem.is_empty());
    assert_eq!(mt, "text/plain");
    assert_eq!(param_map(&params), vec![("charset", "us-ascii")]);
}

#[test]
fn content_type_lowercases_mime_type_and_names() {
    let (rem, (mt, params)) = content_type(b"TEXT/Plain; CharSet=UTF-8").unwrap();
    assert!(rem.is_empty());
    assert_eq!(mt, "text/plain");
    assert_eq!(param_map(&params), vec![("charset", "UTF-8")]);
}

#[test]
fn content_type_quoted_value() {
    let (rem, (mt, params)) = content_type(b"text/plain; name=\"hello world.txt\"").unwrap();
    assert!(rem.is_empty());
    assert_eq!(mt, "text/plain");
    assert_eq!(param_map(&params), vec![("name", "hello world.txt")]);
}

// The RFC 2231 worked example: encoded segments sorted and clumped,
// then the plain quoted segment appended.
#[test]
fn rfc2231_worked_example() {
    let input = b"text/plain; title*0*=us-ascii'en'This%20is%20even%20more%20; title*1*=%2A%2A%2Afun%2A%2A%2A%20; title*2=\"isn't it!\"";
    let (rem, (mt, params)) = content_type(input).unwrap();
    assert!(rem.is_empty());
    assert_eq!(mt, "text/plain");
    assert_eq!(param_map(&params), vec![("title", "This is even more ***fun*** isn't it!")]);
}

#[test]
fn rfc2231_out_of_order_segments() {
    let input = b"text/plain; title*1*=%2A%2A%2Afun%2A%2A%2A%20; title*0*=us-ascii'en'This%20is%20even%20more%20; title*2=\"isn't it!\"";
    let (rem, (_, params)) = content_type(input).unwrap();
    assert!(rem.is_empty());
    assert_eq!(param_map(&params), vec![("title", "This is even more ***fun*** isn't it!")]);
}

#[test]
fn rfc2231_single_extended_value() {
    let (rem, (_, params)) = content_type(b"text/plain; title*=us-ascii'en'%41%42").unwrap();
    assert!(rem.is_empty());
    assert_eq!(param_map(&params), vec![("title", "AB")]);
}

#[test]
fn rfc2231_unknown_charset_falls_back_to_ascii() {
    let (rem, (_, params)) = content_type(b"text/plain; title*=bogus-charset''%41").unwrap();
    assert!(rem.is_empty());
    assert_eq!(param_map(&params), vec![("title", "A")]);
}

#[test]
fn rfc2231_utf8_segments_clumped_across_boundary() {
    // A three-byte UTF-8 character split across two segments must not
    // be decoded segment by segment.
    let input = b"text/plain; n*0*=utf-8''snow%20%E2%98; n*1*=%83";
    let (rem, (_, params)) = content_type(input).unwrap();
    assert!(rem.is_empty());
    assert_eq!(param_map(&params), vec![("n", "snow \u{2603}")]);
}

#[test]
fn extended_value_wins_over_simple() {
    let input = b"text/plain; title=plain; title*=us-ascii'en'%41";
    let (rem, (_, params)) = content_type(input).unwrap();
    assert!(rem.is_empty());
    assert_eq!(param_map(&params), vec![("title", "A")]);
}

#[test]
fn last_simple_duplicate_wins() {
    let input = b"text/plain; charset=a; charset=b";
    let (rem, (_, params)) = content_type(input).unwrap();
    assert!(rem.is_empty());
    assert_eq!(param_map(&params), vec![("charset", "b")]);
}

#[test]
fn parameter_names_fold_case() {
    let input = b"text/plain; TITLE*0=a; title*1=b";
    let (rem, (_, params)) = content_type(input).unwrap();
    assert!(rem.is_empty());
    assert_eq!(param_map(&params), vec![("title", "ab")]);
}

#[test]
fn content_type_trailing_semicolon_and_crlf() {
    let (rem, (mt, params)) = content_type(b"text/plain; charset=us-ascii;\r\n").unwrap();
    assert!(rem.is_empty());
    assert_eq!(mt, "text/plain");
    assert_eq!(param_map(&params), vec![("charset", "us-ascii")]);
}

#[test]
fn content_type_rejects_nonsense() {
    assert!(content_type(b"").is_err());
    assert!(content_type(b"noslash").is_err());
    assert!(content_type(b"/plain").is_err());
}

#[test]
fn content_disposition_kinds() {
    let (rem, (d, params)) =
        content_disposition(b"attachment; filename=\"evil.bin\"").unwrap();
    assert!(rem.is_empty());
    assert_eq!(d, ContentDisposition::Attachment);
    assert_eq!(param_map(&params), vec![("filename", "evil.bin")]);

    let (_, (d, _)) = content_disposition(b"INLINE").unwrap();
    assert_eq!(d, ContentDisposition::Inline);

    let (_, (d, _)) = content_disposition(b"x-archive").unwrap();
    assert_eq!(d, ContentDisposition::Extended("archive".to_string()));

    let (_, (d, _)) = content_disposition(b"mystery").unwrap();
    assert_eq!(d, ContentDisposition::Token("mystery".to_string()));
}

#[test]
fn content_disposition_to_text() {
    assert_eq!(ContentDisposition::Inline.to_text(), "inline");
    assert_eq!(ContentDisposition::Attachment.to_text(), "attachment");
    assert_eq!(ContentDisposition::Extended("a".to_string()).to_text(), "x-a");
    assert_eq!(ContentDisposition::Token("t".to_string()).to_text(), "t");
}

#[test]
fn content_transfer_encoding_kinds() {
    let cases: &[(&[u8], ContentTransferEncoding)] = &[
        (b"7bit", ContentTransferEncoding::SevenBit),
        (b"8BIT", ContentTransferEncoding::EightBit),
        (b"binary", ContentTransferEncoding::Binary),
        (b"Base64", ContentTransferEncoding::Base64),
        (b"quoted-printable", ContentTransferEncoding::QuotedPrintable),
        (b"x-whatever", ContentTransferEncoding::Extended("whatever".to_string())),
        (b"futuristic", ContentTransferEncoding::Token("futuristic".to_string())),
    ];
    for (input, want) in cases {
        let (rem, got) = content_transfer_encoding(input).unwrap();
        assert!(rem.is_empty());
        assert_eq!(&got, want);
    }
}

#[test]
fn content_transfer_encoding_with_whitespace() {
    let (rem, got) = content_transfer_encoding(b"  base64  ").unwrap();
    assert!(rem.is_empty());
    assert_eq!(got, ContentTransferEncoding::Base64);
}

#[test]
fn content_transfer_encoding_to_text() {
    assert_eq!(ContentTransferEncoding::SevenBit.to_text(), "7bit");
    assert_eq!(ContentTransferEncoding::EightBit.to_text(), "8bit");
    assert_eq!(ContentTransferEncoding::Binary.to_text(), "binary");
    assert_eq!(ContentTransferEncoding::Base64.to_text(), "base64");
    assert_eq!(ContentTransferEncoding::QuotedPrintable.to_text(), "quoted-printable");
    assert_eq!(ContentTransferEncoding::Extended("z".to_string()).to_text(), "x-z");
    assert_eq!(ContentTransferEncoding::Token("t".to_string()).to_text(), "t");
}

#[test]
fn content_transfer_encoding_rejects_empty() {
    assert!(content_transfer_encoding(b"").is_err());
    assert!(content_transfer_encoding(b"   ").is_err());
}

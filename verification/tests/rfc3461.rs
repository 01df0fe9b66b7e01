use rustyknife::rfc3461::{dsn_mail_params, orcpt_address, DSNMailParams, DSNRet, DsnError};

#[test]
fn orcpt_simple() {
    let (rem, split) = orcpt_address(b"rfc822;bob@example.org").unwrap();
    assert!(rem.is_empty());
    assert_eq!(split, ("rfc822".to_string(), "bob@example.org".to_string()));
}

#[test]
fn orcpt_hex_pairs_decode() {
    let (rem, split) = orcpt_address(b"rfc822;bob+20smith@example.org").unwrap();
    assert!(rem.is_empty());
    assert_eq!(split, ("rfc822".to_string(), "bob smith@example.org".to_string()));
}

#[test]
fn orcpt_rejects_missing_semicolon() {
    assert!(orcpt_address(b"rfc822 bob@example.org").is_err());
}

#[test]
fn dsn_ret_hdrs_and_passthrough() {
    let input = &[("RET", Some("HDRS")), ("OTHER", None)];
    let (params, other) = dsn_mail_params(input).unwrap();
    assert_eq!(params, DSNMailParams { envid: None, ret: Some(DSNRet::Hdrs) });
    assert_eq!(other, [("OTHER", None)]);
}

#[test]
fn dsn_ret_full_case_insensitive() {
    let input = &[("ret", Some("Full"))];
    let (params, other) = dsn_mail_params(input).unwrap();
    assert_eq!(params, DSNMailParams { envid: None, ret: Some(DSNRet::Full) });
    assert!(other.is_empty());
}

// A duplicate named option is a distinct error, never a silent
// overwrite.
#[test]
fn dsn_duplicate_ret_is_an_error() {
    let input = &[("RET", Some("FULL")), ("RET", Some("FULL"))];
    assert_eq!(dsn_mail_params(input).unwrap_err(), DsnError::DuplicateParameter);
}

#[test]
fn dsn_duplicate_envid_is_an_error() {
    let input = &[("ENVID", Some("a")), ("envid", Some("b"))];
    assert_eq!(dsn_mail_params(input).unwrap_err(), DsnError::DuplicateParameter);
}

#[test]
fn dsn_invalid_ret_value() {
    let input = &[("RET", Some("BODY"))];
    assert_eq!(dsn_mail_params(input).unwrap_err(), DsnError::InvalidValue);
}

#[test]
fn dsn_ret_without_value() {
    let input = &[("RET", None)];
    assert_eq!(dsn_mail_params(input).unwrap_err(), DsnError::InvalidValue);
}

#[test]
fn dsn_envid_without_value() {
    let input = &[("ENVID", None)];
    assert_eq!(dsn_mail_params(input).unwrap_err(), DsnError::InvalidValue);
}

#[test]
fn dsn_envid_decodes_xtext() {
    let input = &[("ENVID", Some("QQ+3D314159"))];
    let (params, other) = dsn_mail_params(input).unwrap();
    assert_eq!(params, DSNMailParams { envid: Some("QQ=314159".to_string()), ret: None });
    assert!(other.is_empty());
}

#[test]
fn dsn_envid_over_100_bytes() {
    let long = "a".repeat(101);
    let input = &[("ENVID", Some(long.as_str()))];
    assert_eq!(dsn_mail_params(input).unwrap_err(), DsnError::InvalidValue);
}

#[test]
fn dsn_envid_exactly_100_bytes_is_fine() {
    let long = "a".repeat(100);
    let input = &[("ENVID", Some(long.as_str()))];
    let (params, _) = dsn_mail_params(input).unwrap();
    assert_eq!(params.envid.as_deref(), Some(long.as_str()));
}

#[test]
fn dsn_envid_bad_xtext() {
    // `=` is not an xtext character and `+` must be followed by two
    // upper-case-compatible hex digits.
    let input = &[("ENVID", Some("a=b"))];
    assert_eq!(dsn_mail_params(input).unwrap_err(), DsnError::InvalidValue);
    let input = &[("ENVID", Some("a+zz"))];
    assert_eq!(dsn_mail_params(input).unwrap_err(), DsnError::InvalidValue);
}

#[test]
fn dsn_other_params_keep_order() {
    let input = &[("A", None), ("RET", Some("FULL")), ("B", Some("x")), ("ENVID", Some("e"))];
    let (params, other) = dsn_mail_params(input).unwrap();
    assert_eq!(
        params,
        DSNMailParams { envid: Some("e".to_string()), ret: Some(DSNRet::Full) }
    );
    assert_eq!(other, [("A", None), ("B", Some("x"))]);
}

#[test]
fn dsn_envid_non_ascii_becomes_replacement() {
    let input = &[("ENVID", Some("caf\u{e9}"))];
    let (params, _) = dsn_mail_params(input).unwrap();
    assert_eq!(params.envid.as_deref(), Some("caf?"));
}

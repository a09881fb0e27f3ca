use rustyknife::rfc3461::{dsn_mail_params, orcpt_address, DSNMailParams, DSNRet};
use rustyknife::types::{AddressLiteral, IpAddress, QuotedString};
use rustyknife::util::ascii_to_string;
use rustyknife::xforward::{command as xforward_command, xforward_params, Param as XfParam};

#[test]
fn dsn_ret_and_passthrough() {
    let input = [("RET", Some("HDRS")), ("OTHER", None)];
    let (params, other) = dsn_mail_params(&input).unwrap();
    assert_eq!(params, DSNMailParams { envid: None, ret: Some(DSNRet::Hdrs) });
    assert_eq!(other, [("OTHER", None)]);
}

#[test]
fn dsn_envid_decodes_xtext() {
    let input = [("ENVID", Some("ab+2Bc"))];
    let (params, other) = dsn_mail_params(&input).unwrap();
    assert_eq!(params, DSNMailParams { envid: Some("ab+c".to_string()), ret: None });
    assert_eq!(other, []);
}

#[test]
fn dsn_errors() {
    assert_eq!(dsn_mail_params(&[("RET", Some("FULL")), ("RET", Some("HDRS"))]),
               Err("Duplicate RET"));
    assert_eq!(dsn_mail_params(&[("RET", Some("bogus"))]), Err("Invalid RET"));
    assert_eq!(dsn_mail_params(&[("RET", None)]), Err("RET without value"));
    assert_eq!(dsn_mail_params(&[("ENVID", None)]), Err("ENVID without value"));
    assert_eq!(dsn_mail_params(&[("ENVID", Some("a=b"))]), Err("Invalid ENVID"));
    let long = "a".repeat(101);
    assert_eq!(dsn_mail_params(&[("ENVID", Some(&long))]), Err("ENVID over 100 bytes"));
    assert_eq!(dsn_mail_params(&[("ENVID", Some("x")), ("ENVID", Some("y"))]),
               Err("Duplicate ENVID"));
}

#[test]
fn orcpt_split() {
    let (rem, split) = orcpt_address(b"rfc822;bob@example.org").unwrap();
    assert_eq!(rem.len(), 0);
    assert_eq!(split, ("rfc822".to_string(), "bob@example.org".to_string()));
}

#[test]
fn xforward_basic() {
    let (rem, params) = xforward_params(b"NAME=spike.porcupine.org ADDR=168.100.189.2").unwrap();
    assert_eq!(rem.len(), 0);
    assert_eq!(params, [XfParam("name", Some("spike.porcupine.org".to_string())),
                        XfParam("addr", Some("168.100.189.2".to_string()))]);
}

#[test]
fn xforward_unavailable_and_command() {
    let (rem, params) = xforward_command(b"XFORWARD IDENT=[unavailable] PORT=52706\r\n").unwrap();
    assert_eq!(rem.len(), 0);
    assert_eq!(params, [XfParam("ident", None), XfParam("port", Some("52706".to_string()))]);
}

#[test]
fn quoted_escapes() {
    let qs = QuotedString("bob the \"great \\ powerful\"".to_string());
    assert_eq!(qs.quoted(), "\"bob the \\\"great \\\\ powerful\\\"\"");
}

#[test]
fn upgrade_literals() {
    let valid = AddressLiteral::FreeForm("192.0.2.1".to_string());
    let invalid = AddressLiteral::FreeForm("somewhere".to_string());
    assert_eq!(valid.upgrade(), Ok(AddressLiteral::IP(IpAddress::V4(192, 0, 2, 1))));
    assert_eq!(invalid.upgrade(), Err(()));
    let tagged = AddressLiteral::FreeForm("x400:cn=bob,dc=example".to_string());
    assert_eq!(tagged.upgrade(),
               Ok(AddressLiteral::Tagged("x400".to_string(), "cn=bob,dc=example".to_string())));
}

#[test]
fn lossy_decode_matches_std() {
    let cases: &[&[u8]] = &[
        b"plain ascii",
        &[0xE2, 0x82],
        &[0xE2, 0x82, 0xAC],
        &[0xF0, 0x9F, 0x98],
        &[0xF5, 0x80],
        &[0x61, 0xE0, 0x80, 0x62],
        &[0xC3],
        &[0xC3, 0x28],
        &[0xED, 0xA0, 0x80],
        &[0x80, 0xBF, 0xFE, 0xFF],
    ];
    for input in cases.iter() {
        assert_eq!(ascii_to_string(input), String::from_utf8_lossy(input));
    }
    assert_eq!(ascii_to_string(&[0xE2, 0x82]), "\u{fffd}");
}

#[test]
fn orcpt_allows_surrounding_comments() {
    let (rem, split) = orcpt_address(b"(a comment) rfc822 ;bob@example.org").unwrap();
    assert_eq!(rem.len(), 0);
    assert_eq!(split, ("rfc822".to_string(), "bob@example.org".to_string()));
}

#[test]
fn orcpt_rejects_unprintable_bytes() {
    assert!(orcpt_address(b"rfc822;ab+00cd").is_err());
}

#[test]
fn xforward_command_needs_crlf() {
    assert!(xforward_command(b"XFORWARD ADDR=192.0.2.1").is_err());
    assert!(xforward_command(b"NOTXFORWARD ADDR=192.0.2.1\r\n").is_err());
}

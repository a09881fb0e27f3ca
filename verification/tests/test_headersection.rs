use rustyknife::headersection::{header, header_section, HeaderField};

fn ok(name: &[u8], value: &[u8]) -> HeaderField {
    HeaderField::Valid { name: name.to_vec(), value: value.to_vec() }
}

fn bad(raw: &[u8]) -> HeaderField {
    HeaderField::Invalid { raw: raw.to_vec() }
}

fn hs(i: &[u8]) -> Vec<HeaderField> {
    let (rem, parsed) = header_section(i);
    assert_eq!(rem.len(), 0);
    parsed
}

#[test]
fn basic_line() {
    let parsed = hs(b"X-Mozilla-Status: 0001\r\nX-Mozilla-Status2: 00800000\r\n");
    assert_eq!(parsed, [ok(b"X-Mozilla-Status", b" 0001"), ok(b"X-Mozilla-Status2", b" 00800000")]);
}

#[test]
fn bad_nl() {
    let parsed = hs(b"X-Mozilla-Status: 0001\r\nX-Mozilla-Status2: 00800000\nmore stuff\r\n");
    assert_eq!(parsed, [ok(b"X-Mozilla-Status", b" 0001"),
                        ok(b"X-Mozilla-Status2", b" 00800000\nmore stuff")]);
}

#[test]
fn bad_cr() {
    let parsed = hs(b"X-Mozilla-Status: 0001\r\nX-Mozilla-Status2: 00800000\rmore stuff\r\n");
    assert_eq!(parsed, [ok(b"X-Mozilla-Status", b" 0001"),
                        ok(b"X-Mozilla-Status2", b" 00800000\rmore stuff")]);
}

#[test]
fn folded_header() {
    let parsed = hs(b"X-Mozilla-Status: 0001\r\nContent-Type: multipart/alternative;\r\n  boundary=\"------------000500020107050007070009\r\nX-Mozilla-Status2: 00800000\r\n");
    assert_eq!(parsed, [ok(b"X-Mozilla-Status", b" 0001"),
                        ok(b"Content-Type", b" multipart/alternative;\r\n  boundary=\"------------000500020107050007070009"),
                        ok(b"X-Mozilla-Status2", b" 00800000")]);
}

#[test]
fn big_garbage() {
    let parsed = hs(b"X-Mozilla-Status: 0001\r\nbad header 00800000\r\nX-Mozilla-Keys: badly\nformated\nstuff is should \r w\nork#!@#$%\r^&*()_|\"}{P?><           \r\nanother bad header <4F34184B.7040006@example.com>\r\nDate: Thu, 09 Feb 2012 14:02:35 -0500\r\n");
    assert_eq!(parsed, [ok(b"X-Mozilla-Status", b" 0001"),
                        bad(b"bad header 00800000"),
                        ok(b"X-Mozilla-Keys", b" badly\nformated\nstuff is should \r w\nork#!@#$%\r^&*()_|\"}{P?><           "),
                        bad(b"another bad header <4F34184B.7040006@example.com>"),
                        ok(b"Date", b" Thu, 09 Feb 2012 14:02:35 -0500")]);
}

#[test]
fn never_fails_on_garbage() {
    let input: Vec<u8> = vec![0, 255, 13, 13, 10, 10, 0, 65, 58, 66, 13, 10, 13, 10, 99];
    let (rem, fields) = header_section(&input);
    assert!(rem.len() <= input.len());
    assert!(fields.len() >= 1);
}

#[test]
fn body_boundary() {
    let (rem, fields) = header_section(b"A: b\r\n\r\nbody");
    assert_eq!(rem, b"body".to_vec());
    assert_eq!(fields, [ok(b"A", b" b")]);
}

#[test]
fn single_header() {
    let (rem, field) = header(b"A: b\r\nrest").unwrap();
    assert_eq!(field, Some(ok(b"A", b" b")));
    assert_eq!(rem, b"rest".to_vec());
    let (rem2, field2) = header(b"\r\nbody").unwrap();
    assert_eq!(field2, None);
    assert_eq!(rem2, b"body".to_vec());
    assert!(header(b"").is_err());
}

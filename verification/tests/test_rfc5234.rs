use rustyknife::rfc5234::{crlf, vchar};

#[test]
fn vchar_single_byte() {
    let (rem, b) = vchar(b"Az").unwrap();
    assert_eq!(b, b'A');
    assert_eq!(rem, b"z".to_vec());
    assert!(vchar(b" x").is_err());
    assert!(vchar(b"").is_err());
}

#[test]
fn crlf_pair() {
    let (rem, m) = crlf(b"\r\nrest").unwrap();
    assert_eq!(m, b"\r\n".to_vec());
    assert_eq!(rem, b"rest".to_vec());
    assert!(crlf(b"\rx").is_err());
    assert!(crlf(b"\n").is_err());
}

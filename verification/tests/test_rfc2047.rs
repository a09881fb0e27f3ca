use rustyknife::rfc2047::encoded_word;

#[test]
fn encoded_word_b64_sjis() {
    let (rem, decoded) = encoded_word(b"=?x-sjis?B?lEWWQI7Kg4GM9ZTygs6CtSiPzik=?=").unwrap();
    assert_eq!(rem.len(), 0);
    assert_eq!(decoded, "\u{5fcd}\u{6cd5}\u{5199}\u{30e1}\u{5149}\u{98db}\u{3070}\u{3057}(\u{7b11})");
}

#[test]
fn encoded_word_q() {
    let (rem, decoded) = encoded_word(b"=?utf-8?Q?hello_world=21?=").unwrap();
    assert_eq!(rem.len(), 0);
    assert_eq!(decoded, "hello world!");
}

#[test]
fn encoded_word_bad_base64_falls_back() {
    let (rem, decoded) = encoded_word(b"=?us-ascii?B?###?=").unwrap();
    assert_eq!(rem.len(), 0);
    assert_eq!(decoded, "###");
}

#[test]
fn encoded_word_unknown_charset_ascii_fallback() {
    let (rem, decoded) = encoded_word(b"=?no-such-charset?Q?hi?=").unwrap();
    assert_eq!(rem.len(), 0);
    assert_eq!(decoded, "hi");
}

#[test]
fn encoded_word_rejects_shapeless_input() {
    assert!(encoded_word(b"plain text").is_err());
    assert!(encoded_word(b"=?utf-8?Q??=").is_err());
}

use rustyknife::behaviour::Intl;
use rustyknife::rfc5321::{command, data_command, helo_command, mail_command, noop_command,
    rcpt_command, validate_address, Command, ForwardPath, Keyword, Param, Path, ReversePath,
    SMTPString, Value};
use rustyknife::types::{AddressLiteral, Domain, DomainPart, DotAtom, IpAddress, LocalPart,
    Mailbox, QuotedString};

fn dp(value: &str) -> DomainPart {
    DomainPart::Domain(Domain(value.to_string()))
}

fn param(kw: &str, value: Option<&str>) -> Param {
    Param(Keyword(kw.to_string()), value.map(|v| Value(v.to_string())))
}

#[test]
fn test_rfc5321_empty_from() {
    let (_, (path, params)) = mail_command::<Intl>(b"MAIL FROM:<>\r\n").unwrap();
    assert_eq!(path, ReversePath::Null);
    assert_eq!(params, []);
}

#[test]
#[should_panic]
fn test_rfc5321_empty_rcpt() {
    rcpt_command::<Intl>(b"RCPT TO:<>\r\n").unwrap();
}

#[test]
#[should_panic]
fn test_rfc5321_invalid_from() {
    mail_command::<Intl>(b"MAIL FROM:<pa^^&*(sarobas@example.org>\r\n").unwrap();
}

#[test]
#[should_panic]
fn test_rfc5321_invalid_rcpt() {
    rcpt_command::<Intl>(b"RCPT TO:<pa^^&*(sarobas@example.org>\r\n").unwrap();
}

#[test]
fn test_rfc5321_esmtp_param() {
    let (_, (path, params)) = rcpt_command::<Intl>(b"RCPT TO:<mrbob?@example.org> ORCPT=rfc822;mrbob+AD@example.org\r\n").unwrap();
    assert_eq!(path, ForwardPath::Path(Path(
        Mailbox(LocalPart::DotAtom(DotAtom("mrbob?".to_string())), dp("example.org")),
        vec![])));
    assert_eq!(params, [param("ORCPT", Some("rfc822;mrbob+AD@example.org"))]);
}

#[test]
fn test_rfc5321_address_literal_domain() {
    let (_, (path, params)) = rcpt_command::<Intl>(b"RCPT TO:<bob@[127.0.0.1]>\r\n").unwrap();
    assert_eq!(path, ForwardPath::Path(Path(
        Mailbox(LocalPart::DotAtom(DotAtom("bob".to_string())),
                DomainPart::Address(AddressLiteral::IP(IpAddress::V4(127, 0, 0, 1)))),
        vec![])));
    assert_eq!(params, []);
}

#[test]
fn test_rfc5321_esmtp_from() {
    let (_, (path, params)) = mail_command::<Intl>(b"MAIL FROM:<bob@example.com> RET=FULL ENVID=abc123\r\n").unwrap();
    assert_eq!(path, ReversePath::Path(Path(
        Mailbox(LocalPart::DotAtom(DotAtom("bob".to_string())), dp("example.com")),
        vec![])));
    assert_eq!(params, [param("RET", Some("FULL")), param("ENVID", Some("abc123"))]);
}

#[test]
fn test_rfc5321_quoted_from() {
    let (_, (path, params)) = mail_command::<Intl>(b"MAIL FROM:<\"bob the \\\"great \\\\ powerful\\\"\"@example.com>\r\n").unwrap();
    assert_eq!(path, ReversePath::Path(Path(
        Mailbox(LocalPart::Quoted(QuotedString("bob the \"great \\ powerful\"".to_string())),
                dp("example.com")),
        vec![])));
    assert_eq!(params, []);
}

#[test]
fn test_rfc5321_postmaster_rcpt() {
    let (_, (path, params)) = rcpt_command::<Intl>(b"RCPT TO:<pOstmaster>\r\n").unwrap();
    assert_eq!(path, ForwardPath::PostMaster(None));
    assert_eq!(params, []);

    let (_, (path, params)) = rcpt_command::<Intl>(b"RCPT TO:<pOstmaster@Domain.example.org>\r\n").unwrap();
    assert_eq!(path, ForwardPath::PostMaster(Some(Domain::from_smtp(b"Domain.example.org").unwrap())));
    assert_eq!(params, []);
}

#[test]
fn test_rfc5321_validate() {
    assert_eq!(validate_address::<Intl>(b"mrbob@example.org"), true);
    assert_eq!(validate_address::<Intl>(b"mrbob\"@example.org"), false);
}

#[test]
fn validate_literals_and_empty() {
    assert!(validate_address::<Intl>(b"bob@example.org"));
    assert!(!validate_address::<Intl>(b""));
    assert!(validate_address::<Intl>(b"bob@[aoeu:192.0.2.1]"));
}

#[test]
fn ipv6_literals() {
    let (_, (path, _)) = rcpt_command::<Intl>(b"RCPT TO:<bob@[IPv6:2001:db8::1]>\r\n").unwrap();
    assert_eq!(path, ForwardPath::Path(Path(
        Mailbox(LocalPart::DotAtom(DotAtom("bob".to_string())),
                DomainPart::Address(AddressLiteral::IP(
                    IpAddress::V6(0x2001, 0x0db8, 0, 0, 0, 0, 0, 1)))),
        vec![])));
    let (_, (path, _)) = rcpt_command::<Intl>(b"RCPT TO:<bob@[IPv6:12345::]>\r\n").unwrap();
    assert_eq!(path, ForwardPath::Path(Path(
        Mailbox(LocalPart::DotAtom(DotAtom("bob".to_string())),
                DomainPart::Address(AddressLiteral::Tagged("IPv6".to_string(), "12345::".to_string()))),
        vec![])));
}

#[test]
fn commands_and_verbs() {
    assert!(data_command(b"DATA\r\n").is_ok());
    assert!(data_command(b"DATA").is_err());
    let (_, d) = helo_command(b"HELO example.org\r\n").unwrap();
    assert_eq!(d, Domain("example.org".to_string()));
    let (_, v) = noop_command::<Intl>(b"NOOP hi\r\n").unwrap();
    assert_eq!(v, Some(SMTPString("hi".to_string())));
    let (_, c) = command::<Intl>(b"QUIT\r\n").unwrap();
    assert_eq!(c, Command::QUIT);
    let (_, c) = command::<Intl>(b"MAIL FROM:<>\r\n").unwrap();
    assert_eq!(c, Command::MAIL(ReversePath::Null, vec![]));
}

#[test]
fn source_route_path() {
    let (_, (path, _)) = mail_command::<Intl>(b"MAIL FROM:<@relay.example,@other.example:bob@example.org>\r\n").unwrap();
    assert_eq!(path, ReversePath::Path(Path(
        Mailbox(LocalPart::DotAtom(DotAtom("bob".to_string())), dp("example.org")),
        vec![Domain("relay.example".to_string()), Domain("other.example".to_string())])));
}

#[test]
fn param_new_checks_syntax() {
    assert_eq!(Param::new("BODY", Some("8BIT")).unwrap(),
               Param(Keyword("BODY".to_string()), Some(Value("8BIT".to_string()))));
    assert_eq!(Param::new("SMTPUTF8", None).unwrap(),
               Param(Keyword("SMTPUTF8".to_string()), None));
    assert!(Param::new("", None).is_err());
    assert!(Param::new("BO DY", None).is_err());
    assert!(Param::new("BODY", Some("a b")).is_err());
}

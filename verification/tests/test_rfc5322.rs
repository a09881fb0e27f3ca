use rustyknife::behaviour::Intl;
use rustyknife::rfc5322::{from, reply_to, sender, unstructured, Address, Group, Mailbox};
use rustyknife::types::{AddressLiteral, Domain, DomainPart, DotAtom, IpAddress, LocalPart,
    Mailbox as SMTPMailbox};

fn dp(value: &str) -> DomainPart {
    DomainPart::Domain(Domain(value.to_string()))
}

fn mbox(local: &str, domain: &str) -> SMTPMailbox {
    SMTPMailbox(LocalPart::DotAtom(DotAtom(local.to_string())), dp(domain))
}

fn parse_single(parsed: Vec<Address>) -> Mailbox {
    assert_eq!(parsed.len(), 1);
    match parsed.into_iter().next().unwrap() {
        Address::Mailbox(m) => m,
        _ => unreachable!(),
    }
}

#[test]
fn test_rfc5322_concat_atom() {
    let (rem, parsed) = from::<Intl>(b" atom  atom   atom    <ignored@example>\r\n").unwrap();
    assert_eq!(rem.len(), 0);
    assert_eq!(parse_single(parsed).dname, Some("atom atom atom".to_string()));
}

#[test]
fn test_rfc5322_concat_qs() {
    let (rem, parsed) = from::<Intl>(b"\"no\"   \"space\"   space space \"two  space\" \"end space \" <ignored@example>\r\n").unwrap();
    assert_eq!(rem.len(), 0);
    assert_eq!(parse_single(parsed).dname, Some("nospace space space two  spaceend space ".to_string()));
}

#[test]
fn test_rfc5322_simple_from() {
    let (rem, parsed) = from::<Intl>(b"John Doe <jdoe@machine.example>\r\n").unwrap();
    assert_eq!(rem.len(), 0);
    let single = parse_single(parsed);
    assert_eq!(single.dname, Some("John Doe".to_string()));
    assert_eq!(single.address, mbox("jdoe", "machine.example"));
}

#[test]
fn test_rfc5322_simple_sender() {
    let (rem, parsed) = sender::<Intl>(b"Michael Jones <mjones@machine.example>\r\n").unwrap();
    assert_eq!(rem.len(), 0);
    if let Address::Mailbox(Mailbox { dname, address }) = parsed {
        assert_eq!(dname, Some("Michael Jones".to_string()));
        assert_eq!(address, mbox("mjones", "machine.example"));
    } else {
        unreachable!();
    }
}

#[test]
fn test_rfc5322_simple_reply_to() {
    let (rem, parsed) = reply_to::<Intl>(b"\"Mary Smith: Personal Account\" <smith@home.example>\r\n").unwrap();
    assert_eq!(rem.len(), 0);
    let single = parse_single(parsed);
    assert_eq!(single.dname, Some("Mary Smith: Personal Account".to_string()));
    assert_eq!(single.address, mbox("smith", "home.example"));
}

#[test]
fn test_rfc5322_group_reply_to() {
    let (rem, parsed) = reply_to::<Intl>(b"  A Group(Some people)\r\n    :Chris Jones <c@(Chris's host.)public.example>,\r\n        joe@example.org,\r\n John <jdoe@one.test> (my dear friend); (the end of the group)\r\n").unwrap();
    assert_eq!(rem.len(), 0);
    assert_eq!(parsed, [Address::Group(Group {
        dname: "A Group".to_string(),
        members: vec![
            Mailbox { dname: Some("Chris Jones".to_string()), address: mbox("c", "public.example") },
            Mailbox { dname: None, address: mbox("joe", "example.org") },
            Mailbox { dname: Some("John".to_string()), address: mbox("jdoe", "one.test") },
        ],
    })]);
}

#[test]
fn test_rfc5322_multi_reply_to() {
    let (rem, parsed) = reply_to::<Intl>(b"Mary Smith <mary@x.test>, jdoe@example.org, Who? <one@y.test>\r\n").unwrap();
    assert_eq!(rem.len(), 0);
    assert_eq!(parsed, [
        Address::Mailbox(Mailbox { dname: Some("Mary Smith".to_string()), address: mbox("mary", "x.test") }),
        Address::Mailbox(Mailbox { dname: None, address: mbox("jdoe", "example.org") }),
        Address::Mailbox(Mailbox { dname: Some("Who?".to_string()), address: mbox("one", "y.test") }),
    ]);
}

#[test]
fn test_rfc5322_folded_qs() {
    let (rem, parsed) = reply_to::<Intl>(b"\"Mary\r\n Smith\"\r\n <mary@\r\n x.test(comment)>\r\n").unwrap();
    assert_eq!(rem.len(), 0);
    let single = parse_single(parsed);
    assert_eq!(single.dname, Some("Mary Smith".to_string()));
    assert_eq!(single.address, mbox("mary", "x.test"));
}

#[test]
fn intl_subject() {
    let (rem, parsed) = unstructured::<Intl>(b"=?x-sjis?B?lEWWQI7Kg4GM9ZTygs6CtSiPzik=?=").unwrap();
    assert_eq!(rem.len(), 0);
    assert_eq!(parsed, "\u{5fcd}\u{6cd5}\u{5199}\u{30e1}\u{5149}\u{98db}\u{3070}\u{3057}(\u{7b11})");
}

#[test]
fn unstructured_mixed_words() {
    let (rem, parsed) = unstructured::<Intl>(b" plain =?utf-8?Q?one?= =?utf-8?Q?two?= end  ").unwrap();
    assert_eq!(rem.len(), 0);
    assert_eq!(parsed, " plain onetwo end  ");
}

#[test]
fn free_form_literal_kept() {
    let (rem, parsed) = from::<Intl>(b"bob@[somewhere odd]\r\n").unwrap();
    assert_eq!(rem.len(), 0);
    let single = parse_single(parsed);
    assert_eq!(single.address,
        SMTPMailbox(LocalPart::DotAtom(DotAtom("bob".to_string())),
                    DomainPart::Address(AddressLiteral::FreeForm("somewhere odd".to_string()))));
}

#[test]
fn domain_literal_upgraded() {
    let (rem, parsed) = from::<Intl>(b"bob@[192.0.2.1]\r\n").unwrap();
    assert_eq!(rem.len(), 0);
    let single = parse_single(parsed);
    assert_eq!(single.address,
        SMTPMailbox(LocalPart::DotAtom(DotAtom("bob".to_string())),
                    DomainPart::Address(AddressLiteral::IP(IpAddress::V4(192, 0, 2, 1)))));
}

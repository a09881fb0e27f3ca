//! Types shared by the SMTP and Internet Message Format grammars.
//!
//! Newtypes such as [`Domain`] and [`QuotedString`] wrap the text a parser
//! accepted; the parsers' contracts say exactly which text that is.

use vstd::prelude::*;
use vstd::utf8::decode_utf8;
use vstd::utf8::encode_utf8;
use vstd::utf8::valid_utf8;

use crate::util::Cls;
use crate::util::string_from_utf8;
use crate::util::unit_len;
use crate::util::unit_text;
use crate::util::utf8_unit;

verus! {

/// A domain name such as used by DNS.
#[derive(Clone, Debug, PartialEq, Eq)]
pub struct Domain(pub String);

/// A string consisting of atoms separated by periods.
#[derive(Clone, Debug, PartialEq, Eq)]
pub struct DotAtom(pub String);

/// A quoted string that may contain spaces; used in SMTP local parts and in
/// message display names.
#[derive(Clone, Debug, PartialEq, Eq)]
pub struct QuotedString(pub String);

/// The local part of an address, before the `@`.
#[derive(Clone, Debug, PartialEq, Eq)]
pub enum LocalPart {
    /// A simple local part with no spaces.
    DotAtom(DotAtom),
    /// A local part that may contain spaces and special characters.
    Quoted(QuotedString),
}

/// A parsed IP address from an address literal.
#[derive(Clone, Copy, Debug, PartialEq, Eq)]
pub enum IpAddress {
    /// An IPv4 address, one field per dotted octet.
    V4(u8, u8, u8, u8),
    /// An IPv6 address as its eight 16-bit groups, leftmost first.
    V6(u16, u16, u16, u16, u16, u16, u16, u16),
}

/// A network address literal, the bracketed alternative to a domain name.
#[derive(Clone, Debug, PartialEq, Eq)]
pub enum AddressLiteral {
    /// An IPv4 or IPv6 address literal.
    IP(IpAddress),
    /// An address literal in the form `tag:value`.
    Tagged(String, String),
    /// A free-form literal, produced only by the message-format grammar when
    /// the bracketed text fits no stricter form.
    FreeForm(String),
}

/// The domain part of an address, after the `@`.
#[derive(Clone, Debug, PartialEq, Eq)]
pub enum DomainPart {
    /// A DNS domain name such as `example.org`.
    Domain(Domain),
    /// A network address literal such as `[192.0.2.1]`.
    Address(AddressLiteral),
}

/// An email address: local part and domain part.
#[derive(Clone, Debug, PartialEq, Eq)]
pub struct Mailbox(pub LocalPart, pub DomainPart);

impl From<QuotedString> for LocalPart {
    fn from(value: QuotedString) -> (r: LocalPart) {
        LocalPart::Quoted(value)
    }
}

impl vstd::std_specs::convert::FromSpecImpl<QuotedString> for LocalPart {
    open spec fn obeys_from_spec() -> bool {
        true
    }

    open spec fn from_spec(v: QuotedString) -> LocalPart {
        LocalPart::Quoted(v)
    }
}

impl From<DotAtom> for LocalPart {
    fn from(value: DotAtom) -> (r: LocalPart) {
        LocalPart::DotAtom(value)
    }
}

impl vstd::std_specs::convert::FromSpecImpl<DotAtom> for LocalPart {
    open spec fn obeys_from_spec() -> bool {
        true
    }

    open spec fn from_spec(v: DotAtom) -> LocalPart {
        LocalPart::DotAtom(v)
    }
}

impl From<Domain> for DomainPart {
    fn from(value: Domain) -> (r: DomainPart) {
        DomainPart::Domain(value)
    }
}

impl vstd::std_specs::convert::FromSpecImpl<Domain> for DomainPart {
    open spec fn obeys_from_spec() -> bool {
        true
    }

    open spec fn from_spec(v: Domain) -> DomainPart {
        DomainPart::Domain(v)
    }
}

impl From<AddressLiteral> for DomainPart {
    fn from(value: AddressLiteral) -> (r: DomainPart) {
        DomainPart::Address(value)
    }
}

impl vstd::std_specs::convert::FromSpecImpl<AddressLiteral> for DomainPart {
    open spec fn obeys_from_spec() -> bool {
        true
    }

    open spec fn from_spec(v: AddressLiteral) -> DomainPart {
        DomainPart::Address(v)
    }
}


impl View for Domain {
    type V = Seq<char>;

    open spec fn view(&self) -> Seq<char> {
        self.0@
    }
}

impl DeepView for Domain {
    type V = Seq<char>;

    open spec fn deep_view(&self) -> Seq<char> {
        self.0@
    }
}

impl View for DotAtom {
    type V = Seq<char>;

    open spec fn view(&self) -> Seq<char> {
        self.0@
    }
}

impl DeepView for DotAtom {
    type V = Seq<char>;

    open spec fn deep_view(&self) -> Seq<char> {
        self.0@
    }
}

impl View for QuotedString {
    type V = Seq<char>;

    open spec fn view(&self) -> Seq<char> {
        self.0@
    }
}

impl DeepView for QuotedString {
    type V = Seq<char>;

    open spec fn deep_view(&self) -> Seq<char> {
        self.0@
    }
}

/// Specification-level form of an [`AddressLiteral`].
pub enum AddressLiteralView {
    /// Mirror of [`AddressLiteral::IP`].
    IP(IpAddress),
    /// Mirror of [`AddressLiteral::Tagged`].
    Tagged(Seq<char>, Seq<char>),
    /// Mirror of [`AddressLiteral::FreeForm`].
    FreeForm(Seq<char>),
}

impl View for AddressLiteral {
    type V = AddressLiteralView;

    open spec fn view(&self) -> AddressLiteralView {
        match self {
            AddressLiteral::IP(ip) => AddressLiteralView::IP(*ip),
            AddressLiteral::Tagged(t, v) => AddressLiteralView::Tagged(t@, v@),
            AddressLiteral::FreeForm(v) => AddressLiteralView::FreeForm(v@),
        }
    }
}

impl DeepView for AddressLiteral {
    type V = AddressLiteralView;

    open spec fn deep_view(&self) -> AddressLiteralView {
        self.view()
    }
}

/// Specification-level form of a [`LocalPart`].
pub enum LocalPartView {
    /// Mirror of [`LocalPart::DotAtom`].
    DotAtom(Seq<char>),
    /// Mirror of [`LocalPart::Quoted`].
    Quoted(Seq<char>),
}

impl View for LocalPart {
    type V = LocalPartView;

    open spec fn view(&self) -> LocalPartView {
        match self {
            LocalPart::DotAtom(a) => LocalPartView::DotAtom(a.0@),
            LocalPart::Quoted(q) => LocalPartView::Quoted(q.0@),
        }
    }
}

impl DeepView for LocalPart {
    type V = LocalPartView;

    open spec fn deep_view(&self) -> LocalPartView {
        self.view()
    }
}

/// Specification-level form of a [`DomainPart`].
pub enum DomainPartView {
    /// Mirror of [`DomainPart::Domain`].
    Domain(Seq<char>),
    /// Mirror of [`DomainPart::Address`].
    Address(AddressLiteralView),
}

impl View for DomainPart {
    type V = DomainPartView;

    open spec fn view(&self) -> DomainPartView {
        match self {
            DomainPart::Domain(d) => DomainPartView::Domain(d.0@),
            DomainPart::Address(a) => DomainPartView::Address(a@),
        }
    }
}

impl DeepView for DomainPart {
    type V = DomainPartView;

    open spec fn deep_view(&self) -> DomainPartView {
        self.view()
    }
}

/// Specification-level form of a [`Mailbox`].
pub struct MailboxView {
    /// The local part.
    pub local: LocalPartView,
    /// The domain part.
    pub domain: DomainPartView,
}

impl View for Mailbox {
    type V = MailboxView;

    open spec fn view(&self) -> MailboxView {
        MailboxView { local: self.0@, domain: self.1@ }
    }
}

impl DeepView for Mailbox {
    type V = MailboxView;

    open spec fn deep_view(&self) -> MailboxView {
        self.view()
    }
}

/// The UTF-8 bytes of a quoted and escaped rendering of `s` from position
/// `i`: each scalar passes through, except that `"` and `\` gain a leading
/// backslash.
pub open spec fn escaped_text(s: Seq<u8>, i: int) -> Seq<u8>
    decreases s.len() - i,
    when 0 <= i <= s.len()
{
    let l = unit_len(s, i, Cls::AnyAscii, true, true);
    if l == 0 {
        seq![]
    } else if s[i] == 34 || s[i] == 92 {
        seq![92u8, s[i]] + escaped_text(s, i + l)
    } else {
        unit_text(s, i, Cls::AnyAscii, true, true) + escaped_text(s, i + l)
    }
}

proof fn lemma_escaped_text_valid(s: Seq<u8>, i: int)
    requires
        0 <= i <= s.len(),
    ensures
        valid_utf8(escaped_text(s, i)),
    decreases s.len() - i,
{
    broadcast use vstd::utf8::valid_utf8_concat;

    let l = unit_len(s, i, Cls::AnyAscii, true, true);
    if l == 0 {
        assert(valid_utf8(Seq::<u8>::empty()));
    } else {
        crate::util::lemma_unit_text_valid_pub(s, i, Cls::AnyAscii, true, true);
        if s[i] == 34 || s[i] == 92 {
            crate::util::lemma_ascii_seq_valid(seq![92u8, s[i]]);
        }
        lemma_escaped_text_valid(s, i + l);
    }
}

impl QuotedString {
    /// This string enclosed in double quotes, with every double quote and
    /// backslash escaped by a backslash.  Values outside the ASCII range are
    /// not reencoded.
    pub fn quoted(&self) -> (r: String)
        ensures
            r@ == decode_utf8(
                seq![34u8] + escaped_text(encode_utf8(self.0@), 0) + seq![34u8],
            ),
    {
        broadcast use vstd::utf8::encode_utf8_valid_utf8;
        broadcast use vstd::utf8::valid_utf8_concat;

        let ghost sb = encode_utf8(self.0@);
        let b = self.0.as_str().as_bytes();
        let n = b.len();
        let mut out: Vec<u8> = Vec::new();
        out.push(34);
        let mut i: usize = 0;
        loop
            invariant
                n == sb.len(),
                b@ == sb,
                0 <= i <= n,
                out@.len() >= 1 && out@[0] == 34,
                escaped_text(sb, 0) == out@.subrange(1, out@.len() as int) + escaped_text(
                    sb,
                    i as int,
                ),
            decreases n - i,
        {
            if i >= n {
                break;
            }
            let ghost out_pre = out@;
            let bb = b[i];
            let l: usize;
            if bb < 0x80 {
                if bb == 34 || bb == 92 {
                    out.push(92);
                }
                out.push(bb);
                l = 1;
            } else {
                let ul = utf8_unit(b, i);
                if ul > 0 {
                    let mut k: usize = i;
                    while k < i + ul
                        invariant
                            i <= k <= i + ul,
                            i + ul <= n == b@.len(),
                            out@ == out_pre + b@.subrange(i as int, k as int),
                        decreases i + ul - k,
                    {
                        out.push(b[k]);
                        assert(out@ =~= out_pre + b@.subrange(i as int, k + 1));
                        k += 1;
                    }
                    l = ul;
                } else {
                    out.push(0xef);
                    out.push(0xbf);
                    out.push(0xbd);
                    l = 1;
                }
            }
            proof {
                if sb[i as int] == 34 || sb[i as int] == 92 {
                    assert(out@ =~= out_pre + seq![92u8, sb[i as int]]);
                } else {
                    assert(out@ =~= out_pre + unit_text(sb, i as int, Cls::AnyAscii, true, true));
                }
                assert(escaped_text(sb, 0) =~= out@.subrange(1, out@.len() as int)
                    + escaped_text(sb, i + l));
            }
            i += l;
        }
        out.push(34);
        proof {
            lemma_escaped_text_valid(sb, 0);
            crate::util::lemma_ascii_seq_valid(seq![34u8]);
            vstd::utf8::valid_utf8_concat(seq![34u8], escaped_text(sb, 0));
            vstd::utf8::valid_utf8_concat(seq![34u8] + escaped_text(sb, 0), seq![34u8]);
            assert(out@ =~= seq![34u8] + escaped_text(sb, 0) + seq![34u8]);
        }
        string_from_utf8(out)
    }
}


impl AddressLiteral {
    /// Try to upgrade a free-form literal to the stricter IP or tagged
    /// forms: the whole free-form text must match the SMTP address-literal
    /// grammar, else the attempt fails and the literal stays as it is.
    pub fn upgrade(&self) -> (r: Result<AddressLiteral, ()>)
        ensures
            ({
                match self@ {
                    AddressLiteralView::FreeForm(t) => {
                        let b = encode_utf8(t);
                        match crate::rfc5321::inner_lit_spec(b, 0) {
                            Some((e, v)) => {
                                if e == b.len() {
                                    r matches Ok(x) && x@ == v
                                } else {
                                    r is Err
                                }
                            },
                            None => r is Err,
                        }
                    },
                    _ => r is Err,
                }
            }),
    {
        match self {
            AddressLiteral::FreeForm(s) => {
                let b = s.as_str().as_bytes();
                match crate::rfc5321::inner_lit_at(b, 0) {
                    Some((e, v)) => {
                        if e == b.len() {
                            Ok(v)
                        } else {
                            Err(())
                        }
                    },
                    None => Err(()),
                }
            },
            _ => Err(()),
        }
    }
}

impl Domain {
    /// Parse a whole byte string as an SMTP domain.
    pub fn from_smtp(value: &[u8]) -> (r: Result<Domain, crate::util::ParseError>)
        ensures
            r is Ok <==> crate::rfc5321::domain_end(value@, 0) == value@.len()
                && value@.len() > 0,
            r matches Ok(d) ==> d.0@ == decode_utf8(value@),
    {
        match crate::rfc5321::domain_value(value, 0) {
            Some((e, d)) => {
                if e == value.len() {
                    proof {
                        assert(value@.subrange(0, value@.len() as int) =~= value@);
                    }
                    Ok(d)
                } else {
                    Err(crate::util::ParseError)
                }
            },
            None => Err(crate::util::ParseError),
        }
    }

    /// Parse a whole byte string as a message-format domain name (a
    /// dot-atom, which may carry comments and folding whitespace around it).
    pub fn from_imf(value: &[u8]) -> (r: Result<Domain, crate::util::ParseError>)
        ensures
            r is Ok <==> (crate::rfc5322::dot_atom_spec(value@, 0, true) matches Some((e, v))
                && e == value@.len()),
            r matches Ok(d) ==> crate::rfc5322::dot_atom_spec(value@, 0, true) matches Some(
                (e, v),
            ) && d.0@ == v,
    {
        match crate::rfc5322::dot_atom_at(value, 0, true) {
            Some((e, d)) => {
                if e == value.len() {
                    Ok(Domain(d.0))
                } else {
                    Err(crate::util::ParseError)
                }
            },
            None => Err(crate::util::ParseError),
        }
    }
}

} // verus!

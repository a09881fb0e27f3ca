//! Postfix XFORWARD SMTP extension parser.

use vstd::prelude::*;
use vstd::utf8::decode_utf8;
use vstd::string::StringSliceAdditionalSpecFns;

use crate::rfc3461::xtext;
use crate::rfc3461::xtext_bytes;
use crate::rfc3461::xtext_end;
use crate::util::Cls;
use crate::util::ParseError;
use crate::util::ParseResult;
use crate::util::ascii_text;
use crate::util::ascii_only_string;
use crate::util::scan;
use crate::util::scan_end;
use crate::util::tag_nocase_at;
use crate::util::tail_vec;

verus! {

/// XFORWARD attribute name and value; `[UNAVAILABLE]` is represented by
/// `None`.
#[derive(Debug, PartialEq, Eq)]
pub struct Param(pub &'static str, pub Option<String>);

/// Specification-level form of a [`Param`].
pub struct XfParamView {
    /// The normalized attribute name.
    pub name: Seq<char>,
    /// The decoded value; `None` for `[UNAVAILABLE]`.
    pub value: Option<Seq<char>>,
}

impl View for Param {
    type V = XfParamView;

    open spec fn view(&self) -> XfParamView {
        XfParamView {
            name: self.0@,
            value: match self.1 {
                Some(ref v) => Some(v@),
                None => None,
            },
        }
    }
}

impl DeepView for Param {
    type V = XfParamView;

    open spec fn deep_view(&self) -> XfParamView {
        self.view()
    }
}

/// Which attribute name sits at `i`, as its canonical lower-case text, and
/// its length; matching is case-insensitive.
pub open spec fn xf_name_spec(s: Seq<u8>, i: int) -> Option<(int, Seq<char>)> {
    if tag_nocase_at(s, i, "addr".spec_bytes()) {
        Some((4, "addr"@))
    } else if tag_nocase_at(s, i, "helo".spec_bytes()) {
        Some((4, "helo"@))
    } else if tag_nocase_at(s, i, "ident".spec_bytes()) {
        Some((5, "ident"@))
    } else if tag_nocase_at(s, i, "name".spec_bytes()) {
        Some((4, "name"@))
    } else if tag_nocase_at(s, i, "port".spec_bytes()) {
        Some((4, "port"@))
    } else if tag_nocase_at(s, i, "proto".spec_bytes()) {
        Some((5, "proto"@))
    } else if tag_nocase_at(s, i, "source".spec_bytes()) {
        Some((6, "source"@))
    } else {
        None
    }
}

/// What one XFORWARD parameter at `i` parses to: a known attribute name, an
/// equals sign, and either the `[UNAVAILABLE]` marker or an xtext value.
pub open spec fn xf_param_spec(s: Seq<u8>, i: int) -> Option<(int, XfParamView)> {
    match xf_name_spec(s, i) {
        Some((nl, name)) => {
            let q = i + nl;
            if 0 <= q < s.len() && s[q] == 61 {
                if tag_nocase_at(s, q + 1, "[unavailable]".spec_bytes()) {
                    Some((q + 14, XfParamView { name, value: None }))
                } else if 0 <= q + 1 <= s.len() {
                    Some(
                        (
                            xtext_end(s, q + 1),
                            XfParamView {
                                name,
                                value: Some(
                                    decode_utf8(ascii_text(xtext_bytes(s, q + 1))),
                                ),
                            },
                        ),
                    )
                } else {
                    None
                }
            } else {
                None
            }
        },
        None => None,
    }
}

proof fn lemma_xf_bounds(s: Seq<u8>, i: int)
    requires
        0 <= i <= s.len(),
    ensures
        xf_param_spec(s, i) matches Some((e, p)) ==> i < e <= s.len(),
{
    reveal_strlit("addr");
    reveal_strlit("helo");
    reveal_strlit("ident");
    reveal_strlit("name");
    reveal_strlit("port");
    reveal_strlit("proto");
    reveal_strlit("source");
    reveal_strlit("[unavailable]");
    vstd::string::is_ascii_spec_bytes("addr");
    vstd::string::is_ascii_spec_bytes("helo");
    vstd::string::is_ascii_spec_bytes("ident");
    vstd::string::is_ascii_spec_bytes("name");
    vstd::string::is_ascii_spec_bytes("port");
    vstd::string::is_ascii_spec_bytes("proto");
    vstd::string::is_ascii_spec_bytes("source");
    vstd::string::is_ascii_spec_bytes("[unavailable]");
    assert(vstd::string::is_ascii("addr"));
    assert(vstd::string::is_ascii("helo"));
    assert(vstd::string::is_ascii("ident"));
    assert(vstd::string::is_ascii("name"));
    assert(vstd::string::is_ascii("port"));
    assert(vstd::string::is_ascii("proto"));
    assert(vstd::string::is_ascii("source"));
    assert(vstd::string::is_ascii("[unavailable]"));
    assert("addr".spec_bytes().len() == 4);
    assert("helo".spec_bytes().len() == 4);
    assert("ident".spec_bytes().len() == 5);
    assert("name".spec_bytes().len() == 4);
    assert("port".spec_bytes().len() == 4);
    assert("proto".spec_bytes().len() == 5);
    assert("source".spec_bytes().len() == 6);
    assert("[unavailable]".spec_bytes().len() == 13);
    match xf_name_spec(s, i) {
        Some((nl, name)) => {
            let q = i + nl;
            if 0 <= q + 1 <= s.len() {
                crate::rfc3461::lemma_xtext_bounds_pub(s, q + 1);
            }
        },
        None => {},
    }
}

/// Parse one XFORWARD parameter at `i`.
fn xf_param_at(s: &[u8], i: usize) -> (r: Option<(usize, Param)>)
    requires
        i <= s@.len(),
    ensures
        r is Some <==> xf_param_spec(s@, i as int) is Some,
        r matches Some((e, p)) ==> xf_param_spec(s@, i as int) matches Some((se, sv)) && e == se
            && p@ == sv && i < e <= s@.len(),
{
    proof {
        lemma_xf_bounds(s@, i as int);
        reveal_strlit("addr");
        reveal_strlit("helo");
        reveal_strlit("ident");
        reveal_strlit("name");
        reveal_strlit("port");
        reveal_strlit("proto");
        reveal_strlit("source");
        reveal_strlit("[unavailable]");
        vstd::string::is_ascii_spec_bytes("addr");
        vstd::string::is_ascii_spec_bytes("helo");
        vstd::string::is_ascii_spec_bytes("ident");
        vstd::string::is_ascii_spec_bytes("name");
        vstd::string::is_ascii_spec_bytes("port");
        vstd::string::is_ascii_spec_bytes("proto");
        vstd::string::is_ascii_spec_bytes("source");
        vstd::string::is_ascii_spec_bytes("[unavailable]");
        assert(vstd::string::is_ascii("addr"));
        assert(vstd::string::is_ascii("helo"));
        assert(vstd::string::is_ascii("ident"));
        assert(vstd::string::is_ascii("name"));
        assert(vstd::string::is_ascii("port"));
        assert(vstd::string::is_ascii("proto"));
        assert(vstd::string::is_ascii("source"));
        assert(vstd::string::is_ascii("[unavailable]"));
        assert("addr".spec_bytes().len() == 4);
        assert("helo".spec_bytes().len() == 4);
        assert("ident".spec_bytes().len() == 5);
        assert("name".spec_bytes().len() == 4);
        assert("port".spec_bytes().len() == 4);
        assert("proto".spec_bytes().len() == 5);
        assert("source".spec_bytes().len() == 6);
        assert("[unavailable]".spec_bytes().len() == 13);
    }
    let n = s.len();
    let nl: usize;
    let name: &'static str;
    if crate::util::tag_nocase(s, i, "addr".as_bytes()) {
        nl = 4;
        name = "addr";
    } else if crate::util::tag_nocase(s, i, "helo".as_bytes()) {
        nl = 4;
        name = "helo";
    } else if crate::util::tag_nocase(s, i, "ident".as_bytes()) {
        nl = 5;
        name = "ident";
    } else if crate::util::tag_nocase(s, i, "name".as_bytes()) {
        nl = 4;
        name = "name";
    } else if crate::util::tag_nocase(s, i, "port".as_bytes()) {
        nl = 4;
        name = "port";
    } else if crate::util::tag_nocase(s, i, "proto".as_bytes()) {
        nl = 5;
        name = "proto";
    } else if crate::util::tag_nocase(s, i, "source".as_bytes()) {
        nl = 6;
        name = "source";
    } else {
        return None;
    }
    let q = i + nl;
    if !(q < n && s[q] == 61) {
        return None;
    }
    if crate::util::tag_nocase(s, q + 1, "[unavailable]".as_bytes()) {
        return Some((q + 14, Param(name, None)));
    }
    let mut decoded: Vec<u8> = Vec::new();
    let e = xtext(s, q + 1, &mut decoded);
    let v = ascii_only_string(decoded.as_slice());
    Some((e, Param(name, Some(v))))
}

/// Where the XFORWARD parameter list at `i` ends: the first parameter may be
/// preceded by whitespace, later ones must be.
pub open spec fn xf_params_end(s: Seq<u8>, i: int) -> Option<int>
    decreases s.len() - i,
    when 0 <= i <= s.len() via xf_params_end_dec
{
    let f = scan_end(s, i, Cls::Wsp);
    match xf_param_spec(s, f) {
        Some((e, p)) => {
            if i < e <= s.len() {
                let w = scan_end(s, e, Cls::Wsp);
                if w > e && xf_param_spec(s, w) is Some {
                    xf_params_end(s, w)
                } else {
                    Some(e)
                }
            } else {
                None
            }
        },
        None => None,
    }
}

#[via_fn]
proof fn xf_params_end_dec(s: Seq<u8>, i: int) {
    crate::util::lemma_scan_end_pub(s, i, Cls::Wsp);
    lemma_xf_bounds(s, scan_end(s, i, Cls::Wsp));
    match xf_param_spec(s, scan_end(s, i, Cls::Wsp)) {
        Some((e, p)) => {
            if i < e <= s.len() {
                crate::util::lemma_scan_end_pub(s, e, Cls::Wsp);
            }
        },
        None => {},
    }
}

/// The parameters of the XFORWARD list at `i`.
pub open spec fn xf_params_list(s: Seq<u8>, i: int) -> Seq<XfParamView>
    decreases s.len() - i,
    when 0 <= i <= s.len() via xf_params_list_dec
{
    let f = scan_end(s, i, Cls::Wsp);
    match xf_param_spec(s, f) {
        Some((e, p)) => {
            if i < e <= s.len() {
                let w = scan_end(s, e, Cls::Wsp);
                if w > e && xf_param_spec(s, w) is Some {
                    seq![p] + xf_params_list(s, w)
                } else {
                    seq![p]
                }
            } else {
                Seq::empty()
            }
        },
        None => Seq::empty(),
    }
}

#[via_fn]
proof fn xf_params_list_dec(s: Seq<u8>, i: int) {
    crate::util::lemma_scan_end_pub(s, i, Cls::Wsp);
    lemma_xf_bounds(s, scan_end(s, i, Cls::Wsp));
    match xf_param_spec(s, scan_end(s, i, Cls::Wsp)) {
        Some((e, p)) => {
            if i < e <= s.len() {
                crate::util::lemma_scan_end_pub(s, e, Cls::Wsp);
            }
        },
        None => {},
    }
}

/// Parse an XFORWARD `attr1=value attr2=value` parameter string.
///
/// Attribute names must be valid and are normalized to lower case; values
/// are xtext-decoded, with `[UNAVAILABLE]` read as an absent value.
pub fn xforward_params(input: &[u8]) -> (r: ParseResult<Vec<Param>>)
    ensures
        r is Ok <==> xf_params_end(input@, 0) is Some,
        r matches Ok((rem, ps)) ==> xf_params_end(input@, 0) matches Some(e) && ps.deep_view()
            == xf_params_list(input@, 0) && rem@ == input@.subrange(e, input@.len() as int),
{
    match xf_params_inner(input, 0) {
        Some((e, ps)) => Ok((tail_vec(input, e), ps)),
        None => Err(ParseError),
    }
}

fn xf_params_inner(s: &[u8], i: usize) -> (r: Option<(usize, Vec<Param>)>)
    requires
        i <= s@.len(),
    ensures
        r is Some <==> xf_params_end(s@, i as int) is Some,
        r matches Some((e, ps)) ==> xf_params_end(s@, i as int) == Some(e as int) && i < e
            <= s@.len() && ps.deep_view() == xf_params_list(s@, i as int),
{
    proof {
        crate::util::lemma_scan_end_pub(s@, i as int, Cls::Wsp);
    }
    let f = scan(s, i, Cls::Wsp);
    match xf_param_at(s, f) {
        None => None,
        Some((e0, p0)) => {
            let mut out: Vec<Param> = Vec::new();
            out.push(p0);
            proof {
                assert(out.deep_view() =~= seq![p0@]);
            }
            let mut e: usize = e0;
            loop
                invariant
                    i < e <= s@.len(),
                    ({
                        let w = scan_end(s@, e as int, Cls::Wsp);
                        if w > e && xf_param_spec(s@, w) is Some {
                            xf_params_end(s@, i as int) == xf_params_end(s@, w)
                                && xf_params_list(s@, i as int) == out.deep_view()
                                + xf_params_list(s@, w)
                        } else {
                            xf_params_end(s@, i as int) == Some(e as int) && xf_params_list(
                                s@,
                                i as int,
                            ) == out.deep_view()
                        }
                    }),
                decreases s@.len() - e,
            {
                proof {
                    crate::util::lemma_scan_end_pub(s@, e as int, Cls::Wsp);
                }
                let w = scan(s, e, Cls::Wsp);
                if w == e {
                    break;
                }
                match xf_param_at(s, w) {
                    None => {
                        break;
                    },
                    Some((e2, p2)) => {
                        let ghost out_pre = out.deep_view();
                        out.push(p2);
                        proof {
                            assert(out.deep_view() =~= out_pre.push(p2@));
                            crate::util::lemma_scan_end_pub(s@, e2 as int, Cls::Wsp);
                            let w2 = scan_end(s@, e2 as int, Cls::Wsp);
                            if w2 > e2 && xf_param_spec(s@, w2) is Some {
                                assert(xf_params_list(s@, w as int) == seq![p2@]
                                    + xf_params_list(s@, w2));
                                assert(out.deep_view() + xf_params_list(s@, w2) =~= out_pre
                                    + xf_params_list(s@, w as int));
                            } else {
                                assert(xf_params_list(s@, w as int) == seq![p2@]);
                                assert(out.deep_view() =~= out_pre + xf_params_list(
                                    s@,
                                    w as int,
                                ));
                            }
                        }
                        e = e2;
                    },
                }
            }
            Some((e, out))
        },
    }
}

/// Parse a whole `XFORWARD` command line: the verb, its parameters, and a
/// terminating CRLF.
pub fn command(input: &[u8]) -> (r: ParseResult<Vec<Param>>)
    ensures
        r is Ok <==> tag_nocase_at(input@, 0, "XFORWARD ".spec_bytes()) && (xf_params_end(
            input@,
            9,
        ) matches Some(e) && crate::rfc5322::crlf_at(input@, e)),
        r matches Ok((rem, ps)) ==> xf_params_end(input@, 9) matches Some(e) && ps.deep_view()
            == xf_params_list(input@, 9) && crate::rfc5322::crlf_at(input@, e) && rem@
            == input@.subrange(e + 2, input@.len() as int),
{
    proof {
        reveal_strlit("XFORWARD ");
        vstd::string::is_ascii_spec_bytes("XFORWARD ");
        assert(vstd::string::is_ascii("XFORWARD "));
        assert("XFORWARD ".spec_bytes().len() == 9);
    }
    let n = input.len();
    if !crate::util::tag_nocase(input, 0, "XFORWARD ".as_bytes()) {
        return Err(ParseError);
    }
    match xf_params_inner(input, 9) {
        Some((e, ps)) => {
            if n - e >= 2 && input[e] == 13 && input[e + 1] == 10 {
                Ok((tail_vec(input, e + 2), ps))
            } else {
                Err(ParseError)
            }
        },
        None => Err(ParseError),
    }
}

} // verus!

//! Parsers for SMTP command syntax (RFC 5321).
//!
//! Commands are parsed one line at a time, statelessly; the ESMTP parameter
//! list and the address forms (paths, domains, address literals) are shared
//! by the MAIL and RCPT commands.

use vstd::prelude::*;
use vstd::utf8::decode_utf8;
use vstd::utf8::valid_utf8;
use vstd::string::StringSliceAdditionalSpecFns;
use crate::util::tag_nocase_at;

use crate::behaviour::UTF8Policy;
use crate::types::Domain;
use crate::types::DotAtom;
use crate::types::LocalPart;
use crate::types::LocalPartView;
use crate::types::QuotedString;
use crate::util::Cls;
use crate::util::ParseError;
use crate::util::ParseResult;
use crate::util::cls_has;
use crate::util::cls_spec;
use crate::util::run_end;
use crate::util::run_text;
use crate::util::scan;
use crate::util::scan_end;
use crate::util::string_from_utf8;
use crate::util::sub_vec;
use crate::util::tail_vec;
use crate::util::text_run;
use crate::util::text_unit;
use crate::util::unit_len;
use crate::util::unit_text;

verus! {

/// ESMTP parameter keyword: the left side of `BODY=8BIT`.
#[derive(Clone, Debug, PartialEq, Eq)]
pub struct Keyword(pub String);

/// ESMTP parameter value: the right side of `BODY=8BIT`.
#[derive(Clone, Debug, PartialEq, Eq)]
pub struct Value(pub String);

/// An ESMTP parameter: a keyword with an optional value.
#[derive(Clone, Debug, PartialEq, Eq)]
pub struct Param(pub Keyword, pub Option<Value>);

/// Specification-level form of a [`Param`].
pub struct ParamView {
    /// The keyword text.
    pub keyword: Seq<char>,
    /// The value text, when present.
    pub value: Option<Seq<char>>,
}

impl View for Param {
    type V = ParamView;

    open spec fn view(&self) -> ParamView {
        ParamView {
            keyword: self.0.0@,
            value: match self.1 {
                Some(ref v) => Some(v.0@),
                None => None,
            },
        }
    }
}

impl DeepView for Param {
    type V = ParamView;

    open spec fn deep_view(&self) -> ParamView {
        self.view()
    }
}

impl Param {
    /// Build a parameter from plain strings, with syntax checking: the
    /// keyword must be a whole ESMTP keyword, and the value, when given, a
    /// whole ESMTP value under the international policy.
    pub fn new(keyword: &str, value: Option<&str>) -> (r: Result<Param, ()>)
        ensures
            r is Ok <==> ({
                let kb = keyword.spec_bytes();
                &&& kw_end(kb, 0) == kb.len()
                &&& kb.len() > 0
                &&& (match value {
                    Some(v) => {
                        let vb = v.spec_bytes();
                        esmtp_value_end(vb, 0, true) == vb.len() && vb.len() > 0
                    },
                    None => true,
                })
            }),
            r matches Ok(p) ==> p@.keyword == keyword@ && (match (p@.value, value) {
                (Some(a), Some(b)) => a == b@,
                (None, None) => true,
                _ => false,
            }),
    {
        let kb = keyword.as_bytes();
        proof {
            crate::util::lemma_scan_end_pub(kb@, 0, Cls::Ldh);
            if 0 < kb@.len() {
                crate::util::lemma_scan_end_pub(kb@, 1, Cls::Ldh);
            }
        }
        if kb.len() == 0 || !cls_has(Cls::AlNum, kb[0]) {
            return Err(());
        }
        let ke = scan(kb, 1, Cls::Ldh);
        if ke != kb.len() {
            return Err(());
        }
        let val: Option<Value>;
        match value {
            Some(v) => {
                let vb = v.as_bytes();
                let mut scratch: Vec<u8> = Vec::new();
                let ve = text_run(vb, 0, Cls::EsmtpValue, true, false, &mut scratch);
                if !(ve == vb.len() && vb.len() > 0) {
                    return Err(());
                }
                val = Some(Value(String::from_str(v)));
            },
            None => {
                val = None;
            },
        }
        Ok(Param(Keyword(String::from_str(keyword)), val))
    }
}

/// End of an ESMTP keyword at `i`: a letter or digit followed by letters,
/// digits and hyphens; `i` itself when no keyword starts there.
pub open spec fn kw_end(s: Seq<u8>, i: int) -> int {
    if 0 <= i < s.len() && cls_spec(Cls::AlNum, s[i]) {
        scan_end(s, i + 1, Cls::Ldh)
    } else {
        i
    }
}

/// End of an ESMTP value at `i`: at least one printable-except-`=` byte,
/// extended to well-formed UTF-8 under the international policy.
pub open spec fn esmtp_value_end(s: Seq<u8>, i: int, intl: bool) -> int {
    run_end(s, i, Cls::EsmtpValue, intl, false)
}

/// What one ESMTP parameter at `i` parses to: its end, keyword bytes and
/// optional value bytes.
pub open spec fn esmtp_param_spec(s: Seq<u8>, i: int, intl: bool) -> Option<
    (int, Seq<u8>, Option<Seq<u8>>),
> {
    let k = kw_end(s, i);
    if k > i {
        if k < s.len() && s[k] == 61 && esmtp_value_end(s, k + 1, intl) > k + 1 {
            let v = esmtp_value_end(s, k + 1, intl);
            Some((v, s.subrange(i, k), Some(run_text(s, k + 1, Cls::EsmtpValue, intl, false))))
        } else {
            Some((k, s.subrange(i, k), None))
        }
    } else {
        None
    }
}

/// Where the ESMTP parameter list starting at `i` ends: parameters separated
/// by runs of whitespace.  `None` when no parameter starts at `i`.
pub open spec fn esmtp_params_end(s: Seq<u8>, i: int, intl: bool) -> Option<int>
    decreases s.len() - i,
    when 0 <= i <= s.len() via esmtp_params_end_dec
{
    match esmtp_param_spec(s, i, intl) {
        Some((e, k, v)) => {
            if i < e <= s.len() {
                let w = scan_end(s, e, Cls::Wsp);
                if w > e && esmtp_param_spec(s, w, intl) is Some {
                    esmtp_params_end(s, w, intl)
                } else {
                    Some(e)
                }
            } else {
                None
            }
        },
        None => None,
    }
}

#[via_fn]
proof fn esmtp_params_end_dec(s: Seq<u8>, i: int, intl: bool) {
    if i < s.len() {
        crate::util::lemma_scan_end_pub(s, i + 1, Cls::Ldh);
    }
    match esmtp_param_spec(s, i, intl) {
        Some((e, k, v)) => {
            if i < e <= s.len() {
                crate::util::lemma_scan_end_pub(s, e, Cls::Wsp);
            }
        },
        None => {},
    }
}

/// The parameters of the ESMTP parameter list starting at `i`, already
/// decoded to text.
pub open spec fn esmtp_params_list(s: Seq<u8>, i: int, intl: bool) -> Seq<ParamView>
    decreases s.len() - i,
    when 0 <= i <= s.len() via esmtp_params_list_dec
{
    match esmtp_param_spec(s, i, intl) {
        Some((e, k, v)) => {
            let pv = ParamView {
                keyword: decode_utf8(k),
                value: match v {
                    Some(vb) => Some(decode_utf8(vb)),
                    None => None,
                },
            };
            if i < e <= s.len() {
                let w = scan_end(s, e, Cls::Wsp);
                if w > e && esmtp_param_spec(s, w, intl) is Some {
                    seq![pv] + esmtp_params_list(s, w, intl)
                } else {
                    seq![pv]
                }
            } else {
                seq![]
            }
        },
        None => seq![],
    }
}

#[via_fn]
proof fn esmtp_params_list_dec(s: Seq<u8>, i: int, intl: bool) {
    if i < s.len() {
        crate::util::lemma_scan_end_pub(s, i + 1, Cls::Ldh);
    }
    match esmtp_param_spec(s, i, intl) {
        Some((e, k, v)) => {
            if i < e <= s.len() {
                crate::util::lemma_scan_end_pub(s, e, Cls::Wsp);
            }
        },
        None => {},
    }
}

proof fn lemma_esmtp_param_bounds(s: Seq<u8>, i: int, intl: bool)
    requires
        0 <= i <= s.len(),
    ensures
        esmtp_param_spec(s, i, intl) matches Some((e, k, v)) ==> i < e <= s.len() && valid_utf8(
            k,
        ) && (v matches Some(vb) ==> valid_utf8(vb)),
{
    if 0 <= i < s.len() && cls_spec(Cls::AlNum, s[i]) {
        crate::util::lemma_scan_end_pub(s, i + 1, Cls::Ldh);
        let k = kw_end(s, i);
        assert(forall|m: int| i <= m < k ==> #[trigger] s[m] < 0x80);
        crate::util::lemma_ascii_seq_valid(s.subrange(i, k));
        if k < s.len() {
            crate::util::lemma_run_end_bounds_pub(s, k + 1, Cls::EsmtpValue, intl, false);
            crate::util::lemma_run_text_valid(s, k + 1, Cls::EsmtpValue, intl, false);
        }
    }
}

proof fn lemma_params_end_some(s: Seq<u8>, i: int, intl: bool)
    requires
        0 <= i <= s.len(),
        esmtp_param_spec(s, i, intl) is Some,
    ensures
        esmtp_params_end(s, i, intl) is Some,
    decreases s.len() - i,
{
    lemma_esmtp_param_bounds(s, i, intl);
    match esmtp_param_spec(s, i, intl) {
        Some((e, k, v)) => {
            crate::util::lemma_scan_end_pub(s, e, Cls::Wsp);
            let w = scan_end(s, e, Cls::Wsp);
            if w > e && esmtp_param_spec(s, w, intl) is Some {
                lemma_params_end_some(s, w, intl);
            }
        },
        None => {},
    }
}

/// Parse one ESMTP parameter at `i`.
fn esmtp_param_at(s: &[u8], i: usize, intl: bool) -> (r: Option<(usize, Param)>)
    requires
        i <= s@.len(),
    ensures
        r is Some <==> esmtp_param_spec(s@, i as int, intl) is Some,
        r matches Some((e, p)) ==> esmtp_param_spec(s@, i as int, intl) matches Some(
            (se, kb, vb),
        ) && e == se && i < e <= s@.len() && p@.keyword == decode_utf8(kb) && (match (
            p@.value,
            vb,
        ) {
            (Some(a), Some(b)) => a == decode_utf8(b),
            (None, None) => true,
            _ => false,
        }),
{
    proof {
        lemma_esmtp_param_bounds(s@, i as int, intl);
    }
    let n = s.len();
    if !(i < n && cls_has(Cls::AlNum, s[i])) {
        return None;
    }
    let k = scan(s, i, Cls::Ldh);
    proof {
        crate::util::lemma_scan_end_pub(s@, i as int, Cls::Ldh);
        crate::util::lemma_scan_end_pub(s@, i + 1, Cls::Ldh);
        assert(scan_end(s@, i as int, Cls::Ldh) == scan_end(s@, i + 1, Cls::Ldh));
        assert(forall|m: int| i <= m < k ==> #[trigger] s@[m] < 0x80);
        crate::util::lemma_ascii_seq_valid(s@.subrange(i as int, k as int));
    }
    let kw = Keyword(string_from_utf8(sub_vec(s, i, k)));
    if k < n && s[k] == 61 {
        let mut vbuf: Vec<u8> = Vec::new();
        let v = text_run(s, k + 1, Cls::EsmtpValue, intl, false, &mut vbuf);
        if v > k + 1 {
            proof {
                crate::util::lemma_run_text_valid(s@, k + 1, Cls::EsmtpValue, intl, false);
            }
            return Some((v, Param(kw, Some(Value(string_from_utf8(vbuf))))));
        }
    }
    Some((k, Param(kw, None)))
}

/// Parse the ESMTP parameter list at `i`: parameters separated by runs of
/// whitespace.
fn esmtp_params_at(s: &[u8], i: usize, intl: bool) -> (r: Option<(usize, Vec<Param>)>)
    requires
        i <= s@.len(),
    ensures
        r is Some <==> esmtp_params_end(s@, i as int, intl) is Some,
        r matches Some((e, ps)) ==> esmtp_params_end(s@, i as int, intl) == Some(e as int) && i
            < e <= s@.len() && ps.deep_view() == esmtp_params_list(s@, i as int, intl),
{
    let n = s.len();
    let mut out: Vec<Param> = Vec::new();
    match esmtp_param_at(s, i, intl) {
        None => {
            return None;
        },
        Some((e0, p0)) => {
            proof {
                assert(Seq::<ParamView>::empty().push(p0@) =~= seq![p0@]);
            }
            out.push(p0);
            proof {
                assert(out.deep_view() =~= seq![p0@]);
                lemma_params_end_some(s@, i as int, intl);
                crate::util::lemma_scan_end_pub(s@, e0 as int, Cls::Wsp);
                let w0 = scan_end(s@, e0 as int, Cls::Wsp);
                if w0 > e0 && esmtp_param_spec(s@, w0, intl) is Some {
                    assert(esmtp_params_list(s@, i as int, intl) =~= seq![p0@]
                        + esmtp_params_list(s@, w0, intl));
                } else {
                    assert(esmtp_params_list(s@, i as int, intl) =~= seq![p0@]);
                }
            }
            let mut e: usize = e0;
            loop
                invariant
                    i < e <= n == s@.len(),
                    esmtp_params_end(s@, i as int, intl) is Some,
                    ({
                        let w = scan_end(s@, e as int, Cls::Wsp);
                        if w > e && esmtp_param_spec(s@, w, intl) is Some {
                            esmtp_params_end(s@, i as int, intl) == esmtp_params_end(s@, w, intl)
                                && esmtp_params_list(s@, i as int, intl) == out.deep_view()
                                + esmtp_params_list(s@, w, intl)
                        } else {
                            esmtp_params_end(s@, i as int, intl) == Some(e as int)
                                && esmtp_params_list(s@, i as int, intl) == out.deep_view()
                        }
                    }),
                decreases n - e,
            {
                proof {
                    crate::util::lemma_scan_end_pub(s@, e as int, Cls::Wsp);
                }
                let w = scan(s, e, Cls::Wsp);
                if w == e {
                    break;
                }
                match esmtp_param_at(s, w, intl) {
                    None => {
                        break;
                    },
                    Some((e2, p2)) => {
                        let ghost out_pre = out.deep_view();
                        out.push(p2);
                        proof {
                            assert(out.deep_view() =~= out_pre.push(p2@));
                            let w2 = scan_end(s@, e2 as int, Cls::Wsp);
                            if w2 > e2 && esmtp_param_spec(s@, w2, intl) is Some {
                                assert(esmtp_params_list(s@, w as int, intl) == seq![p2@]
                                    + esmtp_params_list(s@, w2, intl));
                                assert(out.deep_view() + esmtp_params_list(s@, w2, intl)
                                    =~= out_pre + esmtp_params_list(s@, w as int, intl));
                            } else {
                                assert(esmtp_params_list(s@, w as int, intl) == seq![p2@]);
                                assert(out.deep_view() =~= out_pre + esmtp_params_list(
                                    s@,
                                    w as int,
                                    intl,
                                ));
                            }
                        }
                        e = e2;
                    },
                }
            }
            Some((e, out))
        },
    }
}


/// Strip trailing hyphens from the run `[lo, e)`.
pub open spec fn strip_hyphens(s: Seq<u8>, lo: int, e: int) -> int
    decreases e - lo,
    when lo <= e
{
    if e > lo && s.len() >= e && s[e - 1] == 45 {
        strip_hyphens(s, lo, e - 1)
    } else {
        e
    }
}

proof fn lemma_strip_hyphens(s: Seq<u8>, lo: int, e: int)
    requires
        0 <= lo <= e <= s.len(),
    ensures
        lo <= strip_hyphens(s, lo, e) <= e,
    decreases e - lo,
{
    if e > lo && s[e - 1] == 45 {
        lemma_strip_hyphens(s, lo, e - 1);
    }
}

/// End of a `Let-dig [Ldh-str]` sub-domain at `i`: a letter or digit, then
/// letters, digits and hyphens not ending in a hyphen.  `i` when none starts
/// there.
pub open spec fn sub_domain_end(s: Seq<u8>, i: int) -> int {
    if 0 <= i < s.len() && cls_spec(Cls::AlNum, s[i]) {
        let e = strip_hyphens(s, i + 1, scan_end(s, i + 1, Cls::Ldh));
        if e > i + 1 {
            e
        } else {
            i + 1
        }
    } else {
        i
    }
}

/// End of the dotted tail of a domain: `"." sub-domain` groups.
pub open spec fn domain_dots_end(s: Seq<u8>, d: int) -> int
    decreases s.len() - d,
    when 0 <= d <= s.len() via domain_dots_end_dec
{
    if d < s.len() && s[d] == 46 && sub_domain_end(s, d + 1) > d + 1 {
        domain_dots_end(s, sub_domain_end(s, d + 1))
    } else {
        d
    }
}

#[via_fn]
proof fn domain_dots_end_dec(s: Seq<u8>, d: int) {
    if d < s.len() {
        lemma_sub_domain_bounds(s, d + 1);
    }
}

proof fn lemma_sub_domain_bounds(s: Seq<u8>, i: int)
    requires
        0 <= i <= s.len(),
    ensures
        i <= sub_domain_end(s, i) <= s.len(),
        forall|m: int| i <= m < sub_domain_end(s, i) ==> #[trigger] s[m] < 0x80,
{
    if 0 <= i < s.len() && cls_spec(Cls::AlNum, s[i]) {
        crate::util::lemma_scan_end_pub(s, i + 1, Cls::Ldh);
        lemma_strip_hyphens(s, i + 1, scan_end(s, i + 1, Cls::Ldh));
    }
}

/// Where the domain starting at `i` ends, or `i` when no domain starts
/// there: dot-separated sub-domains.
pub open spec fn domain_end(s: Seq<u8>, i: int) -> int {
    if sub_domain_end(s, i) > i {
        domain_dots_end(s, sub_domain_end(s, i))
    } else {
        i
    }
}

proof fn lemma_domain_bounds(s: Seq<u8>, i: int)
    requires
        0 <= i <= s.len(),
    ensures
        i <= domain_end(s, i) <= s.len(),
        forall|m: int| i <= m < domain_end(s, i) ==> #[trigger] s[m] < 0x80,
        valid_utf8(s.subrange(i, domain_end(s, i))),
{
    lemma_sub_domain_bounds(s, i);
    if sub_domain_end(s, i) > i {
        lemma_domain_dots(s, sub_domain_end(s, i), i);
    }
    crate::util::lemma_ascii_seq_valid(s.subrange(i, domain_end(s, i)));
}

proof fn lemma_domain_dots(s: Seq<u8>, d: int, i: int)
    requires
        0 <= i <= d <= s.len(),
        forall|m: int| i <= m < d ==> #[trigger] s[m] < 0x80,
    ensures
        d <= domain_dots_end(s, d) <= s.len(),
        forall|m: int| i <= m < domain_dots_end(s, d) ==> #[trigger] s[m] < 0x80,
    decreases s.len() - d,
{
    if d < s.len() {
        lemma_sub_domain_bounds(s, d + 1);
        if s[d] == 46 && sub_domain_end(s, d + 1) > d + 1 {
            lemma_domain_dots(s, sub_domain_end(s, d + 1), i);
        }
    }
}

fn strip_hyphens_exec(s: &[u8], lo: usize, e: usize) -> (r: usize)
    requires
        lo <= e <= s@.len(),
    ensures
        r == strip_hyphens(s@, lo as int, e as int),
        lo <= r <= e,
{
    proof {
        lemma_strip_hyphens(s@, lo as int, e as int);
    }
    let mut p: usize = e;
    while p > lo && s[p - 1] == 45
        invariant
            lo <= p <= e <= s@.len(),
            strip_hyphens(s@, lo as int, e as int) == strip_hyphens(s@, lo as int, p as int),
        decreases p,
    {
        p -= 1;
    }
    p
}

fn sub_domain_at(s: &[u8], i: usize) -> (r: usize)
    requires
        i <= s@.len(),
    ensures
        r == sub_domain_end(s@, i as int),
        i <= r <= s@.len(),
{
    proof {
        lemma_sub_domain_bounds(s@, i as int);
    }
    if i < s.len() && cls_has(Cls::AlNum, s[i]) {
        proof {
            crate::util::lemma_scan_end_pub(s@, i + 1, Cls::Ldh);
        }
        let run = scan(s, i + 1, Cls::Ldh);
        let e = strip_hyphens_exec(s, i + 1, run);
        if e > i + 1 {
            e
        } else {
            i + 1
        }
    } else {
        i
    }
}

/// Parse a domain at `i`: its end position, or `i` when none starts there.
fn domain_at(s: &[u8], i: usize) -> (r: usize)
    requires
        i <= s@.len(),
    ensures
        r == domain_end(s@, i as int),
        i <= r <= s@.len(),
{
    proof {
        lemma_domain_bounds(s@, i as int);
        lemma_sub_domain_bounds(s@, i as int);
    }
    let first = sub_domain_at(s, i);
    if first == i {
        return i;
    }
    let mut d: usize = first;
    loop
        invariant
            i <= d <= s@.len(),
            domain_dots_end(s@, first as int) == domain_dots_end(s@, d as int),
        decreases s@.len() - d,
    {
        proof {
            if d < s@.len() {
                lemma_sub_domain_bounds(s@, d + 1);
            }
        }
        if d < s.len() && s[d] == 46 {
            let nxt = sub_domain_at(s, d + 1);
            if nxt > d + 1 {
                d = nxt;
                continue;
            }
        }
        break;
    }
    d
}

/// Parse a domain at `i` returning its text.
pub(crate) fn domain_value(s: &[u8], i: usize) -> (r: Option<(usize, Domain)>)
    requires
        i <= s@.len(),
    ensures
        r is Some <==> domain_end(s@, i as int) > i,
        r matches Some((e, d)) ==> e == domain_end(s@, i as int) && i < e <= s@.len() && d.0@
            == decode_utf8(s@.subrange(i as int, e as int)),
{
    proof {
        lemma_domain_bounds(s@, i as int);
    }
    let e = domain_at(s, i);
    if e > i {
        Some((e, Domain(string_from_utf8(sub_vec(s, i, e)))))
    } else {
        None
    }
}

/// End of the `@domain` groups of a source route starting at `i`, and the
/// route's domains.  `None` when no `@domain` starts there.
pub open spec fn adl_end(s: Seq<u8>, i: int) -> Option<int>
    decreases s.len() - i,
    when 0 <= i <= s.len() via adl_end_dec
{
    if i < s.len() && s[i] == 64 && domain_end(s, i + 1) > i + 1 {
        let d = domain_end(s, i + 1);
        if d < s.len() && s[d] == 44 {
            match adl_end(s, d + 1) {
                Some(e) => Some(e),
                None => Some(d),
            }
        } else {
            Some(d)
        }
    } else {
        None
    }
}

#[via_fn]
proof fn adl_end_dec(s: Seq<u8>, i: int) {
    if i < s.len() {
        lemma_domain_bounds(s, i + 1);
    }
}

/// The domains of the source route starting at `i`.
pub open spec fn adl_list(s: Seq<u8>, i: int) -> Seq<Seq<char>>
    decreases s.len() - i,
    when 0 <= i <= s.len() via adl_list_dec
{
    if i < s.len() && s[i] == 64 && domain_end(s, i + 1) > i + 1 {
        let d = domain_end(s, i + 1);
        let dom = decode_utf8(s.subrange(i + 1, d));
        if d < s.len() && s[d] == 44 {
            match adl_end(s, d + 1) {
                Some(e) => seq![dom] + adl_list(s, d + 1),
                None => seq![dom],
            }
        } else {
            seq![dom]
        }
    } else {
        seq![]
    }
}

#[via_fn]
proof fn adl_list_dec(s: Seq<u8>, i: int) {
    if i < s.len() {
        lemma_domain_bounds(s, i + 1);
    }
}

proof fn lemma_adl_bounds(s: Seq<u8>, i: int)
    requires
        0 <= i <= s.len(),
    ensures
        adl_end(s, i) matches Some(e) ==> i < e <= s.len(),
    decreases s.len() - i,
{
    if i < s.len() {
        lemma_domain_bounds(s, i + 1);
        let d = domain_end(s, i + 1);
        if i < s.len() && s[i] == 64 && d > i + 1 && d < s.len() && s[d] == 44 {
            lemma_adl_bounds(s, d + 1);
        }
    }
}

/// Parse the source route at `i`: `@domain` groups separated by commas.
fn adl_at(s: &[u8], i: usize) -> (r: Option<(usize, Vec<Domain>)>)
    requires
        i <= s@.len(),
    ensures
        r is Some <==> adl_end(s@, i as int) is Some,
        r matches Some((e, ds)) ==> adl_end(s@, i as int) == Some(e as int) && i < e <= s@.len()
            && ds.deep_view() == adl_list(s@, i as int),
    decreases s@.len() - i,
{
    proof {
        lemma_adl_bounds(s@, i as int);
        if i < s@.len() {
            lemma_domain_bounds(s@, i + 1);
        }
    }
    let n = s.len();
    if !(i < n && s[i] == 64) {
        return None;
    }
    match domain_value(s, i + 1) {
        None => None,
        Some((d, dom)) => {
            let mut out: Vec<Domain> = Vec::new();
            out.push(dom);
            if d < n && s[d] == 44 {
                match adl_at(s, d + 1) {
                    Some((e, mut rest)) => {
                        let ghost out_pre = out.deep_view();
                        let ghost rest_pre = rest.deep_view();
                        out.append(&mut rest);
                        proof {
                            assert(out.deep_view() =~= out_pre + rest_pre);
                            assert(out.deep_view() =~= adl_list(s@, i as int));
                        }
                        Some((e, out))
                    },
                    None => {
                        proof {
                            assert(out.deep_view() =~= adl_list(s@, i as int));
                        }
                        Some((d, out))
                    },
                }
            } else {
                proof {
                    assert(out.deep_view() =~= adl_list(s@, i as int));
                }
                Some((d, out))
            }
        },
    }
}


/// End of the dotted tail of an SMTP dot-string: `"." atom` groups, where an
/// atom is a run of atom text.
pub open spec fn dot_string_dots_end(s: Seq<u8>, d: int, intl: bool) -> int
    decreases s.len() - d,
    when 0 <= d <= s.len() via dot_string_dots_end_dec
{
    if d < s.len() && s[d] == 46 && run_end(s, d + 1, Cls::Atext, intl, false) > d + 1 {
        dot_string_dots_end(s, run_end(s, d + 1, Cls::Atext, intl, false), intl)
    } else {
        d
    }
}

#[via_fn]
proof fn dot_string_dots_end_dec(s: Seq<u8>, d: int, intl: bool) {
    if d < s.len() {
        crate::util::lemma_run_end_bounds_pub(s, d + 1, Cls::Atext, intl, false);
    }
}

/// Where the SMTP dot-string starting at `i` ends, or `i` when none starts
/// there.
pub open spec fn dot_string_end(s: Seq<u8>, i: int, intl: bool) -> int {
    if run_end(s, i, Cls::Atext, intl, false) > i {
        dot_string_dots_end(s, run_end(s, i, Cls::Atext, intl, false), intl)
    } else {
        i
    }
}

pub(crate) proof fn lemma_dot_string_bounds(s: Seq<u8>, i: int, intl: bool)
    requires
        0 <= i <= s.len(),
    ensures
        i <= dot_string_end(s, i, intl) <= s.len(),
        valid_utf8(s.subrange(i, dot_string_end(s, i, intl))),
{
    crate::util::lemma_run_end_bounds_pub(s, i, Cls::Atext, intl, false);
    let r = run_end(s, i, Cls::Atext, intl, false);
    if r > i {
        crate::util::lemma_run_text_valid(s, i, Cls::Atext, intl, false);
        crate::util::lemma_run_raw(s, i, Cls::Atext, intl);
        lemma_dot_string_dots(s, r, i, intl);
    } else {
        crate::util::lemma_ascii_seq_valid(s.subrange(i, i));
    }
}

proof fn lemma_dot_string_dots(s: Seq<u8>, d: int, i: int, intl: bool)
    requires
        0 <= i <= d <= s.len(),
        valid_utf8(s.subrange(i, d)),
    ensures
        d <= dot_string_dots_end(s, d, intl) <= s.len(),
        valid_utf8(s.subrange(i, dot_string_dots_end(s, d, intl))),
    decreases s.len() - d,
{
    broadcast use vstd::utf8::valid_utf8_concat;

    if d < s.len() {
        crate::util::lemma_run_end_bounds_pub(s, d + 1, Cls::Atext, intl, false);
        let r = run_end(s, d + 1, Cls::Atext, intl, false);
        if s[d] == 46 && r > d + 1 {
            crate::util::lemma_run_text_valid(s, d + 1, Cls::Atext, intl, false);
            crate::util::lemma_run_raw(s, d + 1, Cls::Atext, intl);
            crate::util::lemma_ascii_seq_valid(seq![46u8]);
            assert(s.subrange(i, r) =~= s.subrange(i, d) + seq![46u8] + s.subrange(d + 1, r));
            vstd::utf8::valid_utf8_concat(s.subrange(i, d), seq![46u8]);
            vstd::utf8::valid_utf8_concat(s.subrange(i, d) + seq![46u8], s.subrange(d + 1, r));
            lemma_dot_string_dots(s, r, i, intl);
        }
    }
}

/// Parse an SMTP dot-string at `i`.
pub(crate) fn dot_string_at(s: &[u8], i: usize, intl: bool) -> (r: Option<(usize, DotAtom)>)
    requires
        i <= s@.len(),
    ensures
        r is Some <==> dot_string_end(s@, i as int, intl) > i,
        r matches Some((e, d)) ==> e == dot_string_end(s@, i as int, intl) && i < e <= s@.len()
            && d.0@ == decode_utf8(s@.subrange(i as int, e as int)),
{
    proof {
        lemma_dot_string_bounds(s@, i as int, intl);
        crate::util::lemma_run_end_bounds_pub(s@, i as int, Cls::Atext, intl, false);
    }
    let mut scratch: Vec<u8> = Vec::new();
    let first = text_run(s, i, Cls::Atext, intl, false, &mut scratch);
    if first == i {
        return None;
    }
    let mut d: usize = first;
    loop
        invariant
            i < first <= d <= s@.len(),
            dot_string_dots_end(s@, first as int, intl) == dot_string_dots_end(
                s@,
                d as int,
                intl,
            ),
        decreases s@.len() - d,
    {
        proof {
            if d < s@.len() {
                crate::util::lemma_run_end_bounds_pub(s@, d + 1, Cls::Atext, intl, false);
            }
        }
        if d < s.len() && s[d] == 46 {
            let mut scratch2: Vec<u8> = Vec::new();
            let nxt = text_run(s, d + 1, Cls::Atext, intl, false, &mut scratch2);
            if nxt > d + 1 {
                d = nxt;
                continue;
            }
        }
        break;
    }
    proof {
        assert(d as int == dot_string_end(s@, i as int, intl));
    }
    Some((d, DotAtom(string_from_utf8(sub_vec(s, i, d)))))
}

/// Where the SMTP quoted string starting at `i` ends and what text it holds:
/// quoted-string text and quoted pairs between double quotes, with no
/// surrounding whitespace.
pub open spec fn smtp_qs_end(s: Seq<u8>, p: int, intl: bool) -> Option<int>
    decreases s.len() - p,
    when 0 <= p <= s.len()
{
    if 0 <= p < s.len() && s[p] == 92 && unit_len(s, p + 1, Cls::Printable, false, false) > 0 {
        smtp_qs_end(s, p + 2, intl)
    } else if unit_len(s, p, Cls::QtextSmtp, intl, false) > 0 {
        smtp_qs_end(s, p + unit_len(s, p, Cls::QtextSmtp, intl, false), intl)
    } else if p < s.len() && s[p] == 34 {
        Some(p + 1)
    } else {
        None
    }
}

/// The text inside an SMTP quoted string, scanning from `p` (just after the
/// opening quote).
pub open spec fn smtp_qs_text(s: Seq<u8>, p: int, intl: bool) -> Seq<u8>
    decreases s.len() - p,
    when 0 <= p <= s.len()
{
    if 0 <= p < s.len() && s[p] == 92 && unit_len(s, p + 1, Cls::Printable, false, false) > 0 {
        unit_text(s, p + 1, Cls::Printable, false, false) + smtp_qs_text(s, p + 2, intl)
    } else if unit_len(s, p, Cls::QtextSmtp, intl, false) > 0 {
        unit_text(s, p, Cls::QtextSmtp, intl, false) + smtp_qs_text(
            s,
            p + unit_len(s, p, Cls::QtextSmtp, intl, false),
            intl,
        )
    } else {
        seq![]
    }
}

proof fn lemma_smtp_qs_bounds(s: Seq<u8>, p: int, intl: bool)
    requires
        0 <= p <= s.len(),
    ensures
        smtp_qs_end(s, p, intl) matches Some(e) ==> p < e <= s.len(),
        valid_utf8(smtp_qs_text(s, p, intl)),
    decreases s.len() - p,
{
    broadcast use vstd::utf8::valid_utf8_concat;

    crate::util::lemma_ascii_seq_valid(Seq::<u8>::empty());
    if 0 <= p < s.len() && s[p] == 92 && unit_len(s, p + 1, Cls::Printable, false, false) > 0 {
        crate::util::lemma_unit_text_valid_pub(s, p + 1, Cls::Printable, false, false);
        lemma_smtp_qs_bounds(s, p + 2, intl);
    } else if unit_len(s, p, Cls::QtextSmtp, intl, false) > 0 {
        crate::util::lemma_unit_text_valid_pub(s, p, Cls::QtextSmtp, intl, false);
        lemma_smtp_qs_bounds(s, p + unit_len(s, p, Cls::QtextSmtp, intl, false), intl);
    }
}

/// Parse an SMTP quoted string at `i`.
fn smtp_qs_at(s: &[u8], i: usize, intl: bool) -> (r: Option<(usize, QuotedString)>)
    requires
        i <= s@.len(),
    ensures
        ({
            let sp = if 0 <= i < s@.len() && s@[i as int] == 34 {
                smtp_qs_end(s@, i + 1, intl)
            } else {
                None
            };
            &&& r is Some <==> sp is Some
            &&& (r matches Some((e, q)) ==> sp == Some(e as int) && i < e <= s@.len() && q.0@
                == decode_utf8(smtp_qs_text(s@, i + 1, intl)))
        }),
{
    let n = s.len();
    if !(i < n && s[i] == 34) {
        return None;
    }
    proof {
        lemma_smtp_qs_bounds(s@, i + 1, intl);
    }
    let mut text: Vec<u8> = Vec::new();
    let mut p: usize = i + 1;
    loop
        invariant
            i + 1 <= p <= n == s@.len(),
            smtp_qs_end(s@, i + 1, intl) == smtp_qs_end(s@, p as int, intl),
            smtp_qs_text(s@, i + 1, intl) == text@ + smtp_qs_text(s@, p as int, intl),
        decreases n - p,
    {
        proof {
            lemma_smtp_qs_bounds(s@, p as int, intl);
        }
        let ghost text_pre = text@;
        if p < n && s[p] == 92 {
            let l = text_unit(s, p + 1, Cls::Printable, false, false, &mut text);
            if l > 0 {
                proof {
                    assert(text@ + smtp_qs_text(s@, p + 2, intl) =~= text_pre + smtp_qs_text(
                        s@,
                        p as int,
                        intl,
                    ));
                }
                p = p + 2;
                continue;
            }
            return None;
        }
        let l2 = text_unit(s, p, Cls::QtextSmtp, intl, false, &mut text);
        if l2 > 0 {
            proof {
                assert(text@ + smtp_qs_text(s@, p + l2, intl) =~= text_pre + smtp_qs_text(
                    s@,
                    p as int,
                    intl,
                ));
            }
            p = p + l2;
            continue;
        }
        if p < n && s[p] == 34 {
            proof {
                assert(text@ =~= smtp_qs_text(s@, i + 1, intl));
            }
            return Some((p + 1, QuotedString(string_from_utf8(text))));
        }
        return None;
    }
}

/// What the SMTP local part at `i` parses to: its end and its value, a
/// dot-string or a quoted string.
pub open spec fn local_part_spec(s: Seq<u8>, i: int, intl: bool) -> Option<
    (int, LocalPartView),
> {
    if dot_string_end(s, i, intl) > i {
        Some(
            (
                dot_string_end(s, i, intl),
                LocalPartView::DotAtom(decode_utf8(s.subrange(i, dot_string_end(s, i, intl)))),
            ),
        )
    } else if 0 <= i < s.len() && s[i] == 34 {
        match smtp_qs_end(s, i + 1, intl) {
            Some(e) => Some((e, LocalPartView::Quoted(decode_utf8(smtp_qs_text(s, i + 1, intl))))),
            None => None,
        }
    } else {
        None
    }
}

/// Parse an SMTP local part at `i`.
fn local_part_at(s: &[u8], i: usize, intl: bool) -> (r: Option<(usize, LocalPart)>)
    requires
        i <= s@.len(),
    ensures
        r is Some <==> local_part_spec(s@, i as int, intl) is Some,
        r matches Some((e, lp)) ==> local_part_spec(s@, i as int, intl) matches Some((se, sv))
            && e == se && i < e <= s@.len() && lp@ == sv,
{
    proof {
        lemma_dot_string_bounds(s@, i as int, intl);
        if i < s@.len() {
            lemma_smtp_qs_bounds(s@, i + 1, intl);
        }
    }
    match dot_string_at(s, i, intl) {
        Some((e, d)) => Some((e, LocalPart::DotAtom(d))),
        None => {
            match smtp_qs_at(s, i, intl) {
                Some((e, q)) => Some((e, LocalPart::Quoted(q))),
                None => None,
            }
        },
    }
}


/// End of a 1-to-3-digit IPv4 octet at `i`: the digit run, capped at three
/// digits.
pub open spec fn oct_end(s: Seq<u8>, i: int) -> int {
    let e = scan_end(s, i, Cls::Digit);
    if e > i + 3 {
        i + 3
    } else {
        e
    }
}

/// The octet at `i` as a number.
pub open spec fn oct_val(s: Seq<u8>, i: int) -> int {
    crate::util::dec_val(s.subrange(i, oct_end(s, i)))
}

/// An IPv4 octet sits at `i`: one to three digits whose value is at most 255.
pub open spec fn oct_ok(s: Seq<u8>, i: int) -> bool {
    oct_end(s, i) > i && oct_val(s, i) <= 255
}

/// What a dotted-quad IPv4 address at `i` parses to: the position after the
/// last octet and the four octet values.
pub open spec fn ipv4_spec(s: Seq<u8>, i: int) -> Option<(int, (u8, u8, u8, u8))> {
    if 0 <= i <= s.len() && oct_ok(s, i) {
        let j1 = oct_end(s, i);
        if j1 < s.len() && s[j1] == 46 && oct_ok(s, j1 + 1) {
            let j2 = oct_end(s, j1 + 1);
            if j2 < s.len() && s[j2] == 46 && oct_ok(s, j2 + 1) {
                let j3 = oct_end(s, j2 + 1);
                if j3 < s.len() && s[j3] == 46 && oct_ok(s, j3 + 1) {
                    let j4 = oct_end(s, j3 + 1);
                    Some(
                        (
                            j4,
                            (
                                oct_val(s, i) as u8,
                                oct_val(s, j1 + 1) as u8,
                                oct_val(s, j2 + 1) as u8,
                                oct_val(s, j3 + 1) as u8,
                            ),
                        ),
                    )
                } else {
                    None
                }
            } else {
                None
            }
        } else {
            None
        }
    } else {
        None
    }
}

proof fn lemma_oct(s: Seq<u8>, i: int)
    requires
        0 <= i <= s.len(),
    ensures
        i <= oct_end(s, i) <= s.len(),
        oct_end(s, i) - i <= 3,
        forall|m: int| i <= m < oct_end(s, i) ==> cls_spec(Cls::Digit, #[trigger] s[m]),
{
    crate::util::lemma_scan_end_pub(s, i, Cls::Digit);
}

/// Parse one IPv4 octet at `i`.
fn oct_at(s: &[u8], i: usize) -> (r: Option<(usize, u8)>)
    requires
        i <= s@.len(),
    ensures
        r is Some <==> oct_ok(s@, i as int),
        r matches Some((e, v)) ==> e == oct_end(s@, i as int) && i < e <= s@.len() && v == oct_val(
            s@,
            i as int,
        ),
{
    proof {
        lemma_oct(s@, i as int);
    }
    let run = scan(s, i, Cls::Digit);
    let e = if run - i > 3 {
        i + 3
    } else {
        run
    };
    proof {
        if run - i > 3 {
            assert(forall|m: int| i <= m < e ==> cls_spec(Cls::Digit, #[trigger] s@[m]));
        }
    }
    if e == i {
        return None;
    }
    let v = crate::util::dec_value(s, i, e);
    if v <= 255 {
        Some((e, v as u8))
    } else {
        None
    }
}

/// Parse a dotted-quad IPv4 address at `i`.
fn ipv4_at(s: &[u8], i: usize) -> (r: Option<(usize, (u8, u8, u8, u8))>)
    requires
        i <= s@.len(),
    ensures
        r is Some <==> ipv4_spec(s@, i as int) is Some,
        r matches Some((e, q)) ==> ipv4_spec(s@, i as int) == Some((e as int, q)) && i < e
            <= s@.len(),
{
    proof {
        lemma_oct(s@, i as int);
    }
    let n = s.len();
    let (j1, a) = match oct_at(s, i) {
        Some(x) => x,
        None => {
            return None;
        },
    };
    if !(j1 < n && s[j1] == 46) {
        return None;
    }
    let (j2, b) = match oct_at(s, j1 + 1) {
        Some(x) => x,
        None => {
            return None;
        },
    };
    if !(j2 < n && s[j2] == 46) {
        return None;
    }
    let (j3, c) = match oct_at(s, j2 + 1) {
        Some(x) => x,
        None => {
            return None;
        },
    };
    if !(j3 < n && s[j3] == 46) {
        return None;
    }
    let (j4, d) = match oct_at(s, j3 + 1) {
        Some(x) => x,
        None => {
            return None;
        },
    };
    Some((j4, (a, b, c, d)))
}

/// The value of the hexadecimal digits `s[i..j]`.
pub open spec fn hexgroup_val(s: Seq<u8>, i: int, j: int) -> int
    decreases j - i,
    when i <= j
{
    if j <= i {
        0
    } else {
        hexgroup_val(s, i, j - 1) * 16 + crate::util::hex_val(s[j - 1])
    }
}

spec fn pow16(n: int) -> int {
    if n <= 0 {
        1
    } else if n == 1 {
        16
    } else if n == 2 {
        256
    } else if n == 3 {
        4096
    } else {
        65536
    }
}

proof fn lemma_hexgroup_bound(s: Seq<u8>, i: int, j: int)
    requires
        0 <= i <= j <= s.len(),
        j - i <= 4,
        forall|m: int| i <= m < j ==> cls_spec(Cls::HexDig, #[trigger] s[m]),
    ensures
        0 <= hexgroup_val(s, i, j) < pow16(j - i),
        hexgroup_val(s, i, j) < 65536,
    decreases j - i,
{
    if j > i {
        lemma_hexgroup_bound(s, i, j - 1);
        assert(0 <= crate::util::hex_val(s[j - 1]) < 16);
    }
}

/// Read the hexadecimal value of `s[i..j]`.
fn hexgroup_value(s: &[u8], i: usize, j: usize) -> (v: u16)
    requires
        i <= j <= s@.len(),
        j - i <= 4,
        forall|m: int| i <= m < j ==> cls_spec(Cls::HexDig, #[trigger] s@[m]),
    ensures
        v == hexgroup_val(s@, i as int, j as int),
{
    proof {
        lemma_hexgroup_bound(s@, i as int, j as int);
    }
    let mut k: usize = i;
    let mut acc: u16 = 0;
    while k < j
        invariant
            i <= k <= j <= s@.len(),
            j - i <= 4,
            forall|m: int| i <= m < j ==> cls_spec(Cls::HexDig, #[trigger] s@[m]),
            acc == hexgroup_val(s@, i as int, k as int),
        decreases j - k,
    {
        proof {
            lemma_hexgroup_bound(s@, i as int, k as int);
            lemma_hexgroup_bound(s@, i as int, k + 1);
        }
        acc = acc * 16 + crate::util::hex_digit_value_pub(s[k]) as u16;
        k += 1;
    }
    acc
}

/// The first position in `[i, hi)` holding a colon, or `hi`.
pub open spec fn colon_pos(s: Seq<u8>, i: int, hi: int) -> int
    decreases hi - i,
    when i <= hi
{
    if i < hi && s.len() >= hi && s[i] == 58 {
        i
    } else if i < hi {
        colon_pos(s, i + 1, hi)
    } else {
        hi
    }
}

proof fn lemma_colon_pos(s: Seq<u8>, i: int, hi: int)
    requires
        0 <= i <= hi <= s.len(),
    ensures
        i <= colon_pos(s, i, hi) <= hi,
        colon_pos(s, i, hi) < hi ==> s[colon_pos(s, i, hi)] == 58,
        forall|m: int| i <= m < colon_pos(s, i, hi) ==> s[m] != 58,
    decreases hi - i,
{
    if i < hi && s[i] != 58 {
        lemma_colon_pos(s, i + 1, hi);
    }
}

/// The first position in `[i, hi-1)` where a double colon begins, or `hi`.
pub open spec fn dc_pos(s: Seq<u8>, i: int, hi: int) -> int
    decreases hi - i,
    when i <= hi
{
    if i + 1 < hi && s.len() >= hi && s[i] == 58 && s[i + 1] == 58 {
        i
    } else if i < hi {
        dc_pos(s, i + 1, hi)
    } else {
        hi
    }
}

proof fn lemma_dc_pos(s: Seq<u8>, i: int, hi: int)
    requires
        0 <= i <= hi <= s.len(),
    ensures
        i <= dc_pos(s, i, hi) <= hi,
        dc_pos(s, i, hi) < hi ==> dc_pos(s, i, hi) + 1 < hi && s[dc_pos(s, i, hi)] == 58 && s[dc_pos(
            s,
            i,
            hi,
        ) + 1] == 58,
    decreases hi - i,
{
    if !(i + 1 < hi && s[i] == 58 && s[i + 1] == 58) && i < hi {
        lemma_dc_pos(s, i + 1, hi);
    }
}

/// The colon-separated groups of an IPv6 address read from `[i, hi)`: 1-4
/// hexadecimal digits each, or a trailing embedded IPv4 address when `hi` is
/// the very end of the literal (`v4hi`).
pub open spec fn v6_groups(s: Seq<u8>, i: int, hi: int, v4hi: int) -> Option<Seq<u16>>
    decreases hi - i,
    when 0 <= i <= hi <= s.len() via v6_groups_dec
{
    let c = colon_pos(s, i, hi);
    if c == i {
        None
    } else if scan_end(s, i, Cls::HexDig) >= c && c - i <= 4 {
        let v = hexgroup_val(s, i, c) as u16;
        if c == hi {
            Some(seq![v])
        } else if c + 1 <= hi {
            match v6_groups(s, c + 1, hi, v4hi) {
                Some(g) => Some(seq![v] + g),
                None => None,
            }
        } else {
            None
        }
    } else if c == hi && hi == v4hi {
        match ipv4_spec(s, i) {
            Some((e, q)) => if e == hi {
                Some(seq![(q.0 * 256 + q.1) as u16, (q.2 * 256 + q.3) as u16])
            } else {
                None
            },
            None => None,
        }
    } else {
        None
    }
}

#[via_fn]
proof fn v6_groups_dec(s: Seq<u8>, i: int, hi: int, v4hi: int) {
    lemma_colon_pos(s, i, hi);
}

/// What the text `[lo, hi)` denotes as an IPv6 address, or nothing when it is
/// not one: colon-separated groups with at most one `::` standing for enough
/// zero groups to make eight.
pub open spec fn v6_spec(s: Seq<u8>, lo: int, hi: int) -> Option<Seq<u16>> {
    if !(0 <= lo <= hi <= s.len()) {
        None
    } else {
        let dc = dc_pos(s, lo, hi);
        if dc == hi {
            match v6_groups(s, lo, hi, hi) {
                Some(g) => if g.len() == 8 {
                    Some(g)
                } else {
                    None
                },
                None => None,
            }
        } else {
            let left = if dc == lo {
                Some(Seq::<u16>::empty())
            } else {
                v6_groups(s, lo, dc, hi)
            };
            let right = if dc + 2 == hi {
                Some(Seq::<u16>::empty())
            } else {
                v6_groups(s, dc + 2, hi, hi)
            };
            match (left, right) {
                (Some(l), Some(r)) => {
                    if l.len() + r.len() <= 7 {
                        Some(l + Seq::new((8 - l.len() - r.len()) as nat, |k: int| 0u16) + r)
                    } else {
                        None
                    }
                },
                _ => None,
            }
        }
    }
}

/// Parse the groups of an IPv6 address from `[i, hi)` into `out`.
#[verifier::rlimit(100)]
fn v6_groups_at(s: &[u8], i: usize, hi: usize, v4hi: usize, out: &mut Vec<u16>) -> (r: bool)
    requires
        i <= hi <= s@.len(),
    ensures
        r == (v6_groups(s@, i as int, hi as int, v4hi as int) is Some),
        r ==> v6_groups(s@, i as int, hi as int, v4hi as int) == Some(
            final(out)@.subrange(old(out)@.len() as int, final(out)@.len() as int),
        ) && final(out)@.subrange(0, old(out)@.len() as int) == old(out)@ && old(out)@.len()
            <= final(out)@.len(),
        !r ==> final(out)@ == old(out)@,
    decreases hi - i,
{
    proof {
        lemma_colon_pos(s@, i as int, hi as int);
        crate::util::lemma_scan_end_pub(s@, i as int, Cls::HexDig);
    }
    let n = s.len();
    let mut c: usize = i;
    while c < hi && s[c] != 58
        invariant
            i <= c <= hi <= s@.len(),
            colon_pos(s@, i as int, hi as int) == colon_pos(s@, c as int, hi as int),
        decreases hi - c,
    {
        c += 1;
    }
    if c == i {
        return false;
    }
    let hex_run = scan(s, i, Cls::HexDig);
    if hex_run >= c && c - i <= 4 {
        let v = hexgroup_value(s, i, c);
        if c == hi {
            let ghost out_pre = out@;
            out.push(v);
            proof {
                assert(out@.subrange(out_pre.len() as int, out@.len() as int) =~= seq![v]);
                assert(out@.subrange(0, out_pre.len() as int) =~= out_pre);
            }
            return true;
        }
        let ghost out_pre = out@;
        out.push(v);
        let ghost mid = out@;
        let ok = v6_groups_at(s, c + 1, hi, v4hi, out);
        if ok {
            proof {
                assert(mid == out_pre.push(v));
                assert(mid.len() == out_pre.len() + 1);
                assert(out@.subrange(0, mid.len() as int) == mid);
                match v6_groups(s@, c + 1, hi as int, v4hi as int) {
                    Some(g) => {
                        assert(g == out@.subrange(mid.len() as int, out@.len() as int));
                        assert(out@.len() == mid.len() + g.len());
                        assert(out@.len() > out_pre.len());
                        assert(out@.subrange(0, mid.len() as int)[out_pre.len() as int]
                            == out@[out_pre.len() as int]);
                        assert(out@[out_pre.len() as int] == mid[out_pre.len() as int]);
                        assert(forall|k: int|
                            0 <= k < g.len() ==> #[trigger] g[k] == out@[mid.len() + k]);
                        assert(mid[out_pre.len() as int] == v);
                        assert(g == out@.subrange(mid.len() as int, out@.len() as int));
                        assert(out@.subrange(out_pre.len() as int, out@.len() as int) =~= seq![v]
                            + g);
                        assert(out@.subrange(0, out_pre.len() as int) =~= out_pre);
                    },
                    None => {},
                }
            }
            return true;
        } else {
            let _ = out.pop();
            proof {
                assert(out@ =~= out_pre);
            }
            return false;
        }
    }
    if c == hi && hi == v4hi {
        match ipv4_at(s, i) {
            Some((e, q)) => {
                if e == hi {
                    let ghost out_pre = out@;
                    let g1: u16 = (q.0 as u16) * 256 + (q.1 as u16);
                    let g2: u16 = (q.2 as u16) * 256 + (q.3 as u16);
                    out.push(g1);
                    out.push(g2);
                    proof {
                        assert(out@.subrange(out_pre.len() as int, out@.len() as int) =~= seq![
                            g1,
                            g2,
                        ]);
                        assert(out@.subrange(0, out_pre.len() as int) =~= out_pre);
                    }
                    return true;
                }
                return false;
            },
            None => {
                return false;
            },
        }
    }
    false
}

/// Parse the IPv6 address written in `[lo, hi)`.
#[verifier::rlimit(100)]
fn v6_at(s: &[u8], lo: usize, hi: usize) -> (r: Option<[u16; 8]>)
    requires
        lo <= hi <= s@.len(),
    ensures
        r is Some <==> v6_spec(s@, lo as int, hi as int) is Some,
        r matches Some(a) ==> v6_spec(s@, lo as int, hi as int) == Some(a@),
{
    proof {
        lemma_dc_pos(s@, lo as int, hi as int);
    }
    let n = s.len();
    let mut dc: usize = lo;
    while dc < hi && !(hi - dc >= 2 && s[dc] == 58 && s[dc + 1] == 58)
        invariant
            lo <= dc <= hi <= s@.len(),
            dc_pos(s@, lo as int, hi as int) == dc_pos(s@, dc as int, hi as int),
        decreases hi - dc,
    {
        dc += 1;
    }
    let mut groups: Vec<u16> = Vec::new();
    if dc == hi {
        if lo == hi {
            return None;
        }
        let ok = v6_groups_at(s, lo, hi, hi, &mut groups);
        if !(ok && groups.len() == 8) {
            return None;
        }
        proof {
            assert(groups@.subrange(0, 8) =~= groups@);
        }
        let arr: [u16; 8] = [groups[0], groups[1], groups[2], groups[3], groups[4], groups[5],
            groups[6], groups[7]];
        proof {
            assert(arr@ =~= groups@);
        }
        return Some(arr);
    }
    let mut left: Vec<u16> = Vec::new();
    if dc > lo {
        let okl = v6_groups_at(s, lo, dc, hi, &mut left);
        if !okl {
            return None;
        }
    }
    let mut right: Vec<u16> = Vec::new();
    if dc + 2 < hi {
        let okr = v6_groups_at(s, dc + 2, hi, hi, &mut right);
        if !okr {
            return None;
        }
    }
    if left.len() > 7 {
        return None;
    }
    if right.len() > 7 - left.len() {
        return None;
    }
    let ghost lv = left@;
    let ghost rv = right@;
    let fill = 8 - left.len() - right.len();
    let mut mid: Vec<u16> = Vec::new();
    let mut k: usize = 0;
    while k < fill
        invariant
            0 <= k <= fill,
            mid@ == Seq::new(k as nat, |m: int| 0u16),
        decreases fill - k,
    {
        let ghost mid_pre = mid@;
        mid.push(0);
        proof {
            assert(mid@ =~= Seq::new((k + 1) as nat, |m: int| 0u16));
        }
        k += 1;
    }
    let mut all = left;
    all.append(&mut mid);
    all.append(&mut right);
    proof {
        assert(all@ =~= lv + Seq::new((8 - lv.len() - rv.len()) as nat, |m: int| 0u16) + rv);
        assert(all@.len() == 8);
    }
    let arr: [u16; 8] = [all[0], all[1], all[2], all[3], all[4], all[5], all[6], all[7]];
    proof {
        assert(arr@ =~= all@);
    }
    Some(arr)
}


/// What the inside of an address literal at `i` parses to: a dotted-quad
/// IPv4 address, an `IPv6:`-tagged IPv6 address, or a general `tag:value`
/// literal.
pub open spec fn inner_lit_spec(s: Seq<u8>, i: int) -> Option<
    (int, crate::types::AddressLiteralView),
> {
    if ipv4_spec(s, i) is Some {
        match ipv4_spec(s, i) {
            Some((e, q)) => Some(
                (
                    e,
                    crate::types::AddressLiteralView::IP(
                        crate::types::IpAddress::V4(q.0, q.1, q.2, q.3),
                    ),
                ),
            ),
            None => None,
        }
    } else if tag_nocase_at(s, i, "IPv6:".spec_bytes()) && {
        let st = i + "IPv6:".spec_bytes().len();
        let r = scan_end(s, st, Cls::V6Text);
        r > st && v6_spec(s, st, r) is Some
    } {
        let st = i + "IPv6:".spec_bytes().len();
        let r = scan_end(s, st, Cls::V6Text);
        match v6_spec(s, st, r) {
            Some(g) => {
                if g.len() == 8 {
                    Some(
                        (
                            r,
                            crate::types::AddressLiteralView::IP(
                                crate::types::IpAddress::V6(
                                    g[0] as u16,
                                    g[1] as u16,
                                    g[2] as u16,
                                    g[3] as u16,
                                    g[4] as u16,
                                    g[5] as u16,
                                    g[6] as u16,
                                    g[7] as u16,
                                ),
                            ),
                        ),
                    )
                } else {
                    None
                }
            },
            None => None,
        }
    } else {
        general_lit_spec(s, i)
    }
}

/// What a general `tag:value` address literal at `i` parses to.
pub open spec fn general_lit_spec(s: Seq<u8>, i: int) -> Option<
    (int, crate::types::AddressLiteralView),
> {
    if 0 <= i <= s.len() {
        let g = strip_hyphens(s, i, scan_end(s, i, Cls::Ldh));
        if g > i && g < s.len() && s[g] == 58 && scan_end(s, g + 1, Cls::Dcontent) > g + 1 {
            let d = scan_end(s, g + 1, Cls::Dcontent);
            Some(
                (
                    d,
                    crate::types::AddressLiteralView::Tagged(
                        decode_utf8(s.subrange(i, g)),
                        decode_utf8(s.subrange(g + 1, d)),
                    ),
                ),
            )
        } else {
            None
        }
    } else {
        None
    }
}

proof fn lemma_inner_lit_bounds(s: Seq<u8>, i: int)
    requires
        0 <= i <= s.len(),
    ensures
        inner_lit_spec(s, i) matches Some((e, v)) ==> i < e <= s.len(),
        general_lit_spec(s, i) matches Some((e, v)) ==> i < e <= s.len(),
{
    crate::util::lemma_scan_end_pub(s, i, Cls::Digit);
    crate::util::lemma_scan_end_pub(s, i, Cls::Ldh);
    lemma_strip_hyphens(s, i, scan_end(s, i, Cls::Ldh));
    let g = strip_hyphens(s, i, scan_end(s, i, Cls::Ldh));
    if 0 <= g + 1 <= s.len() {
        crate::util::lemma_scan_end_pub(s, g + 1, Cls::Dcontent);
    }
    if ipv4_spec(s, i) is Some {
        lemma_oct(s, i);
        match ipv4_spec(s, i) {
            Some((e, q)) => {
                let j1 = oct_end(s, i);
                lemma_oct(s, j1 + 1);
                let j2 = oct_end(s, j1 + 1);
                lemma_oct(s, j2 + 1);
                let j3 = oct_end(s, j2 + 1);
                lemma_oct(s, j3 + 1);
            },
            None => {},
        }
    }
    if tag_nocase_at(s, i, "IPv6:".spec_bytes()) {
        let st = i + "IPv6:".spec_bytes().len();
        crate::util::lemma_scan_end_pub(s, st, Cls::V6Text);
    }
}

/// Parse the inside of an address literal at `i`.
pub(crate) fn inner_lit_at(s: &[u8], i: usize) -> (r: Option<(usize, crate::types::AddressLiteral)>)
    requires
        i <= s@.len(),
    ensures
        r is Some <==> inner_lit_spec(s@, i as int) is Some,
        r matches Some((e, v)) ==> inner_lit_spec(s@, i as int) matches Some((se, sv)) && e == se
            && v@ == sv && i < e <= s@.len(),
{
    proof {
        lemma_inner_lit_bounds(s@, i as int);
    }
    let n = s.len();
    match ipv4_at(s, i) {
        Some((e, q)) => {
            return Some(
                (
                    e,
                    crate::types::AddressLiteral::IP(
                        crate::types::IpAddress::V4(q.0, q.1, q.2, q.3),
                    ),
                ),
            );
        },
        None => {},
    }
    let v6tag = "IPv6:".as_bytes();
    if crate::util::tag_nocase(s, i, v6tag) {
        let st = i + v6tag.len();
        let r = scan(s, st, Cls::V6Text);
        if r > st {
            match v6_at(s, st, r) {
                Some(arr) => {
                    proof {
                        lemma_v6_len(s@, st as int, r as int);
                    }
                    let ip = crate::types::IpAddress::V6(
                        arr[0],
                        arr[1],
                        arr[2],
                        arr[3],
                        arr[4],
                        arr[5],
                        arr[6],
                        arr[7],
                    );
                    return Some((r, crate::types::AddressLiteral::IP(ip)));
                },
                None => {},
            }
        }
    }
    let g = strip_hyphens_exec(s, i, scan(s, i, Cls::Ldh));
    proof {
        crate::util::lemma_scan_end_pub(s@, i as int, Cls::Ldh);
        lemma_strip_hyphens(s@, i as int, scan_end(s@, i as int, Cls::Ldh));
    }
    if g > i && g < n && s[g] == 58 {
        proof {
            crate::util::lemma_scan_end_pub(s@, g + 1, Cls::Dcontent);
        }
        let d = scan(s, g + 1, Cls::Dcontent);
        if d > g + 1 {
            proof {
                assert(forall|m: int| i <= m < g ==> #[trigger] s@[m] < 0x80);
                crate::util::lemma_ascii_seq_valid(s@.subrange(i as int, g as int));
                assert(forall|m: int| g + 1 <= m < d ==> #[trigger] s@[m] < 0x80);
                crate::util::lemma_ascii_seq_valid(s@.subrange(g + 1, d as int));
            }
            let t = string_from_utf8(sub_vec(s, i, g));
            let v = string_from_utf8(sub_vec(s, g + 1, d));
            return Some((d, crate::types::AddressLiteral::Tagged(t, v)));
        }
    }
    None
}

proof fn lemma_v6_len(s: Seq<u8>, lo: int, hi: int)
    requires
        0 <= lo <= hi <= s.len(),
    ensures
        v6_spec(s, lo, hi) matches Some(g) ==> g.len() == 8,
{
    let dc = dc_pos(s, lo, hi);
    lemma_dc_pos(s, lo, hi);
}

/// What a bracketed address literal at `i` parses to.
pub open spec fn addr_lit_spec(s: Seq<u8>, i: int) -> Option<
    (int, crate::types::AddressLiteralView),
> {
    if 0 <= i < s.len() && s[i] == 91 {
        match inner_lit_spec(s, i + 1) {
            Some((e, v)) => if e < s.len() && s[e] == 93 {
                Some((e + 1, v))
            } else {
                None
            },
            None => None,
        }
    } else {
        None
    }
}

/// Parse a bracketed address literal at `i`.
pub fn addr_lit_at(s: &[u8], i: usize) -> (r: Option<(usize, crate::types::AddressLiteral)>)
    requires
        i <= s@.len(),
    ensures
        r is Some <==> addr_lit_spec(s@, i as int) is Some,
        r matches Some((e, v)) ==> addr_lit_spec(s@, i as int) matches Some((se, sv)) && e == se
            && v@ == sv && i < e <= s@.len(),
{
    let n = s.len();
    if !(i < n && s[i] == 91) {
        return None;
    }
    match inner_lit_at(s, i + 1) {
        Some((e, v)) => {
            if e < n && s[e] == 93 {
                Some((e + 1, v))
            } else {
                None
            }
        },
        None => None,
    }
}

/// What the domain part at `i` parses to: a domain name, or a bracketed
/// address literal.
pub open spec fn domain_part_spec(s: Seq<u8>, i: int) -> Option<
    (int, crate::types::DomainPartView),
> {
    if domain_end(s, i) > i {
        Some(
            (
                domain_end(s, i),
                crate::types::DomainPartView::Domain(decode_utf8(s.subrange(i, domain_end(s, i)))),
            ),
        )
    } else {
        match addr_lit_spec(s, i) {
            Some((e, v)) => Some((e, crate::types::DomainPartView::Address(v))),
            None => None,
        }
    }
}

/// Parse the domain part at `i`.
fn domain_part_at(s: &[u8], i: usize) -> (r: Option<(usize, crate::types::DomainPart)>)
    requires
        i <= s@.len(),
    ensures
        r is Some <==> domain_part_spec(s@, i as int) is Some,
        r matches Some((e, v)) ==> domain_part_spec(s@, i as int) matches Some((se, sv)) && e
            == se && v@ == sv && i < e <= s@.len(),
{
    proof {
        lemma_domain_bounds(s@, i as int);
    }
    match domain_value(s, i) {
        Some((e, d)) => Some((e, crate::types::DomainPart::Domain(d))),
        None => {
            match addr_lit_at(s, i) {
                Some((e, v)) => Some((e, crate::types::DomainPart::Address(v))),
                None => None,
            }
        },
    }
}

/// What the SMTP mailbox at `i` parses to: `local-part "@" domain-part`.
pub open spec fn mailbox_spec(s: Seq<u8>, i: int, intl: bool) -> Option<
    (int, crate::types::MailboxView),
> {
    match local_part_spec(s, i, intl) {
        Some((e, lp)) => {
            if e < s.len() && s[e] == 64 {
                match domain_part_spec(s, e + 1) {
                    Some((e2, dp)) => Some(
                        (e2, crate::types::MailboxView { local: lp, domain: dp }),
                    ),
                    None => None,
                }
            } else {
                None
            }
        },
        None => None,
    }
}

/// Parse an SMTP mailbox at `i`.
pub fn mailbox_at(s: &[u8], i: usize, intl: bool) -> (r: Option<(usize, crate::types::Mailbox)>)
    requires
        i <= s@.len(),
    ensures
        r is Some <==> mailbox_spec(s@, i as int, intl) is Some,
        r matches Some((e, v)) ==> mailbox_spec(s@, i as int, intl) matches Some((se, sv)) && e
            == se && v@ == sv && i < e <= s@.len(),
{
    match local_part_at(s, i, intl) {
        Some((e, lp)) => {
            if e < s.len() && s[e] == 64 {
                match domain_part_at(s, e + 1) {
                    Some((e2, dp)) => Some((e2, crate::types::Mailbox(lp, dp))),
                    None => None,
                }
            } else {
                None
            }
        },
        None => None,
    }
}


/// Path with source route; the source route is absent when the domain list
/// is empty.
#[derive(Clone, Debug, PartialEq, Eq)]
pub struct Path(pub crate::types::Mailbox, pub Vec<Domain>);

/// Specification-level form of a [`Path`].
pub struct PathView {
    /// The mailbox.
    pub mailbox: crate::types::MailboxView,
    /// The source-route domains.
    pub route: Seq<Seq<char>>,
}

impl View for Path {
    type V = PathView;

    open spec fn view(&self) -> PathView {
        PathView { mailbox: self.0@, route: self.1.deep_view() }
    }
}

impl DeepView for Path {
    type V = PathView;

    open spec fn deep_view(&self) -> PathView {
        self.view()
    }
}

/// A generic SMTP string built from an atom or a quoted string.
#[derive(Clone, Debug, PartialEq, Eq)]
pub struct SMTPString(pub String);

/// The forward path of a `RCPT TO` command.
#[derive(Clone, Debug, PartialEq, Eq)]
pub enum ForwardPath {
    /// An ordinary path such as `<person@example.org>`.
    Path(Path),
    /// The distinguished postmaster path, with an optional domain:
    /// `<postmaster>` or `<postmaster@example.org>`.
    PostMaster(Option<Domain>),
}

/// Specification-level form of a [`ForwardPath`].
pub enum ForwardPathView {
    /// Mirror of [`ForwardPath::Path`].
    Path(PathView),
    /// Mirror of [`ForwardPath::PostMaster`].
    PostMaster(Option<Seq<char>>),
}

impl View for ForwardPath {
    type V = ForwardPathView;

    open spec fn view(&self) -> ForwardPathView {
        match self {
            ForwardPath::Path(p) => ForwardPathView::Path(p@),
            ForwardPath::PostMaster(d) => ForwardPathView::PostMaster(
                match d {
                    Some(dom) => Some(dom.0@),
                    None => None,
                },
            ),
        }
    }
}

impl DeepView for ForwardPath {
    type V = ForwardPathView;

    open spec fn deep_view(&self) -> ForwardPathView {
        self.view()
    }
}

/// The reverse path of a `MAIL FROM` command.
#[derive(Clone, Debug, PartialEq, Eq)]
pub enum ReversePath {
    /// An ordinary path such as `<person@example.org>`.
    Path(Path),
    /// The null reverse path, `<>`.
    Null,
}

/// Specification-level form of a [`ReversePath`].
pub enum ReversePathView {
    /// Mirror of [`ReversePath::Path`].
    Path(PathView),
    /// Mirror of [`ReversePath::Null`].
    Null,
}

impl View for ReversePath {
    type V = ReversePathView;

    open spec fn view(&self) -> ReversePathView {
        match self {
            ReversePath::Path(p) => ReversePathView::Path(p@),
            ReversePath::Null => ReversePathView::Null,
        }
    }
}

impl DeepView for ReversePath {
    type V = ReversePathView;

    open spec fn deep_view(&self) -> ReversePathView {
        self.view()
    }
}

/// What the bracketed path at `i` parses to: `"<" [route ":"] mailbox ">"`.
pub open spec fn path_spec(s: Seq<u8>, i: int, intl: bool) -> Option<(int, PathView)> {
    if 0 <= i < s.len() && s[i] == 60 {
        let has_route = match adl_end(s, i + 1) {
            Some(a) => a < s.len() && s[a] == 58,
            None => false,
        };
        let mstart = if has_route {
            match adl_end(s, i + 1) {
                Some(a) => a + 1,
                None => i + 1,
            }
        } else {
            i + 1
        };
        let route = if has_route {
            adl_list(s, i + 1)
        } else {
            Seq::empty()
        };
        if 0 <= mstart <= s.len() {
            match mailbox_spec(s, mstart, intl) {
                Some((e, m)) => if e < s.len() && s[e] == 62 {
                    Some((e + 1, PathView { mailbox: m, route }))
                } else {
                    None
                },
                None => None,
            }
        } else {
            None
        }
    } else {
        None
    }
}

/// Parse a bracketed path at `i`.
pub fn path_at(s: &[u8], i: usize, intl: bool) -> (r: Option<(usize, Path)>)
    requires
        i <= s@.len(),
    ensures
        r is Some <==> path_spec(s@, i as int, intl) is Some,
        r matches Some((e, p)) ==> path_spec(s@, i as int, intl) matches Some((se, sv)) && e
            == se && p@ == sv && i < e <= s@.len(),
{
    proof {
        if i < s@.len() {
            lemma_adl_bounds(s@, i + 1);
        }
    }
    let n = s.len();
    if !(i < n && s[i] == 60) {
        return None;
    }
    let mut route: Vec<Domain> = Vec::new();
    let mstart: usize;
    match adl_at(s, i + 1) {
        Some((a, ds)) => {
            if a < n && s[a] == 58 {
                route = ds;
                mstart = a + 1;
            } else {
                mstart = i + 1;
                proof {
                    assert(route.deep_view() =~= Seq::<Seq<char>>::empty());
                }
            }
        },
        None => {
            mstart = i + 1;
            proof {
                assert(route.deep_view() =~= Seq::<Seq<char>>::empty());
            }
        },
    }
    match mailbox_at(s, mstart, intl) {
        Some((e, m)) => {
            if e < n && s[e] == 62 {
                Some((e + 1, Path(m, route)))
            } else {
                None
            }
        },
        None => None,
    }
}

/// What the reverse path at `i` parses to: a path, or `<>` for the null
/// path.
pub open spec fn reverse_path_spec(s: Seq<u8>, i: int, intl: bool) -> Option<
    (int, ReversePathView),
> {
    match path_spec(s, i, intl) {
        Some((e, p)) => Some((e, ReversePathView::Path(p))),
        None => {
            if 0 <= i && i + 2 <= s.len() && s[i] == 60 && s[i + 1] == 62 {
                Some((i + 2, ReversePathView::Null))
            } else {
                None
            }
        },
    }
}

/// Parse a reverse path at `i`.
pub fn reverse_path_at(s: &[u8], i: usize, intl: bool) -> (r: Option<(usize, ReversePath)>)
    requires
        i <= s@.len(),
    ensures
        r is Some <==> reverse_path_spec(s@, i as int, intl) is Some,
        r matches Some((e, p)) ==> reverse_path_spec(s@, i as int, intl) matches Some((se, sv))
            && e == se && p@ == sv && i < e <= s@.len(),
{
    match path_at(s, i, intl) {
        Some((e, p)) => Some((e, ReversePath::Path(p))),
        None => {
            if s.len() - i >= 2 && s[i] == 60 && s[i + 1] == 62 {
                Some((i + 2, ReversePath::Null))
            } else {
                None
            }
        },
    }
}

/// What the forward path at `i` parses to: the postmaster forms first, then
/// an ordinary path.
pub open spec fn forward_path_spec(s: Seq<u8>, i: int, intl: bool) -> Option<
    (int, ForwardPathView),
> {
    if tag_nocase_at(s, i, "<postmaster>".spec_bytes()) {
        Some((i + 12, ForwardPathView::PostMaster(None)))
    } else if tag_nocase_at(s, i, "<postmaster@".spec_bytes()) && {
        let d = domain_end(s, i + 12);
        d > i + 12 && d < s.len() && s[d] == 62
    } {
        let d = domain_end(s, i + 12);
        Some((d + 1, ForwardPathView::PostMaster(Some(decode_utf8(s.subrange(i + 12, d))))))
    } else {
        match path_spec(s, i, intl) {
            Some((e, p)) => Some((e, ForwardPathView::Path(p))),
            None => None,
        }
    }
}

/// Parse a forward path at `i`.
pub fn forward_path_at(s: &[u8], i: usize, intl: bool) -> (r: Option<(usize, ForwardPath)>)
    requires
        i <= s@.len(),
    ensures
        r is Some <==> forward_path_spec(s@, i as int, intl) is Some,
        r matches Some((e, p)) ==> forward_path_spec(s@, i as int, intl) matches Some((se, sv))
            && e == se && p@ == sv && i < e <= s@.len(),
{
    proof {
        reveal_strlit("<postmaster>");
        reveal_strlit("<postmaster@");
        vstd::string::is_ascii_spec_bytes("<postmaster>");
        vstd::string::is_ascii_spec_bytes("<postmaster@");
        assert(vstd::string::is_ascii("<postmaster>"));
        assert(vstd::string::is_ascii("<postmaster@"));
        assert("<postmaster>".spec_bytes().len() == 12);
        assert("<postmaster@".spec_bytes().len() == 12);
        if i + 12 <= s@.len() {
            lemma_domain_bounds(s@, i + 12);
        }
    }
    let n = s.len();
    if crate::util::tag_nocase(s, i, "<postmaster>".as_bytes()) {
        return Some((i + 12, ForwardPath::PostMaster(None)));
    }
    if crate::util::tag_nocase(s, i, "<postmaster@".as_bytes()) {
        match domain_value(s, i + 12) {
            Some((d, dom)) => {
                if d < n && s[d] == 62 {
                    return Some((d + 1, ForwardPath::PostMaster(Some(dom))));
                }
            },
            None => {},
        }
    }
    match path_at(s, i, intl) {
        Some((e, p)) => Some((e, ForwardPath::Path(p))),
        None => None,
    }
}


impl View for SMTPString {
    type V = Seq<char>;

    open spec fn view(&self) -> Seq<char> {
        self.0@
    }
}

impl DeepView for SMTPString {
    type V = Seq<char>;

    open spec fn deep_view(&self) -> Seq<char> {
        self.0@
    }
}

/// A CRLF pair sits at position `e` of `s`.
pub open spec fn crlf_at(s: Seq<u8>, e: int) -> bool {
    0 <= e && e + 2 <= s.len() && s[e] == 13 && s[e + 1] == 10
}

/// What an SMTP string at `i` parses to: an atom or a quoted string.
pub open spec fn smtp_string_spec(s: Seq<u8>, i: int, intl: bool) -> Option<(int, Seq<char>)> {
    if run_end(s, i, Cls::Atext, intl, false) > i {
        Some(
            (
                run_end(s, i, Cls::Atext, intl, false),
                decode_utf8(run_text(s, i, Cls::Atext, intl, false)),
            ),
        )
    } else if 0 <= i < s.len() && s[i] == 34 {
        match smtp_qs_end(s, i + 1, intl) {
            Some(e) => Some((e, decode_utf8(smtp_qs_text(s, i + 1, intl)))),
            None => None,
        }
    } else {
        None
    }
}

/// Parse an SMTP string at `i`.
fn smtp_string_at(s: &[u8], i: usize, intl: bool) -> (r: Option<(usize, SMTPString)>)
    requires
        i <= s@.len(),
    ensures
        r is Some <==> smtp_string_spec(s@, i as int, intl) is Some,
        r matches Some((e, v)) ==> smtp_string_spec(s@, i as int, intl) matches Some((se, sv))
            && e == se && v@ == sv && i < e <= s@.len(),
{
    proof {
        crate::util::lemma_run_end_bounds_pub(s@, i as int, Cls::Atext, intl, false);
        crate::util::lemma_run_text_valid(s@, i as int, Cls::Atext, intl, false);
        if i < s@.len() {
            lemma_smtp_qs_bounds(s@, i + 1, intl);
        }
    }
    let mut buf: Vec<u8> = Vec::new();
    let e = text_run(s, i, Cls::Atext, intl, false, &mut buf);
    if e > i {
        return Some((e, SMTPString(string_from_utf8(buf))));
    }
    match smtp_qs_at(s, i, intl) {
        Some((e2, q)) => Some((e2, SMTPString(q.0))),
        None => None,
    }
}

/// The base SMTP command set.  The data on each variant corresponds to the
/// return value of the matching single-command parser.
#[derive(Debug, PartialEq, Eq)]
pub enum Command {
    /// `EHLO domain-or-literal`
    EHLO(crate::types::DomainPart),
    /// `HELO domain`
    HELO(Domain),
    /// `MAIL FROM:<path> params`
    MAIL(ReversePath, Vec<Param>),
    /// `RCPT TO:<path> params`
    RCPT(ForwardPath, Vec<Param>),
    /// `DATA`
    DATA,
    /// `RSET`
    RSET,
    /// `NOOP [string]`
    NOOP(Option<SMTPString>),
    /// `QUIT`
    QUIT,
    /// `VRFY string`
    VRFY(SMTPString),
    /// `EXPN string`
    EXPN(SMTPString),
    /// `HELP [string]`
    HELP(Option<SMTPString>),
}

/// What an EHLO command parses to.
pub open spec fn ehlo_spec(s: Seq<u8>) -> Option<(int, crate::types::DomainPartView)> {
    if tag_nocase_at(s, 0, "EHLO ".spec_bytes()) {
        match domain_part_spec(s, 5) {
            Some((e, d)) => if crlf_at(s, e) {
                Some((e + 2, d))
            } else {
                None
            },
            None => None,
        }
    } else {
        None
    }
}

/// What a HELO command parses to.
pub open spec fn helo_spec(s: Seq<u8>) -> Option<(int, Seq<char>)> {
    if tag_nocase_at(s, 0, "HELO ".spec_bytes()) && domain_end(s, 5) > 5 {
        let d = domain_end(s, 5);
        if crlf_at(s, d) {
            Some((d + 2, decode_utf8(s.subrange(5, d))))
        } else {
            None
        }
    } else {
        None
    }
}

/// What a MAIL command parses to: the reverse path and the ESMTP parameters.
pub open spec fn mail_spec(s: Seq<u8>, intl: bool) -> Option<
    (int, ReversePathView, Seq<ParamView>),
> {
    if tag_nocase_at(s, 0, "MAIL FROM:".spec_bytes()) {
        match reverse_path_spec(s, 10, intl) {
            Some((e, rp)) => {
                if e < s.len() && s[e] == 32 && esmtp_params_end(s, e + 1, intl) is Some {
                    match esmtp_params_end(s, e + 1, intl) {
                        Some(pe) => if crlf_at(s, pe) {
                            Some((pe + 2, rp, esmtp_params_list(s, e + 1, intl)))
                        } else {
                            None
                        },
                        None => None,
                    }
                } else if crlf_at(s, e) {
                    Some((e + 2, rp, Seq::empty()))
                } else {
                    None
                }
            },
            None => None,
        }
    } else {
        None
    }
}

/// What a RCPT command parses to: the forward path and the ESMTP parameters.
pub open spec fn rcpt_spec(s: Seq<u8>, intl: bool) -> Option<
    (int, ForwardPathView, Seq<ParamView>),
> {
    if tag_nocase_at(s, 0, "RCPT TO:".spec_bytes()) {
        match forward_path_spec(s, 8, intl) {
            Some((e, fp)) => {
                if e < s.len() && s[e] == 32 && esmtp_params_end(s, e + 1, intl) is Some {
                    match esmtp_params_end(s, e + 1, intl) {
                        Some(pe) => if crlf_at(s, pe) {
                            Some((pe + 2, fp, esmtp_params_list(s, e + 1, intl)))
                        } else {
                            None
                        },
                        None => None,
                    }
                } else if crlf_at(s, e) {
                    Some((e + 2, fp, Seq::empty()))
                } else {
                    None
                }
            },
            None => None,
        }
    } else {
        None
    }
}

/// What a NOOP or HELP command parses to: an optional SMTP string argument.
pub open spec fn opt_string_cmd_spec(s: Seq<u8>, taglen: int, intl: bool) -> Option<
    (int, Option<Seq<char>>),
> {
    if taglen < s.len() && s[taglen] == 32 && smtp_string_spec(s, taglen + 1, intl) is Some {
        match smtp_string_spec(s, taglen + 1, intl) {
            Some((e, v)) => if crlf_at(s, e) {
                Some((e + 2, Some(v)))
            } else {
                None
            },
            None => None,
        }
    } else if crlf_at(s, taglen) {
        Some((taglen + 2, None))
    } else {
        None
    }
}

fn crlf_check(s: &[u8], e: usize) -> (r: bool)
    requires
        e <= s@.len(),
    ensures
        r == crlf_at(s@, e as int),
        r ==> e + 2 <= s@.len() && s@.len() <= usize::MAX,
{
    s.len() - e >= 2 && s[e] == 13 && s[e + 1] == 10
}

/// Parse an SMTP EHLO command.
pub fn ehlo_command(input: &[u8]) -> (r: ParseResult<crate::types::DomainPart>)
    ensures
        r is Ok <==> ehlo_spec(input@) is Some,
        r matches Ok((rem, v)) ==> ehlo_spec(input@) matches Some((e, sv)) && v@ == sv && rem@
            == input@.subrange(e, input@.len() as int),
{
    proof {
        reveal_strlit("EHLO ");
        vstd::string::is_ascii_spec_bytes("EHLO ");
        assert(vstd::string::is_ascii("EHLO "));
        assert("EHLO ".spec_bytes().len() == 5);
    }
    if !crate::util::tag_nocase(input, 0, "EHLO ".as_bytes()) {
        return Err(ParseError);
    }
    match domain_part_at(input, 5) {
        Some((e, d)) => {
            if crlf_check(input, e) {
                Ok((tail_vec(input, e + 2), d))
            } else {
                Err(ParseError)
            }
        },
        None => Err(ParseError),
    }
}

/// Parse an SMTP HELO command.
pub fn helo_command(input: &[u8]) -> (r: ParseResult<Domain>)
    ensures
        r is Ok <==> helo_spec(input@) is Some,
        r matches Ok((rem, v)) ==> helo_spec(input@) matches Some((e, sv)) && v.0@ == sv && rem@
            == input@.subrange(e, input@.len() as int),
{
    proof {
        reveal_strlit("HELO ");
        vstd::string::is_ascii_spec_bytes("HELO ");
        assert(vstd::string::is_ascii("HELO "));
        assert("HELO ".spec_bytes().len() == 5);
    }
    if !crate::util::tag_nocase(input, 0, "HELO ".as_bytes()) {
        return Err(ParseError);
    }
    match domain_value(input, 5) {
        Some((e, d)) => {
            if crlf_check(input, e) {
                Ok((tail_vec(input, e + 2), d))
            } else {
                Err(ParseError)
            }
        },
        None => Err(ParseError),
    }
}

/// Parse an SMTP MAIL FROM command.
///
/// Returns the reverse path and the ESMTP parameters that followed it.
pub fn mail_command<P: UTF8Policy>(input: &[u8]) -> (r: ParseResult<(ReversePath, Vec<Param>)>)
    ensures
        r is Ok <==> mail_spec(input@, P::intl_spec()) is Some,
        r matches Ok((rem, v)) ==> mail_spec(input@, P::intl_spec()) matches Some((e, rp, ps))
            && v.0@ == rp && v.1.deep_view() == ps && rem@ == input@.subrange(
            e,
            input@.len() as int,
        ),
{
    let intl = P::intl();
    proof {
        reveal_strlit("MAIL FROM:");
        vstd::string::is_ascii_spec_bytes("MAIL FROM:");
        assert(vstd::string::is_ascii("MAIL FROM:"));
        assert("MAIL FROM:".spec_bytes().len() == 10);
    }
    if !crate::util::tag_nocase(input, 0, "MAIL FROM:".as_bytes()) {
        return Err(ParseError);
    }
    match reverse_path_at(input, 10, intl) {
        Some((e, rp)) => {
            if e < input.len() && input[e] == 32 {
                match esmtp_params_at(input, e + 1, intl) {
                    Some((pe, ps)) => {
                        if crlf_check(input, pe) {
                            return Ok((tail_vec(input, pe + 2), (rp, ps)));
                        }
                        return Err(ParseError);
                    },
                    None => {},
                }
            }
            if crlf_check(input, e) {
                let empty: Vec<Param> = Vec::new();
                proof {
                    assert(empty.deep_view() =~= Seq::<ParamView>::empty());
                }
                Ok((tail_vec(input, e + 2), (rp, empty)))
            } else {
                Err(ParseError)
            }
        },
        None => Err(ParseError),
    }
}

/// Parse an SMTP RCPT TO command.
///
/// Returns the forward path and the ESMTP parameters that followed it.
pub fn rcpt_command<P: UTF8Policy>(input: &[u8]) -> (r: ParseResult<(ForwardPath, Vec<Param>)>)
    ensures
        r is Ok <==> rcpt_spec(input@, P::intl_spec()) is Some,
        r matches Ok((rem, v)) ==> rcpt_spec(input@, P::intl_spec()) matches Some((e, fp, ps))
            && v.0@ == fp && v.1.deep_view() == ps && rem@ == input@.subrange(
            e,
            input@.len() as int,
        ),
{
    let intl = P::intl();
    proof {
        reveal_strlit("RCPT TO:");
        vstd::string::is_ascii_spec_bytes("RCPT TO:");
        assert(vstd::string::is_ascii("RCPT TO:"));
        assert("RCPT TO:".spec_bytes().len() == 8);
    }
    if !crate::util::tag_nocase(input, 0, "RCPT TO:".as_bytes()) {
        return Err(ParseError);
    }
    match forward_path_at(input, 8, intl) {
        Some((e, fp)) => {
            if e < input.len() && input[e] == 32 {
                match esmtp_params_at(input, e + 1, intl) {
                    Some((pe, ps)) => {
                        if crlf_check(input, pe) {
                            return Ok((tail_vec(input, pe + 2), (fp, ps)));
                        }
                        return Err(ParseError);
                    },
                    None => {},
                }
            }
            if crlf_check(input, e) {
                let empty: Vec<Param> = Vec::new();
                proof {
                    assert(empty.deep_view() =~= Seq::<ParamView>::empty());
                }
                Ok((tail_vec(input, e + 2), (fp, empty)))
            } else {
                Err(ParseError)
            }
        },
        None => Err(ParseError),
    }
}

/// Parse an SMTP DATA command.
pub fn data_command(input: &[u8]) -> (r: ParseResult<()>)
    ensures
        r is Ok <==> tag_nocase_at(input@, 0, "DATA\r\n".spec_bytes()),
        r matches Ok((rem, v)) ==> rem@ == input@.subrange(6, input@.len() as int),
{
    proof {
        reveal_strlit("DATA\r\n");
        vstd::string::is_ascii_spec_bytes("DATA\r\n");
        assert(vstd::string::is_ascii("DATA\r\n"));
        assert("DATA\r\n".spec_bytes().len() == 6);
    }
    if crate::util::tag_nocase(input, 0, "DATA\r\n".as_bytes()) {
        Ok((tail_vec(input, 6), ()))
    } else {
        Err(ParseError)
    }
}

/// Parse an SMTP RSET command.
pub fn rset_command(input: &[u8]) -> (r: ParseResult<()>)
    ensures
        r is Ok <==> tag_nocase_at(input@, 0, "RSET\r\n".spec_bytes()),
        r matches Ok((rem, v)) ==> rem@ == input@.subrange(6, input@.len() as int),
{
    proof {
        reveal_strlit("RSET\r\n");
        vstd::string::is_ascii_spec_bytes("RSET\r\n");
        assert(vstd::string::is_ascii("RSET\r\n"));
        assert("RSET\r\n".spec_bytes().len() == 6);
    }
    if crate::util::tag_nocase(input, 0, "RSET\r\n".as_bytes()) {
        Ok((tail_vec(input, 6), ()))
    } else {
        Err(ParseError)
    }
}

/// Parse an SMTP QUIT command.
pub fn quit_command(input: &[u8]) -> (r: ParseResult<()>)
    ensures
        r is Ok <==> tag_nocase_at(input@, 0, "QUIT\r\n".spec_bytes()),
        r matches Ok((rem, v)) ==> rem@ == input@.subrange(6, input@.len() as int),
{
    proof {
        reveal_strlit("QUIT\r\n");
        vstd::string::is_ascii_spec_bytes("QUIT\r\n");
        assert(vstd::string::is_ascii("QUIT\r\n"));
        assert("QUIT\r\n".spec_bytes().len() == 6);
    }
    if crate::util::tag_nocase(input, 0, "QUIT\r\n".as_bytes()) {
        Ok((tail_vec(input, 6), ()))
    } else {
        Err(ParseError)
    }
}

fn opt_string_cmd_at(s: &[u8], taglen: usize, intl: bool) -> (r: Option<
    (usize, Option<SMTPString>),
>)
    requires
        taglen <= s@.len(),
    ensures
        r is Some <==> opt_string_cmd_spec(s@, taglen as int, intl) is Some,
        r matches Some((e, v)) ==> opt_string_cmd_spec(s@, taglen as int, intl) matches Some(
            (se, sv),
        ) && e == se && e <= s@.len() && (match (v, sv) {
            (Some(a), Some(b)) => a@ == b,
            (None, None) => true,
            _ => false,
        }),
{
    if taglen < s.len() && s[taglen] == 32 {
        match smtp_string_at(s, taglen + 1, intl) {
            Some((e, v)) => {
                if crlf_check(s, e) {
                    return Some((e + 2, Some(v)));
                }
                return None;
            },
            None => {},
        }
    }
    if crlf_check(s, taglen) {
        Some((taglen + 2, None))
    } else {
        None
    }
}

/// Parse an SMTP NOOP command, with its optional string argument.
pub fn noop_command<P: UTF8Policy>(input: &[u8]) -> (r: ParseResult<Option<SMTPString>>)
    ensures
        r is Ok <==> tag_nocase_at(input@, 0, "NOOP".spec_bytes()) && opt_string_cmd_spec(
            input@,
            4,
            P::intl_spec(),
        ) is Some,
        r matches Ok((rem, v)) ==> opt_string_cmd_spec(input@, 4, P::intl_spec()) matches Some(
            (e, sv),
        ) && (match (v, sv) {
            (Some(a), Some(b)) => a@ == b,
            (None, None) => true,
            _ => false,
        }) && rem@ == input@.subrange(e, input@.len() as int),
{
    let intl = P::intl();
    proof {
        reveal_strlit("NOOP");
        vstd::string::is_ascii_spec_bytes("NOOP");
        assert(vstd::string::is_ascii("NOOP"));
        assert("NOOP".spec_bytes().len() == 4);
    }
    if !crate::util::tag_nocase(input, 0, "NOOP".as_bytes()) {
        return Err(ParseError);
    }
    match opt_string_cmd_at(input, 4, intl) {
        Some((e, v)) => Ok((tail_vec(input, e), v)),
        None => Err(ParseError),
    }
}

/// Parse an SMTP HELP command, with its optional string argument.
pub fn help_command<P: UTF8Policy>(input: &[u8]) -> (r: ParseResult<Option<SMTPString>>)
    ensures
        r is Ok <==> tag_nocase_at(input@, 0, "HELP".spec_bytes()) && opt_string_cmd_spec(
            input@,
            4,
            P::intl_spec(),
        ) is Some,
        r matches Ok((rem, v)) ==> opt_string_cmd_spec(input@, 4, P::intl_spec()) matches Some(
            (e, sv),
        ) && (match (v, sv) {
            (Some(a), Some(b)) => a@ == b,
            (None, None) => true,
            _ => false,
        }) && rem@ == input@.subrange(e, input@.len() as int),
{
    let intl = P::intl();
    proof {
        reveal_strlit("HELP");
        vstd::string::is_ascii_spec_bytes("HELP");
        assert(vstd::string::is_ascii("HELP"));
        assert("HELP".spec_bytes().len() == 4);
    }
    if !crate::util::tag_nocase(input, 0, "HELP".as_bytes()) {
        return Err(ParseError);
    }
    match opt_string_cmd_at(input, 4, intl) {
        Some((e, v)) => Ok((tail_vec(input, e), v)),
        None => Err(ParseError),
    }
}

/// What a VRFY or EXPN command parses to: a mandatory SMTP string argument.
pub open spec fn string_cmd_spec(s: Seq<u8>, taglen: int, intl: bool) -> Option<
    (int, Seq<char>),
> {
    match smtp_string_spec(s, taglen, intl) {
        Some((e, v)) => if crlf_at(s, e) {
            Some((e + 2, v))
        } else {
            None
        },
        None => None,
    }
}

fn string_cmd_at(s: &[u8], taglen: usize, intl: bool) -> (r: Option<(usize, SMTPString)>)
    requires
        taglen <= s@.len(),
    ensures
        r is Some <==> string_cmd_spec(s@, taglen as int, intl) is Some,
        r matches Some((e, v)) ==> string_cmd_spec(s@, taglen as int, intl) matches Some(
            (se, sv),
        ) && e == se && e <= s@.len() && v@ == sv,
{
    match smtp_string_at(s, taglen, intl) {
        Some((e, v)) => {
            if crlf_check(s, e) {
                Some((e + 2, v))
            } else {
                None
            }
        },
        None => None,
    }
}

/// Parse an SMTP VRFY command.
pub fn vrfy_command<P: UTF8Policy>(input: &[u8]) -> (r: ParseResult<SMTPString>)
    ensures
        r is Ok <==> tag_nocase_at(input@, 0, "VRFY ".spec_bytes()) && string_cmd_spec(
            input@,
            5,
            P::intl_spec(),
        ) is Some,
        r matches Ok((rem, v)) ==> string_cmd_spec(input@, 5, P::intl_spec()) matches Some(
            (e, sv),
        ) && v@ == sv && rem@ == input@.subrange(e, input@.len() as int),
{
    let intl = P::intl();
    proof {
        reveal_strlit("VRFY ");
        vstd::string::is_ascii_spec_bytes("VRFY ");
        assert(vstd::string::is_ascii("VRFY "));
        assert("VRFY ".spec_bytes().len() == 5);
    }
    if !crate::util::tag_nocase(input, 0, "VRFY ".as_bytes()) {
        return Err(ParseError);
    }
    match string_cmd_at(input, 5, intl) {
        Some((e, v)) => Ok((tail_vec(input, e), v)),
        None => Err(ParseError),
    }
}

/// Parse an SMTP EXPN command.
pub fn expn_command<P: UTF8Policy>(input: &[u8]) -> (r: ParseResult<SMTPString>)
    ensures
        r is Ok <==> tag_nocase_at(input@, 0, "EXPN ".spec_bytes()) && string_cmd_spec(
            input@,
            5,
            P::intl_spec(),
        ) is Some,
        r matches Ok((rem, v)) ==> string_cmd_spec(input@, 5, P::intl_spec()) matches Some(
            (e, sv),
        ) && v@ == sv && rem@ == input@.subrange(e, input@.len() as int),
{
    let intl = P::intl();
    proof {
        reveal_strlit("EXPN ");
        vstd::string::is_ascii_spec_bytes("EXPN ");
        assert(vstd::string::is_ascii("EXPN "));
        assert("EXPN ".spec_bytes().len() == 5);
    }
    if !crate::util::tag_nocase(input, 0, "EXPN ".as_bytes()) {
        return Err(ParseError);
    }
    match string_cmd_at(input, 5, intl) {
        Some((e, v)) => Ok((tail_vec(input, e), v)),
        None => Err(ParseError),
    }
}

/// Specification-level form of a [`Command`].
pub enum CommandView {
    /// Mirror of [`Command::EHLO`].
    EHLO(crate::types::DomainPartView),
    /// Mirror of [`Command::HELO`].
    HELO(Seq<char>),
    /// Mirror of [`Command::MAIL`].
    MAIL(ReversePathView, Seq<ParamView>),
    /// Mirror of [`Command::RCPT`].
    RCPT(ForwardPathView, Seq<ParamView>),
    /// Mirror of [`Command::DATA`].
    DATA,
    /// Mirror of [`Command::RSET`].
    RSET,
    /// Mirror of [`Command::NOOP`].
    NOOP(Option<Seq<char>>),
    /// Mirror of [`Command::QUIT`].
    QUIT,
    /// Mirror of [`Command::VRFY`].
    VRFY(Seq<char>),
    /// Mirror of [`Command::EXPN`].
    EXPN(Seq<char>),
    /// Mirror of [`Command::HELP`].
    HELP(Option<Seq<char>>),
}

impl View for Command {
    type V = CommandView;

    open spec fn view(&self) -> CommandView {
        match self {
            Command::EHLO(d) => CommandView::EHLO(d@),
            Command::HELO(d) => CommandView::HELO(d.0@),
            Command::MAIL(rp, ps) => CommandView::MAIL(rp@, ps.deep_view()),
            Command::RCPT(fp, ps) => CommandView::RCPT(fp@, ps.deep_view()),
            Command::DATA => CommandView::DATA,
            Command::RSET => CommandView::RSET,
            Command::NOOP(v) => CommandView::NOOP(
                match v {
                    Some(s) => Some(s.0@),
                    None => None,
                },
            ),
            Command::QUIT => CommandView::QUIT,
            Command::VRFY(v) => CommandView::VRFY(v.0@),
            Command::EXPN(v) => CommandView::EXPN(v.0@),
            Command::HELP(v) => CommandView::HELP(
                match v {
                    Some(s) => Some(s.0@),
                    None => None,
                },
            ),
        }
    }
}

/// What the command dispatcher returns: the first command form that matches,
/// in the fixed order EHLO, HELO, MAIL, RCPT, DATA, RSET, NOOP, QUIT, VRFY,
/// EXPN, HELP; nothing when none of the eleven matches.
pub open spec fn command_spec(s: Seq<u8>, intl: bool) -> Option<(int, CommandView)> {
    if ehlo_spec(s) is Some {
        match ehlo_spec(s) {
            Some((e, d)) => Some((e, CommandView::EHLO(d))),
            None => None,
        }
    } else if helo_spec(s) is Some {
        match helo_spec(s) {
            Some((e, d)) => Some((e, CommandView::HELO(d))),
            None => None,
        }
    } else if mail_spec(s, intl) is Some {
        match mail_spec(s, intl) {
            Some((e, rp, ps)) => Some((e, CommandView::MAIL(rp, ps))),
            None => None,
        }
    } else if rcpt_spec(s, intl) is Some {
        match rcpt_spec(s, intl) {
            Some((e, fp, ps)) => Some((e, CommandView::RCPT(fp, ps))),
            None => None,
        }
    } else if tag_nocase_at(s, 0, "DATA\r\n".spec_bytes()) {
        Some((6, CommandView::DATA))
    } else if tag_nocase_at(s, 0, "RSET\r\n".spec_bytes()) {
        Some((6, CommandView::RSET))
    } else if tag_nocase_at(s, 0, "NOOP".spec_bytes()) && opt_string_cmd_spec(s, 4, intl)
        is Some {
        match opt_string_cmd_spec(s, 4, intl) {
            Some((e, v)) => Some((e, CommandView::NOOP(v))),
            None => None,
        }
    } else if tag_nocase_at(s, 0, "QUIT\r\n".spec_bytes()) {
        Some((6, CommandView::QUIT))
    } else if tag_nocase_at(s, 0, "VRFY ".spec_bytes()) && string_cmd_spec(s, 5, intl) is Some {
        match string_cmd_spec(s, 5, intl) {
            Some((e, v)) => Some((e, CommandView::VRFY(v))),
            None => None,
        }
    } else if tag_nocase_at(s, 0, "EXPN ".spec_bytes()) && string_cmd_spec(s, 5, intl) is Some {
        match string_cmd_spec(s, 5, intl) {
            Some((e, v)) => Some((e, CommandView::EXPN(v))),
            None => None,
        }
    } else if tag_nocase_at(s, 0, "HELP".spec_bytes()) && opt_string_cmd_spec(s, 4, intl)
        is Some {
        match opt_string_cmd_spec(s, 4, intl) {
            Some((e, v)) => Some((e, CommandView::HELP(v))),
            None => None,
        }
    } else {
        None
    }
}

/// Parse any basic SMTP command: the first of the eleven command forms that
/// matches, tried in the order EHLO, HELO, MAIL, RCPT, DATA, RSET, NOOP,
/// QUIT, VRFY, EXPN, HELP.
pub fn command<P: UTF8Policy>(input: &[u8]) -> (r: ParseResult<Command>)
    ensures
        r is Ok <==> command_spec(input@, P::intl_spec()) is Some,
        r matches Ok((rem, c)) ==> command_spec(input@, P::intl_spec()) matches Some((e, cv))
            && c@ == cv && rem@ == input@.subrange(e, input@.len() as int),
{
    match ehlo_command(input) {
        Ok((rem, d)) => {
            return Ok((rem, Command::EHLO(d)));
        },
        Err(_) => {},
    }
    match helo_command(input) {
        Ok((rem, d)) => {
            return Ok((rem, Command::HELO(d)));
        },
        Err(_) => {},
    }
    match mail_command::<P>(input) {
        Ok((rem, (rp, ps))) => {
            return Ok((rem, Command::MAIL(rp, ps)));
        },
        Err(_) => {},
    }
    match rcpt_command::<P>(input) {
        Ok((rem, (fp, ps))) => {
            return Ok((rem, Command::RCPT(fp, ps)));
        },
        Err(_) => {},
    }
    match data_command(input) {
        Ok((rem, _)) => {
            return Ok((rem, Command::DATA));
        },
        Err(_) => {},
    }
    match rset_command(input) {
        Ok((rem, _)) => {
            return Ok((rem, Command::RSET));
        },
        Err(_) => {},
    }
    match noop_command::<P>(input) {
        Ok((rem, v)) => {
            return Ok((rem, Command::NOOP(v)));
        },
        Err(_) => {},
    }
    match quit_command(input) {
        Ok((rem, _)) => {
            return Ok((rem, Command::QUIT));
        },
        Err(_) => {},
    }
    match vrfy_command::<P>(input) {
        Ok((rem, v)) => {
            return Ok((rem, Command::VRFY(v)));
        },
        Err(_) => {},
    }
    match expn_command::<P>(input) {
        Ok((rem, v)) => {
            return Ok((rem, Command::EXPN(v)));
        },
        Err(_) => {},
    }
    match help_command::<P>(input) {
        Ok((rem, v)) => {
            return Ok((rem, Command::HELP(v)));
        },
        Err(_) => {},
    }
    Err(ParseError)
}

/// Validate an email address: the whole input must parse as an SMTP mailbox,
/// and the empty address is not accepted.
pub fn validate_address<P: UTF8Policy>(i: &[u8]) -> (r: bool)
    ensures
        r == (mailbox_spec(i@, 0, P::intl_spec()) matches Some((e, m)) && e == i@.len()),
{
    let intl = P::intl();
    match mailbox_at(i, 0, intl) {
        Some((e, _)) => e == i.len(),
        None => false,
    }
}

} // verus!

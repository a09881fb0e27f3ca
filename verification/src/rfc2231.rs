//! Encoded MIME parameters: RFC 2045 syntax extended with RFC 2231.
//!
//! A parameter list holds plain `key=value` pairs and the extended forms
//! `key*=charset'language'percent-text` and `key*N[*]=fragment`.  Fragments
//! of one parameter are reassembled in section order, and runs of adjacent
//! percent-encoded fragments are joined as raw bytes before charset decoding,
//! so a multi-byte character split across a section boundary survives.

use vstd::prelude::*;
use vstd::utf8::decode_utf8;
use vstd::utf8::valid_utf8;
use vstd::string::StringSliceAdditionalSpecFns;

use crate::rfc5322::ofws_end;
use crate::rfc5322::qs_end;
use crate::rfc5322::qs_text;
use crate::rfc5322::quoted_string_at;
use crate::rfc5322::crlf_at;
use crate::util::Cls;
use crate::util::ParseError;
use crate::util::ParseResult;
use crate::util::cls_has;
use crate::util::cls_spec;
use crate::util::dec_val;
use crate::util::hex_val;
use crate::util::hexpair;
use crate::util::lower;
use crate::util::run_end;
use crate::util::run_text;
use crate::util::scan;
use crate::util::scan_end;
use crate::util::string_from_utf8;
use crate::util::sub_vec;
use crate::util::tag_nocase_at;
use crate::util::tail_vec;
use crate::util::to_lower;

verus! {

/// The value carried by one parsed parameter.
pub enum PValView {
    /// A plain token or quoted-string value, already text.
    Regular(Seq<char>),
    /// An initial extended value: optional charset label, percent-decoded
    /// bytes (the language tag is dropped).
    Ext {
        /// The charset label of the section-0 fragment, when present.
        charset: Option<Seq<u8>>,
        /// The percent-decoded raw bytes.
        value: Seq<u8>,
    },
    /// A continuation extended value: percent-decoded bytes.
    ExtCont(Seq<u8>),
}

/// One parsed parameter: lower-cased name, optional section number, value.
pub struct PParamView {
    /// The parameter's base name, lower-cased.
    pub name: Seq<u8>,
    /// The section number, when the parameter is one fragment of a larger
    /// value.
    pub section: Option<int>,
    /// The value.
    pub val: PValView,
}

/// The value carried by one parsed parameter (exec form).
pub enum PVal {
    /// A plain token or quoted-string value.
    Regular(String),
    /// An initial extended value.
    Ext {
        /// The charset label, when present.
        charset: Option<Vec<u8>>,
        /// The percent-decoded raw bytes.
        value: Vec<u8>,
    },
    /// A continuation extended value.
    ExtCont(Vec<u8>),
}

/// One parsed parameter (exec form).
pub struct PParam {
    /// The parameter's base name, lower-cased.
    pub name: Vec<u8>,
    /// The section number, when any.
    pub section: Option<u32>,
    /// The value.
    pub val: PVal,
}

impl View for PParam {
    type V = PParamView;

    open spec fn view(&self) -> PParamView {
        PParamView {
            name: self.name@,
            section: match self.section {
                Some(n) => Some(n as int),
                None => None,
            },
            val: match self.val {
                PVal::Regular(ref v) => PValView::Regular(v@),
                PVal::Ext { ref charset, ref value } => PValView::Ext {
                    charset: match charset {
                        Some(c) => Some(c@),
                        None => None,
                    },
                    value: value@,
                },
                PVal::ExtCont(ref v) => PValView::ExtCont(v@),
            },
        }
    }
}

impl DeepView for PParam {
    type V = PParamView;

    open spec fn deep_view(&self) -> PParamView {
        self.view()
    }
}

/// The attribute run starting at `i`, lower-cased.
pub open spec fn attr_lower(s: Seq<u8>, i: int) -> Seq<u8> {
    s.subrange(i, scan_end(s, i, Cls::AttrChar)).map_values(|b: u8| lower(b))
}

/// Read the attribute run `[i, e)` in lower case.
fn attr_lower_at(s: &[u8], i: usize, e: usize) -> (r: Vec<u8>)
    requires
        i <= e <= s@.len(),
    ensures
        r@ == s@.subrange(i as int, e as int).map_values(|b: u8| lower(b)),
{
    let mut out: Vec<u8> = Vec::new();
    let mut k: usize = i;
    while k < e
        invariant
            i <= k <= e <= s@.len(),
            out@ == s@.subrange(i as int, k as int).map_values(|b: u8| lower(b)),
        decreases e - k,
    {
        out.push(to_lower(s[k]));
        proof {
            assert(out@ =~= s@.subrange(i as int, k + 1).map_values(|b: u8| lower(b)));
        }
        k += 1;
    }
    out
}

/// What a section marker at `i` parses to: `*0`, or `*` and a number of one
/// to eight digits not beginning with zero.
pub open spec fn section_spec(s: Seq<u8>, i: int) -> Option<(int, int)> {
    if 0 <= i && i + 2 <= s.len() && s[i] == 42 && s[i + 1] == 48 {
        Some((i + 2, 0))
    } else if 0 <= i && i + 1 < s.len() && s[i] == 42 && cls_spec(Cls::Digit, s[i + 1]) && s[i
        + 1] != 48 {
        let e = if scan_end(s, i + 1, Cls::Digit) > i + 9 {
            i + 9
        } else {
            scan_end(s, i + 1, Cls::Digit)
        };
        Some((e, dec_val(s.subrange(i + 1, e))))
    } else {
        None
    }
}

/// Parse a section marker at `i`.
fn section_at(s: &[u8], i: usize) -> (r: Option<(usize, u32)>)
    requires
        i <= s@.len(),
    ensures
        r is Some <==> section_spec(s@, i as int) is Some,
        r matches Some((e, v)) ==> section_spec(s@, i as int) == Some((e as int, v as int)) && i
            < e <= s@.len(),
{
    proof {
        if i < s@.len() {
            crate::util::lemma_scan_end_pub(s@, i + 1, Cls::Digit);
        }
    }
    let n = s.len();
    if !(i < n && s[i] == 42) {
        return None;
    }
    if i + 1 < n && s[i + 1] == 48 {
        return Some((i + 2, 0));
    }
    if i + 1 < n && cls_has(Cls::Digit, s[i + 1]) {
        let run = scan(s, i + 1, Cls::Digit);
        let e = if run - (i + 1) > 8 {
            i + 9
        } else {
            run
        };
        proof {
            assert(forall|m: int| i + 1 <= m < e ==> cls_spec(Cls::Digit, #[trigger] s@[m]));
        }
        let v = crate::util::dec_value(s, i + 1, e);
        return Some((e, v));
    }
    None
}

/// End of the `= `-with-whitespace separator at `i`: optional folding
/// whitespace, an equals sign, optional folding whitespace.
pub open spec fn equals_end(s: Seq<u8>, i: int) -> Option<int> {
    let a = ofws_end(s, i);
    if 0 <= a < s.len() && s[a] == 61 {
        Some(ofws_end(s, a + 1))
    } else {
        None
    }
}

fn equals_at(s: &[u8], i: usize) -> (r: Option<usize>)
    requires
        i <= s@.len(),
    ensures
        r is Some <==> equals_end(s@, i as int) is Some,
        r matches Some(e) ==> equals_end(s@, i as int) == Some(e as int) && i < e <= s@.len(),
{
    proof {
        crate::rfc5322::lemma_fws_bounds_pub(s@, i as int);
    }
    let mut scratch: Vec<u8> = Vec::new();
    let a = crate::rfc5322::ofws_pub(s, i, &mut scratch);
    if a < s.len() && s[a] == 61 {
        proof {
            crate::rfc5322::lemma_fws_bounds_pub(s@, a + 1);
        }
        let mut scratch2: Vec<u8> = Vec::new();
        let e = crate::rfc5322::ofws_pub(s, a + 1, &mut scratch2);
        Some(e)
    } else {
        None
    }
}

/// Length of one percent-text unit at `i`: `%` and two hex digits, or one
/// attribute byte.
pub open spec fn pct_unit_len(s: Seq<u8>, i: int) -> int {
    if 0 <= i < s.len() && s[i] == 37 && i + 3 <= s.len() && cls_spec(Cls::HexDig, s[i + 1])
        && cls_spec(Cls::HexDig, s[i + 2]) {
        3
    } else if 0 <= i < s.len() && cls_spec(Cls::AttrChar, s[i]) {
        1
    } else {
        0
    }
}

/// The byte one percent-text unit decodes to.
pub open spec fn pct_unit_byte(s: Seq<u8>, i: int) -> u8 {
    if pct_unit_len(s, i) == 3 {
        (16 * hex_val(s[i + 1]) + hex_val(s[i + 2])) as u8
    } else {
        s[i]
    }
}

/// End of the percent-text run starting at `i`.
pub open spec fn pct_end(s: Seq<u8>, i: int) -> int
    decreases s.len() - i,
    when 0 <= i <= s.len()
{
    if pct_unit_len(s, i) == 0 {
        i
    } else {
        pct_end(s, i + pct_unit_len(s, i))
    }
}

/// The bytes the percent-text run starting at `i` decodes to.
pub open spec fn pct_bytes(s: Seq<u8>, i: int) -> Seq<u8>
    decreases s.len() - i,
    when 0 <= i <= s.len()
{
    if pct_unit_len(s, i) == 0 {
        seq![]
    } else {
        seq![pct_unit_byte(s, i)] + pct_bytes(s, i + pct_unit_len(s, i))
    }
}

proof fn lemma_pct_bounds(s: Seq<u8>, i: int)
    requires
        0 <= i <= s.len(),
    ensures
        i <= pct_end(s, i) <= s.len(),
    decreases s.len() - i,
{
    if pct_unit_len(s, i) != 0 {
        lemma_pct_bounds(s, i + pct_unit_len(s, i));
    }
}

/// Decode the percent-text run starting at `i` into `out`.
fn pct_run(s: &[u8], i: usize, out: &mut Vec<u8>) -> (j: usize)
    requires
        i <= s@.len(),
    ensures
        j == pct_end(s@, i as int),
        i <= j <= s@.len(),
        final(out)@ == old(out)@ + pct_bytes(s@, i as int),
{
    let n = s.len();
    let mut j: usize = i;
    loop
        invariant
            n == s@.len(),
            i <= j <= n,
            pct_end(s@, i as int) == pct_end(s@, j as int),
            old(out)@ + pct_bytes(s@, i as int) == out@ + pct_bytes(s@, j as int),
        decreases n - j,
    {
        let ghost out_pre = out@;
        let l: usize;
        if j < n && s[j] == 37 {
            match hexpair(s, j + 1) {
                Some((_, v)) => {
                    out.push(v);
                    l = 3;
                },
                None => {
                    break;
                },
            }
        } else if j < n && cls_has(Cls::AttrChar, s[j]) {
            out.push(s[j]);
            l = 1;
        } else {
            break;
        }
        proof {
            assert(out@ =~= out_pre + seq![pct_unit_byte(s@, j as int)]);
            assert(out@ + pct_bytes(s@, j + l) =~= out_pre + pct_bytes(s@, j as int));
        }
        j += l;
    }
    proof {
        lemma_pct_bounds(s@, j as int);
        assert(out@ =~= old(out)@ + pct_bytes(s@, i as int));
    }
    j
}

/// What one parameter at `i` parses to: a regular `name[*N]=value` pair with
/// a token or quoted-string value, or one of the extended percent-encoded
/// forms.
pub open spec fn param_spec(s: Seq<u8>, i: int) -> Option<(int, PParamView)> {
    if !(0 <= i <= s.len()) {
        None
    } else {
        let ne = scan_end(s, i, Cls::AttrChar);
        if ne == i {
            None
        } else {
            let name = attr_lower(s, i);
            let (after_sec, sec) = match section_spec(s, ne) {
                Some((e, v)) => (e, Some(v)),
                None => (ne, None),
            };
            // regular parameter: name [section] = value
            match regular_tail(s, after_sec) {
                Some((e, v)) => Some(
                    (e, PParamView { name, section: sec, val: PValView::Regular(v) }),
                ),
                None => {
                    // extended parameter: name [initial-section] "*" = ...
                    if after_sec < s.len() && s[after_sec] == 42 {
                        match equals_end(s, after_sec + 1) {
                            Some(ve) => {
                                match sec {
                                    Some(n) => {
                                        if n == 0 {
                                            match ext_initial(s, ve) {
                                                Some((e, cs, vb)) => Some(
                                                    (
                                                        e,
                                                        PParamView {
                                                            name,
                                                            section: Some(0),
                                                            val: PValView::Ext {
                                                                charset: cs,
                                                                value: vb,
                                                            },
                                                        },
                                                    ),
                                                ),
                                                None => None,
                                            }
                                        } else {
                                            Some(
                                                (
                                                    pct_end(s, ve),
                                                    PParamView {
                                                        name,
                                                        section: Some(n),
                                                        val: PValView::ExtCont(pct_bytes(s, ve)),
                                                    },
                                                ),
                                            )
                                        }
                                    },
                                    None => {
                                        match ext_initial(s, ve) {
                                            Some((e, cs, vb)) => Some(
                                                (
                                                    e,
                                                    PParamView {
                                                        name,
                                                        section: None,
                                                        val: PValView::Ext {
                                                            charset: cs,
                                                            value: vb,
                                                        },
                                                    },
                                                ),
                                            ),
                                            None => None,
                                        }
                                    },
                                }
                            },
                            None => None,
                        }
                    } else {
                        None
                    }
                },
            }
        }
    }
}

/// What the value of a regular parameter at `p` (after the name and optional
/// section) parses to: `=` and a token or quoted string.
pub open spec fn regular_tail(s: Seq<u8>, p: int) -> Option<(int, Seq<char>)> {
    if !(0 <= p <= s.len()) {
        None
    } else {
        match equals_end(s, p) {
            Some(ve) => {
                if 0 <= ve <= s.len() && run_end(s, ve, Cls::Tok31, false, false) > ve {
                    Some(
                        (
                            run_end(s, ve, Cls::Tok31, false, false),
                            decode_utf8(run_text(s, ve, Cls::Tok31, false, false)),
                        ),
                    )
                } else {
                    match qs_end(s, ve, true) {
                        Some(e) => Some((e, decode_utf8(qs_text(s, ve, true)))),
                        None => None,
                    }
                }
            },
            None => None,
        }
    }
}

/// What an initial extended value at `v` parses to:
/// `[charset] "'" [language] "'"` and a percent-text run.
pub open spec fn ext_initial(s: Seq<u8>, v: int) -> Option<(int, Option<Seq<u8>>, Seq<u8>)> {
    if !(0 <= v <= s.len()) {
        None
    } else {
        let ce = scan_end(s, v, Cls::AttrChar);
        if ce < s.len() && s[ce] == 39 {
            let cs = if ce > v {
                Some(s.subrange(v, ce))
            } else {
                None
            };
            let le = scan_end(s, ce + 1, Cls::AttrChar);
            if le < s.len() && s[le] == 39 {
                Some((pct_end(s, le + 1), cs, pct_bytes(s, le + 1)))
            } else {
                None
            }
        } else {
            None
        }
    }
}

proof fn lemma_param_bounds(s: Seq<u8>, i: int)
    requires
        0 <= i <= s.len(),
    ensures
        param_spec(s, i) matches Some((e, p)) ==> i < e <= s.len(),
{
    crate::util::lemma_scan_end_pub(s, i, Cls::AttrChar);
    let ne = scan_end(s, i, Cls::AttrChar);
    if ne > i {
        if ne < s.len() {
            crate::util::lemma_scan_end_pub(s, ne + 1, Cls::Digit);
        }
        let (after_sec, sec) = match section_spec(s, ne) {
            Some((e, v)) => (e, Some(v)),
            None => (ne, None),
        };
        lemma_regular_tail_bounds(s, after_sec);
        if after_sec < s.len() {
            match equals_end(s, after_sec + 1) {
                Some(ve) => {
                    crate::rfc5322::lemma_fws_bounds_pub(s, after_sec + 1);
                    let a = ofws_end(s, after_sec + 1);
                    if 0 <= a < s.len() {
                        crate::rfc5322::lemma_fws_bounds_pub(s, a + 1);
                    }
                    if 0 <= ve <= s.len() {
                        lemma_pct_bounds(s, ve);
                        lemma_ext_initial_bounds(s, ve);
                    }
                },
                None => {},
            }
        }
    }
}

proof fn lemma_regular_tail_bounds(s: Seq<u8>, p: int)
    requires
        0 <= p <= s.len(),
    ensures
        regular_tail(s, p) matches Some((e, v)) ==> p < e <= s.len(),
{
    crate::rfc5322::lemma_fws_bounds_pub(s, p);
    let a = ofws_end(s, p);
    if 0 <= a < s.len() {
        crate::rfc5322::lemma_fws_bounds_pub(s, a + 1);
    }
    match equals_end(s, p) {
        Some(ve) => {
            if 0 <= ve <= s.len() {
                crate::util::lemma_run_end_bounds_pub(s, ve, Cls::Tok31, false, false);
                crate::rfc5322::lemma_qs_bounds_pub(s, ve, true);
            }
        },
        None => {},
    }
}

proof fn lemma_ext_initial_bounds(s: Seq<u8>, v: int)
    requires
        0 <= v <= s.len(),
    ensures
        ext_initial(s, v) matches Some((e, cs, vb)) ==> v < e <= s.len(),
{
    crate::util::lemma_scan_end_pub(s, v, Cls::AttrChar);
    let ce = scan_end(s, v, Cls::AttrChar);
    if ce < s.len() {
        crate::util::lemma_scan_end_pub(s, ce + 1, Cls::AttrChar);
        let le = scan_end(s, ce + 1, Cls::AttrChar);
        if le < s.len() {
            lemma_pct_bounds(s, le + 1);
        }
    }
}

/// Parse one parameter at `i`.
#[verifier::rlimit(100)]
fn param_at(s: &[u8], i: usize) -> (r: Option<(usize, PParam)>)
    requires
        i <= s@.len(),
    ensures
        r is Some <==> param_spec(s@, i as int) is Some,
        r matches Some((e, p)) ==> param_spec(s@, i as int) matches Some((se, sv)) && e == se
            && p@ == sv && i < e <= s@.len(),
{
    proof {
        lemma_param_bounds(s@, i as int);
        crate::util::lemma_scan_end_pub(s@, i as int, Cls::AttrChar);
    }
    let n = s.len();
    let ne = scan(s, i, Cls::AttrChar);
    if ne == i {
        return None;
    }
    let name = attr_lower_at(s, i, ne);
    let after_sec: usize;
    let sec: Option<u32>;
    match section_at(s, ne) {
        Some((e, v)) => {
            after_sec = e;
            sec = Some(v);
        },
        None => {
            after_sec = ne;
            sec = None;
        },
    }
    proof {
        lemma_regular_tail_bounds(s@, after_sec as int);
    }
    match regular_tail_at(s, after_sec) {
        Some((e, v)) => {
            return Some((e, PParam { name, section: sec, val: PVal::Regular(v) }));
        },
        None => {},
    }
    if after_sec < n && s[after_sec] == 42 {
        match equals_at(s, after_sec + 1) {
            Some(ve) => {
                proof {
                    lemma_pct_bounds(s@, ve as int);
                    lemma_ext_initial_bounds(s@, ve as int);
                }
                match sec {
                    Some(secn) => {
                        if secn == 0 {
                            match ext_initial_at(s, ve) {
                                Some((e, cs, vb)) => {
                                    return Some(
                                        (
                                            e,
                                            PParam {
                                                name,
                                                section: Some(0),
                                                val: PVal::Ext { charset: cs, value: vb },
                                            },
                                        ),
                                    );
                                },
                                None => {
                                    return None;
                                },
                            }
                        } else {
                            let mut vb: Vec<u8> = Vec::new();
                            let e = pct_run(s, ve, &mut vb);
                            return Some(
                                (
                                    e,
                                    PParam {
                                        name,
                                        section: Some(secn),
                                        val: PVal::ExtCont(vb),
                                    },
                                ),
                            );
                        }
                    },
                    None => {
                        match ext_initial_at(s, ve) {
                            Some((e, cs, vb)) => {
                                return Some(
                                    (
                                        e,
                                        PParam {
                                            name,
                                            section: None,
                                            val: PVal::Ext { charset: cs, value: vb },
                                        },
                                    ),
                                );
                            },
                            None => {
                                return None;
                            },
                        }
                    },
                }
            },
            None => {
                return None;
            },
        }
    }
    None
}

/// Parse the value of a regular parameter at `p`.
fn regular_tail_at(s: &[u8], p: usize) -> (r: Option<(usize, String)>)
    requires
        p <= s@.len(),
    ensures
        r is Some <==> regular_tail(s@, p as int) is Some,
        r matches Some((e, v)) ==> regular_tail(s@, p as int) matches Some((se, sv)) && e == se
            && v@ == sv && p < e <= s@.len(),
{
    proof {
        lemma_regular_tail_bounds(s@, p as int);
    }
    match equals_at(s, p) {
        Some(ve) => {
            proof {
                crate::util::lemma_run_end_bounds_pub(s@, ve as int, Cls::Tok31, false, false);
                crate::util::lemma_run_text_valid(s@, ve as int, Cls::Tok31, false, false);
            }
            let mut buf: Vec<u8> = Vec::new();
            let te = crate::util::text_run(s, ve, Cls::Tok31, false, false, &mut buf);
            if te > ve {
                return Some((te, string_from_utf8(buf)));
            }
            match quoted_string_at(s, ve, true) {
                Some((e, text)) => Some((e, string_from_utf8(text))),
                None => None,
            }
        },
        None => None,
    }
}

/// Parse an initial extended value at `v`.
fn ext_initial_at(s: &[u8], v: usize) -> (r: Option<(usize, Option<Vec<u8>>, Vec<u8>)>)
    requires
        v <= s@.len(),
    ensures
        r is Some <==> ext_initial(s@, v as int) is Some,
        r matches Some((e, cs, vb)) ==> ext_initial(s@, v as int) matches Some(
            (se, scs, svb),
        ) && e == se && vb@ == svb && (match (cs, scs) {
            (Some(a), Some(b)) => a@ == b,
            (None, None) => true,
            _ => false,
        }) && v < e <= s@.len(),
{
    proof {
        lemma_ext_initial_bounds(s@, v as int);
        crate::util::lemma_scan_end_pub(s@, v as int, Cls::AttrChar);
    }
    let n = s.len();
    let ce = scan(s, v, Cls::AttrChar);
    if !(ce < n && s[ce] == 39) {
        return None;
    }
    let cs: Option<Vec<u8>> = if ce > v {
        Some(sub_vec(s, v, ce))
    } else {
        None
    };
    proof {
        crate::util::lemma_scan_end_pub(s@, ce + 1, Cls::AttrChar);
    }
    let le = scan(s, ce + 1, Cls::AttrChar);
    if !(le < n && s[le] == 39) {
        return None;
    }
    proof {
        lemma_pct_bounds(s@, le + 1);
    }
    let mut vb: Vec<u8> = Vec::new();
    let e = pct_run(s, le + 1, &mut vb);
    Some((e, cs, vb))
}

/// Where the parameter list starting at `i` ends: `";"`-introduced
/// parameters, an optional dangling `";"`, an optional final CRLF.
pub open spec fn plist_end(s: Seq<u8>, i: int) -> int
    decreases s.len() - i, 1int,
    when 0 <= i <= s.len() via plist_end_dec
{
    if i < s.len() && s[i] == 59 && param_spec(s, ofws_end(s, i + 1)) is Some {
        match param_spec(s, ofws_end(s, i + 1)) {
            Some((e, p)) => if i < e <= s.len() {
                plist_end(s, e)
            } else {
                i
            },
            None => i,
        }
    } else {
        let t = if i < s.len() && s[i] == 59 {
            i + 1
        } else {
            i
        };
        if crlf_at(s, t) {
            t + 2
        } else {
            t
        }
    }
}

#[via_fn]
proof fn plist_end_dec(s: Seq<u8>, i: int) {
    if i < s.len() {
        crate::rfc5322::lemma_fws_bounds_pub(s, i + 1);
        lemma_param_bounds(s, ofws_end(s, i + 1));
    }
}

/// The parameters of the list starting at `i`.
pub open spec fn plist_list(s: Seq<u8>, i: int) -> Seq<PParamView>
    decreases s.len() - i, 1int,
    when 0 <= i <= s.len() via plist_list_dec
{
    if i < s.len() && s[i] == 59 && param_spec(s, ofws_end(s, i + 1)) is Some {
        match param_spec(s, ofws_end(s, i + 1)) {
            Some((e, p)) => if i < e <= s.len() {
                seq![p] + plist_list(s, e)
            } else {
                Seq::empty()
            },
            None => Seq::empty(),
        }
    } else {
        Seq::empty()
    }
}

#[via_fn]
proof fn plist_list_dec(s: Seq<u8>, i: int) {
    if i < s.len() {
        crate::rfc5322::lemma_fws_bounds_pub(s, i + 1);
        lemma_param_bounds(s, ofws_end(s, i + 1));
    }
}

proof fn lemma_plist_bounds(s: Seq<u8>, i: int)
    requires
        0 <= i <= s.len(),
    ensures
        i <= plist_end(s, i) <= s.len(),
    decreases s.len() - i,
{
    if i < s.len() {
        crate::rfc5322::lemma_fws_bounds_pub(s, i + 1);
        lemma_param_bounds(s, ofws_end(s, i + 1));
        if s[i] == 59 {
            match param_spec(s, ofws_end(s, i + 1)) {
                Some((e, p)) => {
                    if i < e <= s.len() {
                        lemma_plist_bounds(s, e);
                    }
                },
                None => {},
            }
        }
    }
}

/// Parse the parameter list starting at `i`.
fn plist_at(s: &[u8], i: usize) -> (r: (usize, Vec<PParam>))
    requires
        i <= s@.len(),
    ensures
        r.0 == plist_end(s@, i as int),
        i <= r.0 <= s@.len(),
        r.1.deep_view() == plist_list(s@, i as int),
{
    proof {
        lemma_plist_bounds(s@, i as int);
    }
    let n = s.len();
    let mut out: Vec<PParam> = Vec::new();
    let mut p: usize = i;
    proof {
        assert(out.deep_view() =~= Seq::<PParamView>::empty());
    }
    loop
        invariant
            i <= p <= n == s@.len(),
            plist_end(s@, i as int) == plist_end(s@, p as int),
            plist_list(s@, i as int) == out.deep_view() + plist_list(s@, p as int),
        decreases n - p,
    {
        proof {
            if p < s@.len() {
                crate::rfc5322::lemma_fws_bounds_pub(s@, p + 1);
                lemma_param_bounds(s@, ofws_end(s@, p + 1));
            }
        }
        if p < n && s[p] == 59 {
            let mut scratch: Vec<u8> = Vec::new();
            let f = crate::rfc5322::ofws_pub(s, p + 1, &mut scratch);
            match param_at(s, f) {
                Some((e, pv)) => {
                    let ghost out_pre = out.deep_view();
                    out.push(pv);
                    proof {
                        assert(out.deep_view() =~= out_pre.push(pv@));
                        assert(out.deep_view() + plist_list(s@, e as int) =~= out_pre
                            + plist_list(s@, p as int));
                    }
                    p = e;
                    continue;
                },
                None => {},
            }
        }
        let t: usize = if p < n && s[p] == 59 {
            p + 1
        } else {
            p
        };
        let fin: usize = if n - t >= 2 && s[t] == 13 && s[t + 1] == 10 {
            t + 2
        } else {
            t
        };
        proof {
            assert(plist_list(s@, p as int) =~= Seq::<PParamView>::empty());
            assert(out.deep_view() =~= plist_list(s@, i as int));
            assert(plist_end(s@, p as int) == fin as int);
        }
        return (fin, out);
    }
}


/// Whether the codec registry knows the charset label.  Stands for the
/// success of encoding_rs label lookup.
pub uninterp spec fn mime_label_known(label: Seq<u8>) -> bool;

/// Relies on encoding_rs::Encoding::for_label: whether a label names a known
/// encoding depends on the label bytes alone.
#[verifier::external_body]
fn charset_known(label: &[u8]) -> (r: bool)
    ensures
        r == mime_label_known(label@),
{
    encoding_rs::Encoding::for_label(label).is_some()
}

/// What decoding `bytes` under the optional charset label yields.  Stands
/// for encoding_rs decoding: a label-selected decoder falling back to UTF-8,
/// replacing undecodable input.
pub uninterp spec fn mime_decode(label: Option<Seq<u8>>, bytes: Seq<u8>) -> Seq<char>;

/// Relies on encoding_rs::Encoding::for_label and
/// Encoding::decode_without_bom_handling: an absent or unknown label falls
/// back to UTF-8, the replacing decode never fails, and the result depends on
/// the label and the bytes alone.
#[verifier::external_body]
fn decode_mime(label: Option<&Vec<u8>>, bytes: &[u8]) -> (r: String)
    ensures
        r@ == mime_decode(
            match label {
                Some(l) => Some(l@),
                None => None,
            },
            bytes@,
        ),
{
    let codec = match label {
        Some(l) => encoding_rs::Encoding::for_label(l).unwrap_or(encoding_rs::UTF_8),
        None => encoding_rs::UTF_8,
    };
    codec.decode_without_bom_handling(bytes).0.into_owned()
}

/// One fragment of a multi-section parameter value.
pub enum Piece {
    /// Percent-decoded raw bytes, not yet charset-decoded.
    Enc(Vec<u8>),
    /// Already-decoded text from a token or quoted string.
    Dec(String),
}

/// Mirror of [`Piece`].
pub enum PieceView {
    /// Mirror of [`Piece::Enc`].
    Enc(Seq<u8>),
    /// Mirror of [`Piece::Dec`].
    Dec(Seq<char>),
}

/// A fragment with its section number.
pub struct Frag {
    /// The section number.
    pub section: u32,
    /// The fragment.
    pub piece: Piece,
}

/// Mirror of [`Frag`].
pub struct FragView {
    /// The section number.
    pub section: int,
    /// The fragment.
    pub piece: PieceView,
}

impl View for Frag {
    type V = FragView;

    open spec fn view(&self) -> FragView {
        FragView {
            section: self.section as int,
            piece: match self.piece {
                Piece::Enc(ref b) => PieceView::Enc(b@),
                Piece::Dec(ref t) => PieceView::Dec(t@),
            },
        }
    }
}

impl DeepView for Frag {
    type V = FragView;

    open spec fn deep_view(&self) -> FragView {
        self.view()
    }
}

/// Index of the first fragment with the smallest section number, scanning
/// from `j` with current best `cur`.
pub open spec fn min_idx_from(fs: Seq<FragView>, j: int, cur: int) -> int
    decreases fs.len() - j,
    when 0 <= cur < fs.len() && cur <= j
{
    if j >= fs.len() {
        cur
    } else if fs[j].section < fs[cur].section {
        min_idx_from(fs, j + 1, j)
    } else {
        min_idx_from(fs, j + 1, cur)
    }
}

proof fn lemma_min_idx(fs: Seq<FragView>, j: int, cur: int)
    requires
        0 <= cur < fs.len(),
        cur <= j,
    ensures
        0 <= min_idx_from(fs, j, cur) < fs.len(),
    decreases fs.len() - j,
{
    if j < fs.len() {
        if fs[j].section < fs[cur].section {
            lemma_min_idx(fs, j + 1, j);
        } else {
            lemma_min_idx(fs, j + 1, cur);
        }
    }
}

/// The fragments in ascending section order; fragments with equal sections
/// keep their relative order.
pub open spec fn sorted_frags(fs: Seq<FragView>) -> Seq<FragView>
    decreases fs.len(),
    when fs.len() >= 0 via sorted_frags_dec
{
    if fs.len() == 0 {
        Seq::empty()
    } else {
        let m = min_idx_from(fs, 1, 0);
        seq![fs[m]] + sorted_frags(fs.remove(m))
    }
}

#[via_fn]
proof fn sorted_frags_dec(fs: Seq<FragView>) {
    if fs.len() > 0 {
        lemma_min_idx(fs, 1, 0);
    }
}

/// Sort fragments by section, stably, by repeatedly extracting the first
/// fragment with the smallest section.
fn sort_frags(input: Vec<Frag>) -> (r: Vec<Frag>)
    ensures
        r.deep_view() == sorted_frags(input.deep_view()),
{
    let mut work = input;
    let mut out: Vec<Frag> = Vec::new();
    proof {
        assert(out.deep_view() =~= Seq::<FragView>::empty());
    }
    while work.len() > 0
        invariant
            sorted_frags(input.deep_view()) == out.deep_view() + sorted_frags(
                work.deep_view(),
            ),
        decreases work@.len(),
    {
        let ghost wv = work.deep_view();
        proof {
            lemma_min_idx(wv, 1, 0);
        }
        let mut m: usize = 0;
        let mut j: usize = 1;
        while j < work.len()
            invariant
                0 <= m < work@.len(),
                m < j,
                j <= work@.len(),
                wv == work.deep_view(),
                min_idx_from(wv, 1, 0) == min_idx_from(wv, j as int, m as int),
            decreases work@.len() - j,
        {
            proof {
                assert(work[j as int].deep_view() == wv[j as int]);
                assert(work[m as int].deep_view() == wv[m as int]);
            }
            if work[j].section < work[m].section {
                m = j;
            }
            j += 1;
        }
        let ghost work_pre = work.deep_view();
        let ghost workv_pre = work@;
        let f = work.remove(m);
        let ghost out_pre = out.deep_view();
        out.push(f);
        proof {
            assert(f == workv_pre[m as int]);
            assert(f.deep_view() == work_pre[m as int]);
            assert(out.deep_view() =~= out_pre.push(work_pre[m as int]));
            assert(work@ =~= workv_pre.remove(m as int));
            assert forall|q: int| 0 <= q < work.deep_view().len() implies work.deep_view()[q]
                == work_pre.remove(m as int)[q] by {
                if q < m {
                    assert(work@[q] == workv_pre[q]);
                } else {
                    assert(work@[q] == workv_pre[q + 1]);
                }
            }
            assert(work.deep_view() =~= work_pre.remove(m as int));
            assert(sorted_frags(work_pre) =~= seq![work_pre[m as int]] + sorted_frags(
                work_pre.remove(m as int),
            ));
            assert(out.deep_view() + sorted_frags(work.deep_view()) =~= out_pre + sorted_frags(
                work_pre,
            ));
        }
    }
    proof {
        assert(sorted_frags(work.deep_view()) =~= Seq::<FragView>::empty());
        assert(out.deep_view() =~= sorted_frags(input.deep_view()));
    }
    out
}

/// What walking sorted fragments yields: raw bytes of adjacent
/// percent-decoded fragments are gathered and charset-decoded together;
/// already-decoded text flushes the gathered bytes first and passes through.
pub open spec fn clump_decode(
    fs: Seq<FragView>,
    acc: Seq<u8>,
    label: Option<Seq<u8>>,
) -> Seq<char>
    decreases fs.len(),
{
    if fs.len() == 0 {
        mime_decode(label, acc)
    } else {
        match fs[0].piece {
            PieceView::Enc(b) => clump_decode(fs.drop_first(), acc + b, label),
            PieceView::Dec(t) => mime_decode(label, acc) + t + clump_decode(
                fs.drop_first(),
                Seq::empty(),
                label,
            ),
        }
    }
}

/// The decoded value of a multi-section parameter: its fragments in section
/// order, raw byte runs clumped before charset decoding.
pub open spec fn segments_text(fs: Seq<FragView>, label: Option<Seq<u8>>) -> Seq<char> {
    clump_decode(sorted_frags(fs), Seq::empty(), label)
}

/// Decode a multi-section parameter value: sort the fragments by section,
/// then walk them, joining adjacent raw runs before each charset decode.
fn decode_segments(input: Vec<Frag>, label: Option<&Vec<u8>>) -> (r: String)
    ensures
        r@ == segments_text(
            input.deep_view(),
            match label {
                Some(l) => Some(l@),
                None => None,
            },
        ),
{
    let ghost lv: Option<Seq<u8>> = match label {
        Some(l) => Some(l@),
        None => None,
    };
    let sorted = sort_frags(input);
    let ghost sv = sorted.deep_view();
    let mut rest = sorted;
    let mut out: String = String::new();
    let mut acc: Vec<u8> = Vec::new();
    let ghost mut k: int = 0;
    proof {
        assert(rest.deep_view() =~= sv.subrange(0, sv.len() as int));
    }
    while rest.len() > 0
        invariant
            0 <= k <= sv.len(),
            rest.deep_view() == sv.subrange(k, sv.len() as int),
            clump_decode(sv, Seq::empty(), lv) == out@ + clump_decode(
                sv.subrange(k, sv.len() as int),
                acc@,
                lv,
            ),
        decreases rest@.len(),
    {
        let ghost rest_pre = rest.deep_view();
        let ghost restv = rest@;
        let item = rest.remove(0);
        proof {
            assert(item == restv[0]);
            assert(rest_pre[0] == restv[0].deep_view());
            assert(rest_pre[0] == sv[k]);
            assert(rest@ =~= restv.subrange(1, restv.len() as int));
            assert forall|m: int| 0 <= m < rest.deep_view().len() implies rest.deep_view()[m]
                == sv.subrange(k + 1, sv.len() as int)[m] by {
                assert(rest@[m] == restv[m + 1]);
                assert(rest.deep_view()[m] == restv[m + 1].deep_view());
                assert(restv[m + 1].deep_view() == rest_pre[m + 1]);
            }
            assert(rest.deep_view() =~= sv.subrange(k + 1, sv.len() as int));
            assert(sv.subrange(k, sv.len() as int).drop_first() =~= sv.subrange(
                k + 1,
                sv.len() as int,
            ));
        }
        match item.piece {
            Piece::Enc(b) => {
                let ghost acc_pre = acc@;
                let mut bb = b;
                acc.append(&mut bb);
                proof {
                    assert(acc@ =~= acc_pre + sv[k].piece->Enc_0);
                }
            },
            Piece::Dec(t) => {
                out.append(decode_mime(label, acc.as_slice()).as_str());
                out.append(t.as_str());
                acc = Vec::new();
            },
        }
        proof {
            k = k + 1;
        }
    }
    out.append(decode_mime(label, acc.as_slice()).as_str());
    proof {
        assert(sv.subrange(k, sv.len() as int).len() == 0);
        assert(out@ =~= clump_decode(sv, Seq::empty(), lv));
    }
    out
}


/// A decoded parameter: name and text value.
pub struct NamedText {
    /// The lower-cased parameter name.
    pub name: Vec<u8>,
    /// The decoded value.
    pub text: String,
}

/// Mirror of [`NamedText`].
pub struct NamedTextView {
    /// The name.
    pub name: Seq<u8>,
    /// The value.
    pub text: Seq<char>,
}

impl View for NamedText {
    type V = NamedTextView;

    open spec fn view(&self) -> NamedTextView {
        NamedTextView { name: self.name@, text: self.text@ }
    }
}

impl DeepView for NamedText {
    type V = NamedTextView;

    open spec fn deep_view(&self) -> NamedTextView {
        self.view()
    }
}

/// The gathered fragments of one multi-section parameter.
pub struct NamedFrags {
    /// The lower-cased parameter name.
    pub name: Vec<u8>,
    /// The fragments seen so far, in input order.
    pub frags: Vec<Frag>,
}

/// Mirror of [`NamedFrags`].
pub struct NamedFragsView {
    /// The name.
    pub name: Seq<u8>,
    /// The fragments.
    pub frags: Seq<FragView>,
}

impl View for NamedFrags {
    type V = NamedFragsView;

    open spec fn view(&self) -> NamedFragsView {
        NamedFragsView { name: self.name@, frags: self.frags.deep_view() }
    }
}

impl DeepView for NamedFrags {
    type V = NamedFragsView;

    open spec fn deep_view(&self) -> NamedFragsView {
        self.view()
    }
}

/// The charset label recorded for one multi-section parameter.
pub struct NamedLabel {
    /// The lower-cased parameter name.
    pub name: Vec<u8>,
    /// The charset label.
    pub label: Vec<u8>,
}

/// Mirror of [`NamedLabel`].
pub struct NamedLabelView {
    /// The name.
    pub name: Seq<u8>,
    /// The label.
    pub label: Seq<u8>,
}

impl View for NamedLabel {
    type V = NamedLabelView;

    open spec fn view(&self) -> NamedLabelView {
        NamedLabelView { name: self.name@, label: self.label@ }
    }
}

impl DeepView for NamedLabel {
    type V = NamedLabelView;

    open spec fn deep_view(&self) -> NamedLabelView {
        self.view()
    }
}

/// Index of the first entry with the given name, scanning from `j`.
pub open spec fn nt_find(m: Seq<NamedTextView>, k: Seq<u8>, j: int) -> Option<int>
    decreases m.len() - j,
    when 0 <= j <= m.len()
{
    if j >= m.len() {
        None
    } else if m[j].name == k {
        Some(j)
    } else {
        nt_find(m, k, j + 1)
    }
}

/// Replace the value of the first entry with the given name, or append a new
/// entry.
pub open spec fn nt_upsert(m: Seq<NamedTextView>, k: Seq<u8>, v: Seq<char>) -> Seq<
    NamedTextView,
> {
    match nt_find(m, k, 0) {
        Some(i) => m.update(i, NamedTextView { name: k, text: v }),
        None => m.push(NamedTextView { name: k, text: v }),
    }
}

/// Index of the first fragment group with the given name, scanning from `j`.
pub open spec fn nf_find(m: Seq<NamedFragsView>, k: Seq<u8>, j: int) -> Option<int>
    decreases m.len() - j,
    when 0 <= j <= m.len()
{
    if j >= m.len() {
        None
    } else if m[j].name == k {
        Some(j)
    } else {
        nf_find(m, k, j + 1)
    }
}

/// Append a fragment to its name's group, creating the group if absent.
pub open spec fn nf_append(m: Seq<NamedFragsView>, k: Seq<u8>, f: FragView) -> Seq<
    NamedFragsView,
> {
    match nf_find(m, k, 0) {
        Some(i) => m.update(i, NamedFragsView { name: k, frags: m[i].frags.push(f) }),
        None => m.push(NamedFragsView { name: k, frags: seq![f] }),
    }
}

/// Index of the first label entry with the given name, scanning from `j`.
pub open spec fn nl_find(m: Seq<NamedLabelView>, k: Seq<u8>, j: int) -> Option<int>
    decreases m.len() - j,
    when 0 <= j <= m.len()
{
    if j >= m.len() {
        None
    } else if m[j].name == k {
        Some(j)
    } else {
        nl_find(m, k, j + 1)
    }
}

/// Replace the label of the first entry with the given name, or append.
pub open spec fn nl_upsert(m: Seq<NamedLabelView>, k: Seq<u8>, l: Seq<u8>) -> Seq<
    NamedLabelView,
> {
    match nl_find(m, k, 0) {
        Some(i) => m.update(i, NamedLabelView { name: k, label: l }),
        None => m.push(NamedLabelView { name: k, label: l }),
    }
}

/// The label recorded for a name, when any.
pub open spec fn nl_lookup(m: Seq<NamedLabelView>, k: Seq<u8>) -> Option<Seq<u8>> {
    match nl_find(m, k, 0) {
        Some(i) => Some(m[i].label),
        None => None,
    }
}

/// One step of the grouping walk over the parsed parameters, and with it the
/// whole walk: plain values and single-piece extended values land in their
/// own maps, sectioned fragments gather per name, and the charset label of a
/// section-0 fragment is recorded when the registry knows it.
pub open spec fn dwalk(
    ps: Seq<PParamView>,
    k: int,
    simple: Seq<NamedTextView>,
    senc: Seq<NamedTextView>,
    comp: Seq<NamedFragsView>,
    cenc: Seq<NamedLabelView>,
) -> (Seq<NamedTextView>, Seq<NamedTextView>, Seq<NamedFragsView>, Seq<NamedLabelView>)
    decreases ps.len() - k,
    when 0 <= k <= ps.len()
{
    if k >= ps.len() {
        (simple, senc, comp, cenc)
    } else {
        let p = ps[k];
        match p.section {
            None => {
                match p.val {
                    PValView::Regular(v) => dwalk(
                        ps,
                        k + 1,
                        nt_upsert(simple, p.name, v),
                        senc,
                        comp,
                        cenc,
                    ),
                    PValView::Ext { charset, value } => dwalk(
                        ps,
                        k + 1,
                        simple,
                        nt_upsert(senc, p.name, mime_decode(charset, value)),
                        comp,
                        cenc,
                    ),
                    PValView::ExtCont(v) => dwalk(ps, k + 1, simple, senc, comp, cenc),
                }
            },
            Some(sec) => {
                match p.val {
                    PValView::Regular(v) => dwalk(
                        ps,
                        k + 1,
                        simple,
                        senc,
                        nf_append(comp, p.name, FragView { section: sec, piece: PieceView::Dec(v) }),
                        cenc,
                    ),
                    PValView::Ext { charset, value } => {
                        let cenc2 = match charset {
                            Some(l) => if mime_label_known(l) {
                                nl_upsert(cenc, p.name, l)
                            } else {
                                cenc
                            },
                            None => cenc,
                        };
                        dwalk(
                            ps,
                            k + 1,
                            simple,
                            senc,
                            nf_append(
                                comp,
                                p.name,
                                FragView { section: sec, piece: PieceView::Enc(value) },
                            ),
                            cenc2,
                        )
                    },
                    PValView::ExtCont(v) => dwalk(
                        ps,
                        k + 1,
                        simple,
                        senc,
                        nf_append(comp, p.name, FragView { section: sec, piece: PieceView::Enc(v) }),
                        cenc,
                    ),
                }
            },
        }
    }
}

/// Fold a list of decoded parameters into the map, replacing earlier values
/// of the same name.
pub open spec fn merge_all(m: Seq<NamedTextView>, pending: Seq<NamedTextView>) -> Seq<
    NamedTextView,
>
    decreases pending.len(),
{
    if pending.len() == 0 {
        m
    } else {
        merge_all(nt_upsert(m, pending[0].name, pending[0].text), pending.drop_first())
    }
}

/// The decoded values of the gathered fragment groups, in first-seen order.
pub open spec fn comp_out(comp: Seq<NamedFragsView>, cenc: Seq<NamedLabelView>) -> Seq<
    NamedTextView,
>
    decreases comp.len(),
{
    if comp.len() == 0 {
        Seq::empty()
    } else {
        seq![
            NamedTextView {
                name: comp[0].name,
                text: segments_text(comp[0].frags, nl_lookup(cenc, comp[0].name)),
            },
        ] + comp_out(comp.drop_first(), cenc)
    }
}

/// What decoding a parsed parameter list yields: plain values, overridden by
/// single-piece extended values and by reassembled multi-section values.
pub open spec fn plist_decoded(ps: Seq<PParamView>) -> Seq<NamedTextView> {
    let (simple, senc, comp, cenc) = dwalk(
        ps,
        0,
        Seq::empty(),
        Seq::empty(),
        Seq::empty(),
        Seq::empty(),
    );
    merge_all(merge_all(simple, senc), comp_out(comp, cenc))
}


fn nt_find_at(m: &Vec<NamedText>, k: &Vec<u8>) -> (r: Option<usize>)
    ensures
        r is Some <==> nt_find(m.deep_view(), k@, 0) is Some,
        r matches Some(i) ==> nt_find(m.deep_view(), k@, 0) == Some(i as int) && i < m@.len(),
{
    let ghost mv = m.deep_view();
    let mut j: usize = 0;
    while j < m.len()
        invariant
            0 <= j <= m@.len(),
            mv == m.deep_view(),
            nt_find(mv, k@, 0) == nt_find(mv, k@, j as int),
        decreases m@.len() - j,
    {
        proof {
            assert(m[j as int].deep_view() == mv[j as int]);
        }
        if crate::util::bytes_eq(m[j].name.as_slice(), k.as_slice()) {
            return Some(j);
        }
        j += 1;
    }
    None
}

fn nt_upsert_at(m: &mut Vec<NamedText>, k: Vec<u8>, v: String)
    ensures
        final(m).deep_view() == nt_upsert(old(m).deep_view(), k@, v@),
{
    let ghost mv = m.deep_view();
    match nt_find_at(m, &k) {
        Some(i) => {
            let _ = m.remove(i);
            m.insert(i, NamedText { name: k, text: v });
            proof {
                assert(m.deep_view() =~= mv.update(
                    i as int,
                    NamedTextView { name: k@, text: v@ },
                ));
            }
        },
        None => {
            m.push(NamedText { name: k, text: v });
            proof {
                assert(m.deep_view() =~= mv.push(NamedTextView { name: k@, text: v@ }));
            }
        },
    }
}

fn nf_append_at(m: &mut Vec<NamedFrags>, k: Vec<u8>, f: Frag)
    ensures
        final(m).deep_view() == nf_append(old(m).deep_view(), k@, f@),
{
    let ghost mv = m.deep_view();
    let ghost fv = f@;
    let ghost kv = k@;
    let mut j: usize = 0;
    let n = m.len();
    loop
        invariant
            0 <= j <= n == m@.len(),
            mv == m.deep_view(),
            nf_find(mv, kv, 0) == nf_find(mv, kv, j as int),
        decreases n - j,
    {
        if j >= n {
            break;
        }
        proof {
            assert(m[j as int].deep_view() == mv[j as int]);
        }
        if crate::util::bytes_eq(m[j].name.as_slice(), k.as_slice()) {
            let mut entry = m.remove(j);
            let ghost ev = entry.deep_view();
            let ghost frags_pre = entry.frags.deep_view();
            entry.frags.push(f);
            proof {
                assert(entry.frags.deep_view() =~= frags_pre.push(fv));
            }
            m.insert(j, entry);
            proof {
                assert(m.deep_view() =~= mv.update(
                    j as int,
                    NamedFragsView { name: mv[j as int].name, frags: mv[j as int].frags.push(fv) },
                ));
                assert(mv[j as int].name == kv);
            }
            return ;
        }
        j += 1;
    }
    let mut frags: Vec<Frag> = Vec::new();
    frags.push(f);
    proof {
        assert(frags.deep_view() =~= seq![fv]);
    }
    m.push(NamedFrags { name: k, frags });
    proof {
        assert(m.deep_view() =~= mv.push(NamedFragsView { name: kv, frags: seq![fv] }));
    }
}

fn nl_upsert_at(m: &mut Vec<NamedLabel>, k: Vec<u8>, l: Vec<u8>)
    ensures
        final(m).deep_view() == nl_upsert(old(m).deep_view(), k@, l@),
{
    let ghost mv = m.deep_view();
    let ghost kv = k@;
    let ghost lv = l@;
    let mut j: usize = 0;
    let n = m.len();
    loop
        invariant
            0 <= j <= n == m@.len(),
            mv == m.deep_view(),
            nl_find(mv, kv, 0) == nl_find(mv, kv, j as int),
        decreases n - j,
    {
        if j >= n {
            break;
        }
        proof {
            assert(m[j as int].deep_view() == mv[j as int]);
        }
        if crate::util::bytes_eq(m[j].name.as_slice(), k.as_slice()) {
            let _ = m.remove(j);
            m.insert(j, NamedLabel { name: k, label: l });
            proof {
                assert(m.deep_view() =~= mv.update(
                    j as int,
                    NamedLabelView { name: kv, label: lv },
                ));
            }
            return ;
        }
        j += 1;
    }
    m.push(NamedLabel { name: k, label: l });
    proof {
        assert(m.deep_view() =~= mv.push(NamedLabelView { name: kv, label: lv }));
    }
}

fn nl_lookup_at(m: &Vec<NamedLabel>, k: &Vec<u8>) -> (r: Option<usize>)
    ensures
        r is Some <==> nl_lookup(m.deep_view(), k@) is Some,
        r matches Some(i) ==> i < m@.len() && nl_lookup(m.deep_view(), k@) == Some(
            m.deep_view()[i as int].label,
        ),
{
    let ghost mv = m.deep_view();
    let mut j: usize = 0;
    while j < m.len()
        invariant
            0 <= j <= m@.len(),
            mv == m.deep_view(),
            nl_find(mv, k@, 0) == nl_find(mv, k@, j as int),
        decreases m@.len() - j,
    {
        proof {
            assert(m[j as int].deep_view() == mv[j as int]);
        }
        if crate::util::bytes_eq(m[j].name.as_slice(), k.as_slice()) {
            return Some(j);
        }
        j += 1;
    }
    None
}

/// Decode a parsed parameter list into name/value pairs: group the
/// parameters by lower-cased name, decode single values directly, and
/// reassemble multi-section values in section order with raw runs clumped
/// before each charset decode.
#[verifier::rlimit(100)]
fn decode_parameter_list(input: Vec<PParam>) -> (r: Vec<NamedText>)
    ensures
        r.deep_view() == plist_decoded(input.deep_view()),
{
    let ghost iv = input.deep_view();
    let mut rest = input;
    let mut simple: Vec<NamedText> = Vec::new();
    let mut senc: Vec<NamedText> = Vec::new();
    let mut comp: Vec<NamedFrags> = Vec::new();
    let mut cenc: Vec<NamedLabel> = Vec::new();
    let ghost mut k: int = 0;
    proof {
        assert(simple.deep_view() =~= Seq::<NamedTextView>::empty());
        assert(senc.deep_view() =~= Seq::<NamedTextView>::empty());
        assert(comp.deep_view() =~= Seq::<NamedFragsView>::empty());
        assert(cenc.deep_view() =~= Seq::<NamedLabelView>::empty());
        assert(rest.deep_view() =~= iv.subrange(0, iv.len() as int));
    }
    while rest.len() > 0
        invariant
            0 <= k <= iv.len(),
            rest.deep_view() == iv.subrange(k, iv.len() as int),
            dwalk(iv, 0, Seq::empty(), Seq::empty(), Seq::empty(), Seq::empty()) == dwalk(
                iv,
                k,
                simple.deep_view(),
                senc.deep_view(),
                comp.deep_view(),
                cenc.deep_view(),
            ),
        decreases rest@.len(),
    {
        let ghost rest_pre = rest.deep_view();
        let ghost restv = rest@;
        let item = rest.remove(0);
        proof {
            assert(item == restv[0]);
            assert(rest_pre[0] == restv[0].deep_view());
            assert(rest_pre[0] == iv[k]);
            assert(rest@ =~= restv.subrange(1, restv.len() as int));
            assert forall|m: int| 0 <= m < rest.deep_view().len() implies rest.deep_view()[m]
                == iv.subrange(k + 1, iv.len() as int)[m] by {
                assert(rest@[m] == restv[m + 1]);
                assert(rest.deep_view()[m] == restv[m + 1].deep_view());
                assert(restv[m + 1].deep_view() == rest_pre[m + 1]);
            }
            assert(rest.deep_view() =~= iv.subrange(k + 1, iv.len() as int));
        }
        let PParam { name, section, val } = item;
        match section {
            None => {
                match val {
                    PVal::Regular(v) => {
                        nt_upsert_at(&mut simple, name, v);
                    },
                    PVal::Ext { charset, value } => {
                        let dec = match charset {
                            Some(ref l) => decode_mime(Some(l), value.as_slice()),
                            None => decode_mime(None, value.as_slice()),
                        };
                        nt_upsert_at(&mut senc, name, dec);
                    },
                    PVal::ExtCont(_) => {},
                }
            },
            Some(sec) => {
                match val {
                    PVal::Regular(v) => {
                        nf_append_at(
                            &mut comp,
                            name,
                            Frag { section: sec, piece: Piece::Dec(v) },
                        );
                    },
                    PVal::Ext { charset, value } => {
                        match charset {
                            Some(l) => {
                                if charset_known(l.as_slice()) {
                                    let name2 = crate::util::sub_vec(
                                        name.as_slice(),
                                        0,
                                        name.len(),
                                    );
                                    proof {
                                        assert(name2@ =~= name@);
                                    }
                                    nl_upsert_at(&mut cenc, name2, l);
                                }
                            },
                            None => {},
                        }
                        nf_append_at(
                            &mut comp,
                            name,
                            Frag { section: sec, piece: Piece::Enc(value) },
                        );
                    },
                    PVal::ExtCont(v) => {
                        nf_append_at(
                            &mut comp,
                            name,
                            Frag { section: sec, piece: Piece::Enc(v) },
                        );
                    },
                }
            },
        }
        proof {
            k = k + 1;
        }
    }
    proof {
        assert(iv.subrange(k, iv.len() as int).len() == 0);
        assert(k == iv.len());
    }
    let ghost simple0 = simple.deep_view();
    let ghost senc0 = senc.deep_view();
    let ghost comp0 = comp.deep_view();
    let ghost cenc0 = cenc.deep_view();
    // fold the single-piece extended values in
    let mut rest2 = senc;
    let ghost mut k2: int = 0;
    proof {
        assert(rest2.deep_view() =~= senc0.subrange(0, senc0.len() as int));
    }
    while rest2.len() > 0
        invariant
            0 <= k2 <= senc0.len(),
            rest2.deep_view() == senc0.subrange(k2, senc0.len() as int),
            merge_all(simple0, senc0) == merge_all(
                simple.deep_view(),
                senc0.subrange(k2, senc0.len() as int),
            ),
        decreases rest2@.len(),
    {
        let ghost rest_pre = rest2.deep_view();
        let ghost restv = rest2@;
        let item = rest2.remove(0);
        proof {
            assert(item == restv[0]);
            assert(rest_pre[0] == restv[0].deep_view());
            assert(rest_pre[0] == senc0[k2]);
            assert(rest2@ =~= restv.subrange(1, restv.len() as int));
            assert forall|m: int| 0 <= m < rest2.deep_view().len() implies rest2.deep_view()[m]
                == senc0.subrange(k2 + 1, senc0.len() as int)[m] by {
                assert(rest2@[m] == restv[m + 1]);
                assert(rest2.deep_view()[m] == restv[m + 1].deep_view());
                assert(restv[m + 1].deep_view() == rest_pre[m + 1]);
            }
            assert(rest2.deep_view() =~= senc0.subrange(k2 + 1, senc0.len() as int));
            assert(senc0.subrange(k2, senc0.len() as int).drop_first() =~= senc0.subrange(
                k2 + 1,
                senc0.len() as int,
            ));
        }
        let NamedText { name, text } = item;
        nt_upsert_at(&mut simple, name, text);
        proof {
            k2 = k2 + 1;
        }
    }
    proof {
        assert(senc0.subrange(k2, senc0.len() as int).len() == 0);
        assert(simple.deep_view() =~= merge_all(simple0, senc0));
    }
    // decode and fold the multi-section values in
    let ghost merged1 = simple.deep_view();
    let mut rest3 = comp;
    let ghost mut k3: int = 0;
    proof {
        assert(rest3.deep_view() =~= comp0.subrange(0, comp0.len() as int));
    }
    while rest3.len() > 0
        invariant
            0 <= k3 <= comp0.len(),
            rest3.deep_view() == comp0.subrange(k3, comp0.len() as int),
            cenc0 == cenc.deep_view(),
            merge_all(merged1, comp_out(comp0, cenc0)) == merge_all(
                simple.deep_view(),
                comp_out(comp0.subrange(k3, comp0.len() as int), cenc0),
            ),
        decreases rest3@.len(),
    {
        let ghost rest_pre = rest3.deep_view();
        let ghost restv = rest3@;
        let item = rest3.remove(0);
        proof {
            assert(item == restv[0]);
            assert(rest_pre[0] == restv[0].deep_view());
            assert(rest_pre[0] == comp0[k3]);
            assert(rest3@ =~= restv.subrange(1, restv.len() as int));
            assert forall|m: int| 0 <= m < rest3.deep_view().len() implies rest3.deep_view()[m]
                == comp0.subrange(k3 + 1, comp0.len() as int)[m] by {
                assert(rest3@[m] == restv[m + 1]);
                assert(rest3.deep_view()[m] == restv[m + 1].deep_view());
                assert(restv[m + 1].deep_view() == rest_pre[m + 1]);
            }
            assert(rest3.deep_view() =~= comp0.subrange(k3 + 1, comp0.len() as int));
            assert(comp0.subrange(k3, comp0.len() as int).drop_first() =~= comp0.subrange(
                k3 + 1,
                comp0.len() as int,
            ));
        }
        let ghost itemv = item.deep_view();
        let NamedFrags { name, frags } = item;
        let ghost namev = name@;
        let ghost fragsv = frags.deep_view();
        let text: String;
        match nl_lookup_at(&cenc, &name) {
            Some(li) => {
                proof {
                    assert(cenc[li as int].deep_view() == cenc.deep_view()[li as int]);
                }
                text = decode_segments(frags, Some(&cenc[li].label));
            },
            None => {
                text = decode_segments(frags, None);
            },
        }
        let ghost textv = text@;
        let ghost simple_pre = simple.deep_view();
        nt_upsert_at(&mut simple, name, text);
        proof {
            assert(textv == segments_text(fragsv, nl_lookup(cenc0, namev)));
            let pend = comp_out(comp0.subrange(k3, comp0.len() as int), cenc0);
            assert(pend[0] == NamedTextView { name: namev, text: textv });
            assert(pend.drop_first() =~= comp_out(
                comp0.subrange(k3 + 1, comp0.len() as int),
                cenc0,
            ));
            assert(merge_all(simple_pre, pend) == merge_all(
                simple.deep_view(),
                pend.drop_first(),
            ));
            k3 = k3 + 1;
        }
    }
    proof {
        assert(comp0.subrange(k3, comp0.len() as int).len() == 0);
        assert(comp_out(comp0.subrange(k3, comp0.len() as int), cenc0)
            =~= Seq::<NamedTextView>::empty());
        assert(simple.deep_view() =~= plist_decoded(iv));
    }
    simple
}


/// Value from a MIME `Content-Disposition` header.
#[derive(Debug, PartialEq, Eq)]
pub enum ContentDisposition {
    /// `inline`
    Inline,
    /// `attachment`
    Attachment,
    /// A value prefixed with `x-`; the prefix is not stored.
    Extended(String),
    /// Any other syntactically valid token.
    Token(String),
}

impl ContentDisposition {
    /// The canonical text of this disposition.
    pub fn to_string(&self) -> (r: String)
        ensures
            match self {
                ContentDisposition::Inline => r@ == "inline"@,
                ContentDisposition::Attachment => r@ == "attachment"@,
                ContentDisposition::Extended(s) => r@ == "x-"@ + s@,
                ContentDisposition::Token(t) => r@ == t@,
            },
    {
        match self {
            ContentDisposition::Inline => String::from_str("inline"),
            ContentDisposition::Attachment => String::from_str("attachment"),
            ContentDisposition::Extended(s) => {
                let mut out = String::from_str("x-");
                out.append(s.as_str());
                out
            },
            ContentDisposition::Token(t) => String::from_str(t.as_str()),
        }
    }
}

/// Value from a MIME `Content-Transfer-Encoding` header.
#[derive(Debug, PartialEq, Eq)]
pub enum ContentTransferEncoding {
    /// `7bit`
    SevenBit,
    /// `8bit`
    EightBit,
    /// `binary`
    Binary,
    /// `base64`
    Base64,
    /// `quoted-printable`
    QuotedPrintable,
    /// A value prefixed with `x-`; the prefix is not stored.
    Extended(String),
    /// Any other syntactically valid token.
    Token(String),
}

impl ContentTransferEncoding {
    /// The canonical text of this encoding.
    pub fn to_string(&self) -> (r: String)
        ensures
            match self {
                ContentTransferEncoding::SevenBit => r@ == "7bit"@,
                ContentTransferEncoding::EightBit => r@ == "8bit"@,
                ContentTransferEncoding::Binary => r@ == "binary"@,
                ContentTransferEncoding::Base64 => r@ == "base64"@,
                ContentTransferEncoding::QuotedPrintable => r@ == "quoted-printable"@,
                ContentTransferEncoding::Extended(s) => r@ == "x-"@ + s@,
                ContentTransferEncoding::Token(t) => r@ == t@,
            },
    {
        match self {
            ContentTransferEncoding::SevenBit => String::from_str("7bit"),
            ContentTransferEncoding::EightBit => String::from_str("8bit"),
            ContentTransferEncoding::Binary => String::from_str("binary"),
            ContentTransferEncoding::Base64 => String::from_str("base64"),
            ContentTransferEncoding::QuotedPrintable => String::from_str("quoted-printable"),
            ContentTransferEncoding::Extended(s) => {
                let mut out = String::from_str("x-");
                out.append(s.as_str());
                out
            },
            ContentTransferEncoding::Token(t) => String::from_str(t.as_str()),
        }
    }
}

/// The decoded parameter pairs as character sequences; a parameter name is
/// decoded leniently (names are ASCII in practice).
pub open spec fn pairs_of(ps: Seq<NamedTextView>) -> Seq<(Seq<char>, Seq<char>)> {
    ps.map_values(|p: NamedTextView| (decode_utf8(crate::util::lossy_text(p.name)), p.text))
}

fn pairs_out(input: Vec<NamedText>) -> (r: Vec<(String, String)>)
    ensures
        r@.map_values(|p: (String, String)| (p.0@, p.1@)) == pairs_of(input.deep_view()),
{
    let ghost iv = input.deep_view();
    let mut rest = input;
    let mut out: Vec<(String, String)> = Vec::new();
    let ghost mut k: int = 0;
    proof {
        assert(rest.deep_view() =~= iv.subrange(0, iv.len() as int));
        assert(rest@ =~= rest@.subrange(0, rest@.len() as int));
    }
    while rest.len() > 0
        invariant
            0 <= k <= iv.len(),
            rest.deep_view() == iv.subrange(k, iv.len() as int),
            out@.map_values(|p: (String, String)| (p.0@, p.1@)) == pairs_of(
                iv.subrange(0, k),
            ),
        decreases rest@.len(),
    {
        let ghost rest_pre = rest.deep_view();
        let ghost restv = rest@;
        let item = rest.remove(0);
        proof {
            assert(item == restv[0]);
            assert(rest_pre[0] == restv[0].deep_view());
            assert(rest_pre[0] == iv[k]);
            assert(rest@ =~= restv.subrange(1, restv.len() as int));
            assert forall|m: int| 0 <= m < rest.deep_view().len() implies rest.deep_view()[m]
                == iv.subrange(k + 1, iv.len() as int)[m] by {
                assert(rest@[m] == restv[m + 1]);
                assert(rest.deep_view()[m] == restv[m + 1].deep_view());
                assert(restv[m + 1].deep_view() == rest_pre[m + 1]);
            }
            assert(rest.deep_view() =~= iv.subrange(k + 1, iv.len() as int));
        }
        let ghost out_pre = out@;
        let ghost itemv = item.deep_view();
        let NamedText { name, text } = item;
        let ghost namev = name@;
        let ghost textv = text@;
        let name_s = crate::util::ascii_to_string(name.as_slice());
        let ghost name_sv = name_s@;
        out.push((name_s, text));
        proof {
            assert(out@.len() == out_pre.len() + 1);
            assert(out@[k].0@ == name_sv && out@[k].1@ == textv);
            assert(name_sv == decode_utf8(crate::util::lossy_text(iv[k].name)));
            assert(textv == iv[k].text);
            assert(out_pre.map_values(|p: (String, String)| (p.0@, p.1@)).len()
                == out_pre.len());
            assert(out_pre.len() == k);
            assert forall|m: int| 0 <= m < k implies (#[trigger] out@[m]).0@ == pairs_of(
                iv.subrange(0, k + 1),
            )[m].0 && out@[m].1@ == pairs_of(iv.subrange(0, k + 1))[m].1 by {
                assert(out@[m] == out_pre[m]);
                assert(out_pre.map_values(|p: (String, String)| (p.0@, p.1@))[m] == (
                    out_pre[m].0@,
                    out_pre[m].1@,
                ));
                assert(pairs_of(iv.subrange(0, k))[m] == (
                    decode_utf8(crate::util::lossy_text(iv.subrange(0, k)[m].name)),
                    iv.subrange(0, k)[m].text,
                ));
                assert(iv.subrange(0, k)[m] == iv[m]);
                assert(iv.subrange(0, k + 1)[m] == iv[m]);
                assert(pairs_of(iv.subrange(0, k + 1))[m] == (
                    decode_utf8(crate::util::lossy_text(iv[m].name)),
                    iv[m].text,
                ));
            }
            assert(pairs_of(iv.subrange(0, k + 1))[k] == (
                decode_utf8(crate::util::lossy_text(iv[k].name)),
                iv[k].text,
            ));
            assert(out@.map_values(|p: (String, String)| (p.0@, p.1@)) =~= pairs_of(
                iv.subrange(0, k + 1),
            ));
            k = k + 1;
        }
    }
    proof {
        assert(iv.subrange(0, k) =~= iv);
    }
    out
}


/// What the MIME type at the front parses to: optional folding whitespace,
/// `token "/" token`; the value is the raw dotted pair, and the end is after
/// trailing folding whitespace.
pub open spec fn mime_type_spec(s: Seq<u8>) -> Option<(int, Seq<u8>)> {
    let a = ofws_end(s, 0);
    if 0 <= a <= s.len() {
        let t1 = run_end(s, a, Cls::Tok31, false, false);
        if t1 > a && t1 < s.len() && s[t1] == 47 && run_end(s, t1 + 1, Cls::Tok31, false, false)
            > t1 + 1 {
            let e = run_end(s, t1 + 1, Cls::Tok31, false, false);
            Some((ofws_end(s, e), s.subrange(a, e)))
        } else {
            None
        }
    } else {
        None
    }
}

/// Read the bytes `[a, e)` in ASCII lower case.
fn lower_range(s: &[u8], a: usize, e: usize) -> (r: Vec<u8>)
    requires
        a <= e <= s@.len(),
    ensures
        r@ == s@.subrange(a as int, e as int).map_values(|b: u8| lower(b)),
{
    let mut out: Vec<u8> = Vec::new();
    let mut k: usize = a;
    while k < e
        invariant
            a <= k <= e <= s@.len(),
            out@ == s@.subrange(a as int, k as int).map_values(|b: u8| lower(b)),
        decreases e - k,
    {
        out.push(to_lower(s[k]));
        proof {
            assert(out@ =~= s@.subrange(a as int, k + 1).map_values(|b: u8| lower(b)));
        }
        k += 1;
    }
    out
}

/// Parse a MIME `Content-Type` header.
///
/// Returns the type in lower case and the decoded parameters.
pub fn content_type(input: &[u8]) -> (r: ParseResult<(String, Vec<(String, String)>)>)
    ensures
        r is Ok <==> mime_type_spec(input@) is Some,
        r matches Ok((rem, v)) ==> mime_type_spec(input@) matches Some((e, mt)) && v.0@
            == decode_utf8(crate::util::lossy_text(mt.map_values(|b: u8| lower(b))))
            && v.1@.map_values(|p: (String, String)| (p.0@, p.1@)) == pairs_of(
            plist_decoded(plist_list(input@, e)),
        ) && rem@ == input@.subrange(plist_end(input@, e), input@.len() as int),
{
    proof {
        crate::rfc5322::lemma_fws_bounds_pub(input@, 0);
    }
    let s = input;
    let n = s.len();
    let mut scratch: Vec<u8> = Vec::new();
    let a = crate::rfc5322::ofws_pub(s, 0, &mut scratch);
    proof {
        crate::util::lemma_run_end_bounds_pub(s@, a as int, Cls::Tok31, false, false);
    }
    let mut t1buf: Vec<u8> = Vec::new();
    let t1 = crate::util::text_run(s, a, Cls::Tok31, false, false, &mut t1buf);
    if !(t1 > a && t1 < n && s[t1] == 47) {
        return Err(ParseError);
    }
    proof {
        crate::util::lemma_run_end_bounds_pub(s@, t1 + 1, Cls::Tok31, false, false);
    }
    let mut t2buf: Vec<u8> = Vec::new();
    let e = crate::util::text_run(s, t1 + 1, Cls::Tok31, false, false, &mut t2buf);
    if !(e > t1 + 1) {
        return Err(ParseError);
    }
    let ty = crate::util::ascii_to_string(lower_range(s, a, e).as_slice());
    proof {
        crate::rfc5322::lemma_fws_bounds_pub(s@, e as int);
    }
    let mut scratch2: Vec<u8> = Vec::new();
    let pe = crate::rfc5322::ofws_pub(s, e, &mut scratch2);
    let (fin, params) = plist_at(s, pe);
    let pairs = pairs_out(decode_parameter_list(params));
    Ok((tail_vec(s, fin), (ty, pairs)))
}

/// Specification-level form of a [`ContentDisposition`].
pub enum CDView {
    /// Mirror of [`ContentDisposition::Inline`].
    Inline,
    /// Mirror of [`ContentDisposition::Attachment`].
    Attachment,
    /// Mirror of [`ContentDisposition::Extended`].
    Extended(Seq<char>),
    /// Mirror of [`ContentDisposition::Token`].
    Token(Seq<char>),
}

impl View for ContentDisposition {
    type V = CDView;

    open spec fn view(&self) -> CDView {
        match self {
            ContentDisposition::Inline => CDView::Inline,
            ContentDisposition::Attachment => CDView::Attachment,
            ContentDisposition::Extended(s) => CDView::Extended(s@),
            ContentDisposition::Token(t) => CDView::Token(t@),
        }
    }
}

/// What the disposition keyword at the front parses to, after optional
/// folding whitespace: the known keywords first, then an `x-` token, then
/// any token.
pub open spec fn disposition_spec(s: Seq<u8>) -> Option<(int, CDView)> {
    let a = ofws_end(s, 0);
    if !(0 <= a <= s.len()) {
        None
    } else if tag_nocase_at(s, a, "inline".spec_bytes()) {
        Some((a + 6, CDView::Inline))
    } else if tag_nocase_at(s, a, "attachment".spec_bytes()) {
        Some((a + 10, CDView::Attachment))
    } else if tag_nocase_at(s, a, "x-".spec_bytes()) && run_end(s, a + 2, Cls::Tok31, false, false)
        > a + 2 {
        Some(
            (
                run_end(s, a + 2, Cls::Tok31, false, false),
                CDView::Extended(decode_utf8(run_text(s, a + 2, Cls::Tok31, false, false))),
            ),
        )
    } else if run_end(s, a, Cls::Tok31, false, false) > a {
        Some(
            (
                run_end(s, a, Cls::Tok31, false, false),
                CDView::Token(decode_utf8(run_text(s, a, Cls::Tok31, false, false))),
            ),
        )
    } else {
        None
    }
}

/// Parse a MIME `Content-Disposition` header.
///
/// Returns the disposition and the decoded parameters.
pub fn content_disposition(input: &[u8]) -> (r: ParseResult<
    (ContentDisposition, Vec<(String, String)>),
>)
    ensures
        r is Ok <==> disposition_spec(input@) is Some,
        r matches Ok((rem, v)) ==> disposition_spec(input@) matches Some((de, dv)) && v.0@ == dv
            && ({
            let e = ofws_end(input@, de);
            v.1@.map_values(|p: (String, String)| (p.0@, p.1@)) == pairs_of(
                plist_decoded(plist_list(input@, e)),
            ) && rem@ == input@.subrange(plist_end(input@, e), input@.len() as int)
        }),
{
    proof {
        crate::rfc5322::lemma_fws_bounds_pub(input@, 0);
        reveal_strlit("inline");
        reveal_strlit("attachment");
        reveal_strlit("x-");
        vstd::string::is_ascii_spec_bytes("inline");
        vstd::string::is_ascii_spec_bytes("attachment");
        vstd::string::is_ascii_spec_bytes("x-");
        assert(vstd::string::is_ascii("inline"));
        assert(vstd::string::is_ascii("attachment"));
        assert(vstd::string::is_ascii("x-"));
        assert("inline".spec_bytes().len() == 6);
        assert("attachment".spec_bytes().len() == 10);
        assert("x-".spec_bytes().len() == 2);
    }
    let s = input;
    let n = s.len();
    let mut scratch: Vec<u8> = Vec::new();
    let a = crate::rfc5322::ofws_pub(s, 0, &mut scratch);
    proof {
        crate::util::lemma_run_end_bounds_pub(s@, a as int, Cls::Tok31, false, false);
        if a + 2 <= s@.len() {
            crate::util::lemma_run_end_bounds_pub(s@, a + 2, Cls::Tok31, false, false);
            crate::util::lemma_run_text_valid(s@, a + 2, Cls::Tok31, false, false);
        }
        crate::util::lemma_run_text_valid(s@, a as int, Cls::Tok31, false, false);
    }
    let de: usize;
    let disp: ContentDisposition;
    if crate::util::tag_nocase(s, a, "inline".as_bytes()) {
        de = a + 6;
        disp = ContentDisposition::Inline;
    } else if crate::util::tag_nocase(s, a, "attachment".as_bytes()) {
        de = a + 10;
        disp = ContentDisposition::Attachment;
    } else {
        let xmatch = crate::util::tag_nocase(s, a, "x-".as_bytes());
        let mut xbuf: Vec<u8> = Vec::new();
        let xe: usize = if xmatch {
            crate::util::text_run(s, a + 2, Cls::Tok31, false, false, &mut xbuf)
        } else {
            a
        };
        if xmatch && xe > a + 2 {
            de = xe;
            disp = ContentDisposition::Extended(string_from_utf8(xbuf));
        } else {
            let mut tbuf: Vec<u8> = Vec::new();
            let te = crate::util::text_run(s, a, Cls::Tok31, false, false, &mut tbuf);
            if te > a {
                de = te;
                disp = ContentDisposition::Token(string_from_utf8(tbuf));
            } else {
                return Err(ParseError);
            }
        }
    }
    proof {
        crate::rfc5322::lemma_fws_bounds_pub(s@, de as int);
    }
    let mut scratch2: Vec<u8> = Vec::new();
    let pe = crate::rfc5322::ofws_pub(s, de, &mut scratch2);
    let (fin, params) = plist_at(s, pe);
    let pairs = pairs_out(decode_parameter_list(params));
    Ok((tail_vec(s, fin), (disp, pairs)))
}

/// Specification-level form of a [`ContentTransferEncoding`].
pub enum CTEView {
    /// Mirror of [`ContentTransferEncoding::SevenBit`].
    SevenBit,
    /// Mirror of [`ContentTransferEncoding::EightBit`].
    EightBit,
    /// Mirror of [`ContentTransferEncoding::Binary`].
    Binary,
    /// Mirror of [`ContentTransferEncoding::Base64`].
    Base64,
    /// Mirror of [`ContentTransferEncoding::QuotedPrintable`].
    QuotedPrintable,
    /// Mirror of [`ContentTransferEncoding::Extended`].
    Extended(Seq<char>),
    /// Mirror of [`ContentTransferEncoding::Token`].
    Token(Seq<char>),
}

impl View for ContentTransferEncoding {
    type V = CTEView;

    open spec fn view(&self) -> CTEView {
        match self {
            ContentTransferEncoding::SevenBit => CTEView::SevenBit,
            ContentTransferEncoding::EightBit => CTEView::EightBit,
            ContentTransferEncoding::Binary => CTEView::Binary,
            ContentTransferEncoding::Base64 => CTEView::Base64,
            ContentTransferEncoding::QuotedPrintable => CTEView::QuotedPrintable,
            ContentTransferEncoding::Extended(s) => CTEView::Extended(s@),
            ContentTransferEncoding::Token(t) => CTEView::Token(t@),
        }
    }
}

/// What the transfer-encoding keyword at the front parses to, after optional
/// folding whitespace.
pub open spec fn cte_spec(s: Seq<u8>) -> Option<(int, CTEView)> {
    let a = ofws_end(s, 0);
    if !(0 <= a <= s.len()) {
        None
    } else if tag_nocase_at(s, a, "7bit".spec_bytes()) {
        Some((a + 4, CTEView::SevenBit))
    } else if tag_nocase_at(s, a, "8bit".spec_bytes()) {
        Some((a + 4, CTEView::EightBit))
    } else if tag_nocase_at(s, a, "binary".spec_bytes()) {
        Some((a + 6, CTEView::Binary))
    } else if tag_nocase_at(s, a, "base64".spec_bytes()) {
        Some((a + 6, CTEView::Base64))
    } else if tag_nocase_at(s, a, "quoted-printable".spec_bytes()) {
        Some((a + 16, CTEView::QuotedPrintable))
    } else if tag_nocase_at(s, a, "x-".spec_bytes()) && run_end(s, a + 2, Cls::Tok31, false, false)
        > a + 2 {
        Some(
            (
                run_end(s, a + 2, Cls::Tok31, false, false),
                CTEView::Extended(decode_utf8(run_text(s, a + 2, Cls::Tok31, false, false))),
            ),
        )
    } else if run_end(s, a, Cls::Tok31, false, false) > a {
        Some(
            (
                run_end(s, a, Cls::Tok31, false, false),
                CTEView::Token(decode_utf8(run_text(s, a, Cls::Tok31, false, false))),
            ),
        )
    } else {
        None
    }
}

/// Parse a MIME `Content-Transfer-Encoding` header.
///
/// Returns the encoding, with trailing folding whitespace consumed.
pub fn content_transfer_encoding(input: &[u8]) -> (r: ParseResult<ContentTransferEncoding>)
    ensures
        r is Ok <==> cte_spec(input@) is Some,
        r matches Ok((rem, v)) ==> cte_spec(input@) matches Some((de, dv)) && v@ == dv && rem@
            == input@.subrange(ofws_end(input@, de), input@.len() as int),
{
    proof {
        crate::rfc5322::lemma_fws_bounds_pub(input@, 0);
        reveal_strlit("7bit");
        reveal_strlit("8bit");
        reveal_strlit("binary");
        reveal_strlit("base64");
        reveal_strlit("quoted-printable");
        reveal_strlit("x-");
        vstd::string::is_ascii_spec_bytes("7bit");
        vstd::string::is_ascii_spec_bytes("8bit");
        vstd::string::is_ascii_spec_bytes("binary");
        vstd::string::is_ascii_spec_bytes("base64");
        vstd::string::is_ascii_spec_bytes("quoted-printable");
        vstd::string::is_ascii_spec_bytes("x-");
        assert(vstd::string::is_ascii("7bit"));
        assert(vstd::string::is_ascii("8bit"));
        assert(vstd::string::is_ascii("binary"));
        assert(vstd::string::is_ascii("base64"));
        assert(vstd::string::is_ascii("quoted-printable"));
        assert(vstd::string::is_ascii("x-"));
        assert("7bit".spec_bytes().len() == 4);
        assert("8bit".spec_bytes().len() == 4);
        assert("binary".spec_bytes().len() == 6);
        assert("base64".spec_bytes().len() == 6);
        assert("quoted-printable".spec_bytes().len() == 16);
        assert("x-".spec_bytes().len() == 2);
    }
    let s = input;
    let n = s.len();
    let mut scratch: Vec<u8> = Vec::new();
    let a = crate::rfc5322::ofws_pub(s, 0, &mut scratch);
    proof {
        crate::util::lemma_run_end_bounds_pub(s@, a as int, Cls::Tok31, false, false);
        if a + 2 <= s@.len() {
            crate::util::lemma_run_end_bounds_pub(s@, a + 2, Cls::Tok31, false, false);
            crate::util::lemma_run_text_valid(s@, a + 2, Cls::Tok31, false, false);
        }
        crate::util::lemma_run_text_valid(s@, a as int, Cls::Tok31, false, false);
    }
    let de: usize;
    let v: ContentTransferEncoding;
    if crate::util::tag_nocase(s, a, "7bit".as_bytes()) {
        de = a + 4;
        v = ContentTransferEncoding::SevenBit;
    } else if crate::util::tag_nocase(s, a, "8bit".as_bytes()) {
        de = a + 4;
        v = ContentTransferEncoding::EightBit;
    } else if crate::util::tag_nocase(s, a, "binary".as_bytes()) {
        de = a + 6;
        v = ContentTransferEncoding::Binary;
    } else if crate::util::tag_nocase(s, a, "base64".as_bytes()) {
        de = a + 6;
        v = ContentTransferEncoding::Base64;
    } else if crate::util::tag_nocase(s, a, "quoted-printable".as_bytes()) {
        de = a + 16;
        v = ContentTransferEncoding::QuotedPrintable;
    } else {
        let xmatch = crate::util::tag_nocase(s, a, "x-".as_bytes());
        let mut xbuf: Vec<u8> = Vec::new();
        let xe: usize = if xmatch {
            crate::util::text_run(s, a + 2, Cls::Tok31, false, false, &mut xbuf)
        } else {
            a
        };
        if xmatch && xe > a + 2 {
            de = xe;
            v = ContentTransferEncoding::Extended(string_from_utf8(xbuf));
        } else {
            let mut tbuf: Vec<u8> = Vec::new();
            let te = crate::util::text_run(s, a, Cls::Tok31, false, false, &mut tbuf);
            if te > a {
                de = te;
                v = ContentTransferEncoding::Token(string_from_utf8(tbuf));
            } else {
                return Err(ParseError);
            }
        }
    }
    proof {
        crate::rfc5322::lemma_fws_bounds_pub(s@, de as int);
    }
    let mut scratch2: Vec<u8> = Vec::new();
    let fin = crate::rfc5322::ofws_pub(s, de, &mut scratch2);
    Ok((tail_vec(s, fin), v))
}

} // verus!

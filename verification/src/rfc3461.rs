//! SMTP DSN (delivery status notification) extension: the `RET` and `ENVID`
//! MAIL parameters and the `ORCPT` RCPT parameter of RFC 3461.

use vstd::prelude::*;
use vstd::utf8::decode_utf8;
use vstd::utf8::encode_utf8;
use vstd::string::StringSliceAdditionalSpecFns;

use crate::util::Cls;
use crate::util::ParseError;
use crate::util::ParseResult;
use crate::util::ascii_to_string;
use crate::util::ascii_to_string_vec;
use crate::util::bytes_eq_nocase;
use crate::util::cls_has;
use crate::util::cls_spec;
use crate::util::hex_val;
use crate::util::hexpair;
use crate::util::lossy_text;
use crate::util::run_end;
use crate::util::run_text;
use crate::util::scan;
use crate::util::scan_end;
use crate::util::tag_nocase_at;
use crate::util::tail_vec;
use crate::util::text_run;

verus! {

/// The DSN return type desired by the sender.
#[derive(Clone, Copy, Debug, PartialEq, Eq, Structural)]
pub enum DSNRet {
    /// Return the full message content.
    Full,
    /// Return only the message headers.
    Hdrs,
}

/// DSN options of a MAIL command.
#[derive(Clone, Debug, PartialEq, Eq)]
pub struct DSNMailParams {
    /// The mail transaction identifier the sender supplied, if any.
    pub envid: Option<String>,
    /// The return type the sender asked for, if any.
    pub ret: Option<DSNRet>,
}

/// Length of one xtext unit at `i`: a plain xchar byte, or a `+` followed by
/// two upper-case-or-lower-case hexadecimal digits. `0` means no unit.
pub open spec fn xt_unit_len(s: Seq<u8>, i: int) -> int {
    if 0 <= i < s.len() && cls_spec(Cls::Xchar, s[i]) {
        1
    } else if 0 <= i && i + 3 <= s.len() && s[i] == 43 && cls_spec(Cls::HexDig, s[i + 1])
        && cls_spec(Cls::HexDig, s[i + 2]) {
        3
    } else {
        0
    }
}

/// The byte one xtext unit decodes to.
pub open spec fn xt_unit_byte(s: Seq<u8>, i: int) -> u8 {
    if 0 <= i < s.len() && cls_spec(Cls::Xchar, s[i]) {
        s[i]
    } else {
        (16 * hex_val(s[i + 1]) + hex_val(s[i + 2])) as u8
    }
}

/// End of the xtext run starting at `i`.
pub open spec fn xtext_end(s: Seq<u8>, i: int) -> int
    decreases s.len() - i,
    when 0 <= i <= s.len()
{
    if xt_unit_len(s, i) == 0 {
        i
    } else {
        xtext_end(s, i + xt_unit_len(s, i))
    }
}

/// The bytes the xtext run starting at `i` decodes to.
pub open spec fn xtext_bytes(s: Seq<u8>, i: int) -> Seq<u8>
    decreases s.len() - i,
    when 0 <= i <= s.len()
{
    if xt_unit_len(s, i) == 0 {
        seq![]
    } else {
        seq![xt_unit_byte(s, i)] + xtext_bytes(s, i + xt_unit_len(s, i))
    }
}

/// The end of an xtext run stays within the input.
pub proof fn lemma_xtext_bounds_pub(s: Seq<u8>, i: int)
    requires
        0 <= i <= s.len(),
    ensures
        i <= xtext_end(s, i) <= s.len(),
{
    lemma_xtext_bounds(s, i);
}

proof fn lemma_xtext_bounds(s: Seq<u8>, i: int)
    requires
        0 <= i <= s.len(),
    ensures
        i <= xtext_end(s, i) <= s.len(),
    decreases s.len() - i,
{
    if xt_unit_len(s, i) != 0 {
        lemma_xtext_bounds(s, i + xt_unit_len(s, i));
    }
}

/// Decode the xtext run starting at `i`, appending the decoded bytes to
/// `out`; returns where the run ends.
pub fn xtext(s: &[u8], i: usize, out: &mut Vec<u8>) -> (j: usize)
    requires
        i <= s@.len(),
    ensures
        j == xtext_end(s@, i as int),
        i <= j <= s@.len(),
        final(out)@ == old(out)@ + xtext_bytes(s@, i as int),
{
    let n = s.len();
    let mut j: usize = i;
    loop
        invariant
            n == s@.len(),
            i <= j <= n,
            xtext_end(s@, i as int) == xtext_end(s@, j as int),
            old(out)@ + xtext_bytes(s@, i as int) == out@ + xtext_bytes(s@, j as int),
        decreases n - j,
    {
        let ghost out_pre = out@;
        let l: usize;
        if j < n && cls_has(Cls::Xchar, s[j]) {
            out.push(s[j]);
            l = 1;
        } else if j < n && s[j] == 43 {
            match hexpair(s, j + 1) {
                Some((j2, v)) => {
                    out.push(v);
                    l = 3;
                },
                None => {
                    break;
                },
            }
        } else {
            break;
        }
        proof {
            assert(out@ =~= out_pre + seq![xt_unit_byte(s@, j as int)]);
            assert(out@ + xtext_bytes(s@, j + l) =~= out_pre + xtext_bytes(s@, j as int));
        }
        j += l;
    }
    proof {
        lemma_xtext_bounds(s@, j as int);
        assert(out@ =~= old(out)@ + xtext_bytes(s@, i as int));
    }
    j
}

/// All decoded bytes are printable: the check RFC 3461 applies to ENVID and
/// ORCPT values.
pub open spec fn all_printable(b: Seq<u8>) -> bool {
    forall|k: int| 0 <= k < b.len() ==> cls_spec(Cls::XPrintable, #[trigger] b[k])
}

fn printable_check(b: &[u8]) -> (r: bool)
    ensures
        r == all_printable(b@),
{
    let mut k: usize = 0;
    while k < b.len()
        invariant
            0 <= k <= b@.len(),
            forall|m: int| 0 <= m < k ==> cls_spec(Cls::XPrintable, #[trigger] b@[m]),
        decreases b@.len() - k,
    {
        if !cls_has(Cls::XPrintable, b[k]) {
            return false;
        }
        k += 1;
    }
    true
}

/// A parameter name or value equals the ASCII keyword `kw`, ignoring case.
pub open spec fn kw_is(s: Seq<char>, kw: Seq<u8>) -> bool {
    encode_utf8(s).len() == kw.len() && tag_nocase_at(encode_utf8(s), 0, kw)
}

fn kw_eq(s: &str, kw: &[u8]) -> (r: bool)
    ensures
        r == kw_is(s@, kw@),
{
    bytes_eq_nocase(s.as_bytes(), kw)
}

/// The ENVID value `v` is well formed: its bytes are at most 100, they parse
/// as xtext in full, and every decoded byte is printable.
pub open spec fn envid_ok(v: Seq<char>) -> bool {
    let b = encode_utf8(v);
    &&& b.len() <= 100
    &&& xtext_end(b, 0) == b.len()
    &&& all_printable(xtext_bytes(b, 0))
}

/// What the ENVID value decodes to.
pub open spec fn envid_text(v: Seq<char>) -> Seq<char> {
    decode_utf8(lossy_text(xtext_bytes(encode_utf8(v), 0)))
}

/// One step of the DSN option walk, and with it the whole walk: starting at
/// parameter `k` with the options seen so far, what the walk returns.
pub open spec fn dsn_spec(
    ps: Seq<(Seq<char>, Option<Seq<char>>)>,
    k: int,
    envid: Option<Seq<char>>,
    ret: Option<DSNRet>,
    rest: Seq<(Seq<char>, Option<Seq<char>>)>,
) -> Result<(Option<Seq<char>>, Option<DSNRet>, Seq<(Seq<char>, Option<Seq<char>>)>), Seq<char>>
    decreases ps.len() - k,
    when 0 <= k <= ps.len()
{
    if k >= ps.len() {
        Ok((envid, ret, rest))
    } else {
        let (name, value) = ps[k];
        if kw_is(name, "ret".spec_bytes()) {
            match value {
                Some(v) => {
                    if ret is Some {
                        Err("Duplicate RET"@)
                    } else if kw_is(v, "full".spec_bytes()) {
                        dsn_spec(ps, k + 1, envid, Some(DSNRet::Full), rest)
                    } else if kw_is(v, "hdrs".spec_bytes()) {
                        dsn_spec(ps, k + 1, envid, Some(DSNRet::Hdrs), rest)
                    } else {
                        Err("Invalid RET"@)
                    }
                },
                None => Err("RET without value"@),
            }
        } else if kw_is(name, "envid".spec_bytes()) {
            match value {
                Some(v) => {
                    if envid is Some {
                        Err("Duplicate ENVID"@)
                    } else if encode_utf8(v).len() > 100 {
                        Err("ENVID over 100 bytes"@)
                    } else if xtext_end(encode_utf8(v), 0) == encode_utf8(v).len()
                        && all_printable(xtext_bytes(encode_utf8(v), 0)) {
                        dsn_spec(ps, k + 1, Some(envid_text(v)), ret, rest)
                    } else {
                        Err("Invalid ENVID"@)
                    }
                },
                None => Err("ENVID without value"@),
            }
        } else {
            dsn_spec(ps, k + 1, envid, ret, rest.push(ps[k]))
        }
    }
}

/// The parameter list seen as sequences of characters.
pub open spec fn params_view(ps: Seq<(&str, Option<&str>)>) -> Seq<
    (Seq<char>, Option<Seq<char>>),
> {
    ps.map_values(
        |p: (&str, Option<&str>)|
            (
                p.0@,
                match p.1 {
                    Some(v) => Some(v@),
                    None => None,
                },
            ),
    )
}

/// Walk a list of ESMTP parameters from a MAIL command and collect its DSN
/// options.
///
/// Returns the option block and the parameters that were not consumed, in
/// their original order; reports duplicate or malformed `RET` and `ENVID`
/// options as named errors.  The exact outcome for every input is
/// [`dsn_spec`] run over the whole list.
pub fn dsn_mail_params<'a>(input: &[(&'a str, Option<&'a str>)]) -> (r: Result<
    (DSNMailParams, Vec<(&'a str, Option<&'a str>)>),
    &'static str,
>)
    ensures
        ({
            let spec_r = dsn_spec(params_view(input@), 0, None, None, Seq::empty());
            match r {
                Ok((block, rest)) => {
                    &&& spec_r matches Ok((envid, ret, out))
                    &&& match (block.envid, envid) {
                        (Some(a), Some(b)) => a@ == b,
                        (None, None) => true,
                        _ => false,
                    }
                    &&& block.ret == ret
                    &&& params_view(rest@) == out
                },
                Err(e) => spec_r matches Err(m) && e@ == m,
            }
        }),
{
    let ghost psv = params_view(input@);
    let mut out: Vec<(&'a str, Option<&'a str>)> = Vec::new();
    let mut envid_val: Option<String> = None;
    let mut ret_val: Option<DSNRet> = None;
    proof {
        assert(params_view(out@) =~= Seq::<(Seq<char>, Option<Seq<char>>)>::empty());
    }
    let mut k: usize = 0;
    while k < input.len()
        invariant
            0 <= k <= input@.len(),
            psv == params_view(input@),
            psv.len() == input@.len(),
            dsn_spec(psv, 0, None, None, Seq::empty()) == dsn_spec(
                psv,
                k as int,
                match envid_val {
                    Some(ref e) => Some(e@),
                    None => None,
                },
                ret_val,
                params_view(out@),
            ),
        decreases input@.len() - k,
    {
        let (name, value) = input[k];
        proof {
            assert(psv[k as int] == (name@, match value {
                Some(v) => Some(v@),
                None => None,
            }));
        }
        if kw_eq(name, "ret".as_bytes()) {
            match value {
                Some(v) => {
                    if ret_val.is_some() {
                        return Err("Duplicate RET");
                    }
                    if kw_eq(v, "full".as_bytes()) {
                        ret_val = Some(DSNRet::Full);
                    } else if kw_eq(v, "hdrs".as_bytes()) {
                        ret_val = Some(DSNRet::Hdrs);
                    } else {
                        return Err("Invalid RET");
                    }
                },
                None => {
                    return Err("RET without value");
                },
            }
        } else if kw_eq(name, "envid".as_bytes()) {
            match value {
                Some(v) => {
                    if envid_val.is_some() {
                        return Err("Duplicate ENVID");
                    }
                    let vb = v.as_bytes();
                    if vb.len() > 100 {
                        return Err("ENVID over 100 bytes");
                    }
                    let mut decoded: Vec<u8> = Vec::new();
                    let e = xtext(vb, 0, &mut decoded);
                    if e == vb.len() && printable_check(decoded.as_slice()) {
                        envid_val = Some(ascii_to_string_vec(decoded));
                    } else {
                        return Err("Invalid ENVID");
                    }
                },
                None => {
                    return Err("ENVID without value");
                },
            }
        } else {
            let ghost out_pre = params_view(out@);
            out.push((name, value));
            proof {
                assert(params_view(out@) =~= out_pre.push(psv[k as int]));
            }
        }
        k += 1;
    }
    Ok((DSNMailParams { envid: envid_val, ret: ret_val }, out))
}

/// What [`orcpt_address`] finds at the front of `s`: the end of the parse
/// and the two decoded parts, or nothing when the shape is not
/// `addr-type ";" xtext` with every decoded byte printable.  The address
/// type is a message-format atom, so comments and folding whitespace around
/// it are tolerated.
pub open spec fn orcpt_spec(s: Seq<u8>) -> Option<(int, Seq<char>, Seq<char>)> {
    match crate::rfc5322::atom_spec(s, 0, true) {
        Some((a, tp)) => {
            if 0 <= a < s.len() && s[a] == 59 {
                let decoded = xtext_bytes(s, a + 1);
                if all_printable(decoded) {
                    Some((xtext_end(s, a + 1), tp, decode_utf8(lossy_text(decoded))))
                } else {
                    None
                }
            } else {
                None
            }
        },
        None => None,
    }
}

/// Parse the ESMTP ORCPT parameter value of a RCPT command: an address type,
/// a semicolon, and an xtext-encoded original recipient address whose
/// decoded bytes must all be printable.
///
/// Returns the address type and the decoded address, with the input that
/// follows the xtext run as remainder.
pub fn orcpt_address(input: &[u8]) -> (r: ParseResult<(String, String)>)
    ensures
        r is Ok <==> orcpt_spec(input@) is Some,
        r matches Ok((rem, v)) ==> orcpt_spec(input@) matches Some((end, tp, addr)) && v.0@ == tp
            && v.1@ == addr && rem@ == input@.subrange(end, input@.len() as int),
{
    match crate::rfc5322::atom_at(input, 0, true) {
        Some((a, atom_text)) => {
            if a < input.len() && input[a] == 59 {
                let mut decoded: Vec<u8> = Vec::new();
                let x = xtext(input, a + 1, &mut decoded);
                if !printable_check(decoded.as_slice()) {
                    return Err(ParseError);
                }
                let tp = crate::util::string_from_utf8(atom_text);
                let addr = ascii_to_string_vec(decoded);
                Ok((tail_vec(input, x), (tp, addr)))
            } else {
                Err(ParseError)
            }
        },
        None => Err(ParseError),
    }
}

} // verus!

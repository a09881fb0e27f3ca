//! RFC 2047 encoded words: header extensions for non-ASCII text.
//!
//! An encoded word has the shape `=?charset?enc?text?=`.  The inner text is
//! decoded from modified quoted-printable (`Q`) or base64 (`B`); a failed or
//! unknown inner decoding falls back to the raw text bytes, and the charset
//! decoding replaces what it cannot represent, so an encoded word never makes
//! a surrounding header fail.

use vstd::prelude::*;
use vstd::utf8::decode_utf8;

use crate::util::Cls;
use crate::util::ParseError;
use crate::util::ParseResult;
use crate::util::ascii_to_string;
use crate::util::cls_spec;
use crate::util::hex_val;
use crate::util::hexpair;
use crate::util::lossy_text;
use crate::util::lower;
use crate::util::scan;
use crate::util::scan_end;
use crate::util::tail_vec;

verus! {

/// Length of one unit of modified quoted-printable: `=` and two hex digits,
/// or any other single byte (`_` and plain bytes alike).
pub open spec fn qp_unit_len(s: Seq<u8>, i: int) -> int {
    if i < 0 || i >= s.len() {
        0
    } else if s[i] == 61 && i + 3 <= s.len() && cls_spec(Cls::HexDig, s[i + 1]) && cls_spec(
        Cls::HexDig,
        s[i + 2],
    ) {
        3
    } else {
        1
    }
}

/// The byte one unit of modified quoted-printable decodes to: the value of
/// the hex escape, a space for `_`, or the byte itself.
pub open spec fn qp_unit_byte(s: Seq<u8>, i: int) -> u8 {
    if qp_unit_len(s, i) == 3 {
        (16 * hex_val(s[i + 1]) + hex_val(s[i + 2])) as u8
    } else if s[i] == 95 {
        32
    } else {
        s[i]
    }
}

/// The bytes the modified quoted-printable text `s[i..]` decodes to.  Every
/// byte is consumed: an escape that is not two hex digits passes through as
/// itself.
pub open spec fn qp_bytes(s: Seq<u8>, i: int) -> Seq<u8>
    decreases s.len() - i,
    when 0 <= i <= s.len()
{
    if qp_unit_len(s, i) == 0 {
        seq![]
    } else {
        seq![qp_unit_byte(s, i)] + qp_bytes(s, i + qp_unit_len(s, i))
    }
}

/// Decode the modified quoted-printable encoding of RFC 2047.
pub fn decode_qp(input: &[u8]) -> (r: Vec<u8>)
    ensures
        r@ == qp_bytes(input@, 0),
{
    let n = input.len();
    let mut out: Vec<u8> = Vec::new();
    let mut i: usize = 0;
    while i < n
        invariant
            n == input@.len(),
            0 <= i <= n,
            qp_bytes(input@, 0) == out@ + qp_bytes(input@, i as int),
        decreases n - i,
    {
        let ghost out_pre = out@;
        let l: usize;
        if input[i] == 61 {
            match hexpair(input, i + 1) {
                Some((_, v)) => {
                    out.push(v);
                    l = 3;
                },
                None => {
                    out.push(61);
                    l = 1;
                },
            }
        } else if input[i] == 95 {
            out.push(32);
            l = 1;
        } else {
            out.push(input[i]);
            l = 1;
        }
        proof {
            assert(out@ =~= out_pre + seq![qp_unit_byte(input@, i as int)]);
            assert(out@ + qp_bytes(input@, i + l) =~= out_pre + qp_bytes(input@, i as int));
        }
        i += l;
    }
    proof {
        assert(out@ =~= qp_bytes(input@, 0));
    }
    out
}

/// What base64 decoding of the given bytes yields, or nothing when they are
/// not valid base64.  Stands for the base64 crate's standard-alphabet decode.
pub uninterp spec fn b64_decode(s: Seq<u8>) -> Option<Seq<u8>>;

/// Relies on base64::decode (standard alphabet with `=` padding): the result
/// is a function of the input bytes alone, and decoding either yields the
/// decoded bytes or fails cleanly on input that is not valid base64.
#[verifier::external_body]
fn base64_decode(text: &[u8]) -> (r: Option<Vec<u8>>)
    ensures
        match r {
            Some(v) => b64_decode(text@) == Some(v@),
            None => b64_decode(text@) is None,
        },
{
    base64::decode(text).ok()
}

/// What decoding `bytes` under the charset named `label` yields.  Stands for
/// the codec service: a label-selected decoder that replaces undecodable
/// input with the replacement character.
pub uninterp spec fn charset_decode(label: Seq<char>, bytes: Seq<u8>) -> Seq<char>;

/// Relies on encoding::label::encoding_from_whatwg_label and on
/// Encoding::decode with DecoderTrap::Replace: an unknown label falls back to
/// the ASCII codec, the replacing decode never fails, and the result depends
/// on the label and the bytes alone.
#[verifier::external_body]
fn decode_with_charset(label: &str, bytes: &[u8]) -> (r: String)
    ensures
        r@ == charset_decode(label@, bytes@),
{
    let codec = encoding::label::encoding_from_whatwg_label(label).unwrap_or(
        encoding::all::ASCII,
    );
    codec.decode(bytes, encoding::DecoderTrap::Replace).unwrap_or_default()
}

/// The inner bytes of an encoded word after undoing the `Q` or `B` encoding:
/// quoted-printable or base64 by the (case-insensitive) encoding name, the
/// raw text bytes when base64 fails or the encoding is unknown.
pub open spec fn inner_bytes(enc: Seq<u8>, text: Seq<u8>) -> Seq<u8> {
    if enc.len() == 1 && lower(enc[0]) == 113 {
        qp_bytes(text, 0)
    } else if enc.len() == 1 && lower(enc[0]) == 98 {
        match b64_decode(text) {
            Some(v) => v,
            None => text,
        }
    } else {
        text
    }
}

/// What an encoded word starting at `i` parses to: the position after the
/// closing `?=` and the decoded text, or nothing when the shape does not
/// match `=?charset["*"language]?enc?text?=`.
pub open spec fn ew_spec(s: Seq<u8>, i: int) -> Option<(int, Seq<char>)> {
    if !(0 <= i && i + 2 <= s.len() && s[i] == 61 && s[i + 1] == 63) {
        None
    } else {
        let cs_end = scan_end(s, i + 2, Cls::Tok47);
        if cs_end == i + 2 {
            None
        } else {
            let charset = s.subrange(i + 2, cs_end);
            let pos = if cs_end < s.len() && s[cs_end] == 42 && scan_end(s, cs_end + 1, Cls::Tok47)
                > cs_end + 1 {
                scan_end(s, cs_end + 1, Cls::Tok47)
            } else {
                cs_end
            };
            if !(pos < s.len() && s[pos] == 63) {
                None
            } else {
                let enc_end = scan_end(s, pos + 1, Cls::Tok47);
                if !(enc_end > pos + 1 && enc_end < s.len() && s[enc_end] == 63) {
                    None
                } else {
                    let text_end = scan_end(s, enc_end + 1, Cls::EncText);
                    if !(text_end > enc_end + 1 && text_end + 2 <= s.len() && s[text_end] == 63
                        && s[text_end + 1] == 61) {
                        None
                    } else {
                        let enc = s.subrange(pos + 1, enc_end);
                        let text = s.subrange(enc_end + 1, text_end);
                        Some(
                            (
                                text_end + 2,
                                charset_decode(
                                    decode_utf8(lossy_text(charset)),
                                    inner_bytes(enc, text),
                                ),
                            ),
                        )
                    }
                }
            }
        }
    }
}

/// An encoded word's end lies strictly past its start and within the input.
pub proof fn lemma_ew_bounds(s: Seq<u8>, i: int)
    requires
        0 <= i <= s.len(),
    ensures
        ew_spec(s, i) matches Some((j, t)) ==> i < j <= s.len(),
{
    if 0 <= i && i + 2 <= s.len() && s[i] == 61 && s[i + 1] == 63 {
        crate::util::lemma_scan_end_pub(s, i + 2, Cls::Tok47);
        let cs_end = scan_end(s, i + 2, Cls::Tok47);
        if cs_end != i + 2 {
            if cs_end < s.len() {
                crate::util::lemma_scan_end_pub(s, cs_end + 1, Cls::Tok47);
            }
            let pos = if cs_end < s.len() && s[cs_end] == 42 && scan_end(s, cs_end + 1, Cls::Tok47)
                > cs_end + 1 {
                scan_end(s, cs_end + 1, Cls::Tok47)
            } else {
                cs_end
            };
            if pos < s.len() && s[pos] == 63 {
                crate::util::lemma_scan_end_pub(s, pos + 1, Cls::Tok47);
                let enc_end = scan_end(s, pos + 1, Cls::Tok47);
                if enc_end > pos + 1 && enc_end < s.len() && s[enc_end] == 63 {
                    crate::util::lemma_scan_end_pub(s, enc_end + 1, Cls::EncText);
                }
            }
        }
    }
}

/// Parse one encoded word starting at position `i`, returning the position
/// after it and its decoded text.
pub fn encoded_word_at(s: &[u8], i: usize) -> (r: Option<(usize, String)>)
    requires
        i <= s@.len(),
    ensures
        r is Some <==> ew_spec(s@, i as int) is Some,
        r matches Some((j, v)) ==> ew_spec(s@, i as int) matches Some((sj, sv)) && j == sj && v@
            == sv && i < j <= s@.len(),
{
    let n = s.len();
    if !(n - i >= 2 && s[i] == 61 && s[i + 1] == 63) {
        return None;
    }
    let cs_end = scan(s, i + 2, Cls::Tok47);
    if cs_end == i + 2 {
        return None;
    }
    let pos: usize;
    if cs_end < n && s[cs_end] == 42 {
        let lang_end = scan(s, cs_end + 1, Cls::Tok47);
        if lang_end > cs_end + 1 {
            pos = lang_end;
        } else {
            pos = cs_end;
        }
    } else {
        pos = cs_end;
    }
    if !(pos < n && s[pos] == 63) {
        return None;
    }
    let enc_end = scan(s, pos + 1, Cls::Tok47);
    if !(enc_end > pos + 1 && enc_end < n && s[enc_end] == 63) {
        return None;
    }
    let text_end = scan(s, enc_end + 1, Cls::EncText);
    if !(text_end > enc_end + 1 && n - text_end >= 2 && s[text_end] == 63 && s[text_end + 1]
        == 61) {
        return None;
    }
    let charset = crate::util::sub_vec(s, i + 2, cs_end);
    let text = crate::util::sub_vec(s, enc_end + 1, text_end);
    let enc_lo: u8 = if enc_end - pos == 2 {
        crate::util::to_lower(s[pos + 1])
    } else {
        0
    };
    let ghost enc_seq = s@.subrange(pos + 1, enc_end as int);
    let decoded: Vec<u8>;
    if enc_lo == 113 {
        decoded = decode_qp(text.as_slice());
        proof {
            assert(enc_seq.len() == 1 && lower(enc_seq[0]) == 113);
        }
    } else if enc_lo == 98 {
        match base64_decode(text.as_slice()) {
            Some(v) => {
                decoded = v;
            },
            None => {
                decoded = text;
            },
        }
        proof {
            assert(enc_seq.len() == 1 && lower(enc_seq[0]) == 98);
        }
    } else {
        decoded = text;
        proof {
            if enc_seq.len() == 1 {
                assert(enc_seq[0] == s@[pos + 1]);
            }
        }
    }
    let label = ascii_to_string(charset.as_slice());
    let out = decode_with_charset(label.as_str(), decoded.as_slice());
    Some((text_end + 2, out))
}

/// Decode an encoded word at the front of the input.
///
/// Returns the decoded text and the input after the closing `?=`.
pub fn encoded_word(input: &[u8]) -> (r: ParseResult<String>)
    ensures
        r is Ok <==> ew_spec(input@, 0) is Some,
        r matches Ok((rem, v)) ==> ew_spec(input@, 0) matches Some((j, sv)) && v@ == sv && rem@
            == input@.subrange(j, input@.len() as int),
{
    match encoded_word_at(input, 0) {
        Some((j, v)) => Ok((tail_vec(input, j), v)),
        None => Err(ParseError),
    }
}

} // verus!

//! Shared low-level helpers: parse outcome types, byte classes, ASCII and
//! UTF-8 handling used by every grammar in the crate.

use vstd::prelude::*;
use vstd::utf8::valid_first_scalar;
use vstd::utf8::length_of_first_scalar;
use vstd::utf8::decode_first_codepoint;
use vstd::utf8::valid_leading_and_continuation_bytes_first_codepoint;
use vstd::utf8::valid_utf8;
use vstd::utf8::decode_utf8;
use vstd::slice::slice_subrange;
use vstd::slice::slice_to_vec;

verus! {

/// Returned when an input does not match the grammar a parser implements.
#[derive(Clone, Copy, Debug, PartialEq, Eq, Structural)]
pub struct ParseError;

/// Outcome of a public parser: the unconsumed remainder and the parsed value,
/// or a [`ParseError`].
pub type ParseResult<T> = Result<(Vec<u8>, T), ParseError>;

/// UTF-8 encoding of U+FFFD, the replacement character.
pub open spec fn fffd() -> Seq<u8> {
    seq![0xefu8, 0xbfu8, 0xbdu8]
}

/// Copy of the input from `i` to the end; the remainder handed back by parsers.
pub fn tail_vec(s: &[u8], i: usize) -> (r: Vec<u8>)
    requires
        i <= s@.len(),
    ensures
        r@ == s@.subrange(i as int, s@.len() as int),
{
    let sub = slice_subrange(s, i, s.len());
    slice_to_vec(sub)
}

/// Copy of the bytes of `s` from `a` to `b`.
pub fn sub_vec(s: &[u8], a: usize, b: usize) -> (r: Vec<u8>)
    requires
        a <= b <= s@.len(),
    ensures
        r@ == s@.subrange(a as int, b as int),
{
    slice_to_vec(slice_subrange(s, a, b))
}

/// ASCII lower-casing of one byte.
pub open spec fn lower(b: u8) -> u8 {
    if 65 <= b <= 90 {
        (b + 32) as u8
    } else {
        b
    }
}

/// Exec twin of [`lower`].
pub fn to_lower(b: u8) -> (r: u8)
    ensures
        r == lower(b),
{
    if 65 <= b && b <= 90 {
        b + 32
    } else {
        b
    }
}

/// The bytes of `s` from `i` match `tag` exactly.
pub open spec fn tag_at(s: Seq<u8>, i: int, tag: Seq<u8>) -> bool {
    &&& 0 <= i
    &&& i + tag.len() <= s.len()
    &&& forall|k: int| 0 <= k < tag.len() ==> s[i + k] == tag[k]
}

/// The bytes of `s` from `i` match `tag` up to ASCII case.
pub open spec fn tag_nocase_at(s: Seq<u8>, i: int, tag: Seq<u8>) -> bool {
    &&& 0 <= i
    &&& i + tag.len() <= s.len()
    &&& forall|k: int| 0 <= k < tag.len() ==> lower(s[i + k]) == lower(tag[k])
}

/// Match `tag` at position `i`, case-sensitively.
pub fn tag(s: &[u8], i: usize, t: &[u8]) -> (r: bool)
    requires
        i <= s@.len(),
    ensures
        r == tag_at(s@, i as int, t@),
{
    if s.len() - i < t.len() {
        return false;
    }
    let mut k: usize = 0;
    while k < t.len()
        invariant
            0 <= k <= t@.len(),
            i + t@.len() <= s@.len(),
            forall|m: int| 0 <= m < k ==> s@[i + m] == t@[m],
        decreases t@.len() - k,
    {
        if s[i + k] != t[k] {
            return false;
        }
        k += 1;
    }
    true
}

/// Match `tag` at position `i`, ignoring ASCII case.
pub fn tag_nocase(s: &[u8], i: usize, t: &[u8]) -> (r: bool)
    requires
        i <= s@.len(),
    ensures
        r == tag_nocase_at(s@, i as int, t@),
{
    if s.len() - i < t.len() {
        return false;
    }
    let mut k: usize = 0;
    while k < t.len()
        invariant
            0 <= k <= t@.len(),
            i + t@.len() <= s@.len(),
            forall|m: int| 0 <= m < k ==> lower(s@[i + m]) == lower(t@[m]),
        decreases t@.len() - k,
    {
        if to_lower(s[i + k]) != to_lower(t[k]) {
            return false;
        }
        k += 1;
    }
    true
}

/// The two byte sequences are equal.
pub fn bytes_eq(a: &[u8], b: &[u8]) -> (r: bool)
    ensures
        r == (a@ == b@),
{
    if a.len() != b.len() {
        assert(a@.len() != b@.len());
        return false;
    }
    let mut k: usize = 0;
    while k < a.len()
        invariant
            0 <= k <= a@.len(),
            a@.len() == b@.len(),
            forall|m: int| 0 <= m < k ==> a@[m] == b@[m],
        decreases a@.len() - k,
    {
        if a[k] != b[k] {
            return false;
        }
        k += 1;
    }
    proof {
        assert(a@ =~= b@);
    }
    true
}

/// The byte sequences are equal up to ASCII case.
pub fn bytes_eq_nocase(a: &[u8], b: &[u8]) -> (r: bool)
    ensures
        r == (a@.len() == b@.len() && tag_nocase_at(a@, 0, b@)),
{
    if a.len() != b.len() {
        return false;
    }
    tag_nocase(a, 0, b)
}


/// Byte classes used by the grammars. Each names a set of ASCII bytes; which
/// class a primitive scans with decides what it accepts.
#[derive(Clone, Copy, Debug, PartialEq, Eq, Structural)]
pub enum Cls {
    /// Header field name bytes: printable US-ASCII except `:`.
    HdrName,
    /// Visible printing bytes, `0x21` to `0x7e`.
    Vchar,
    /// Space or horizontal tab.
    Wsp,
    /// Visible printing bytes or space or horizontal tab; what a quoted pair
    /// may escape.
    VcharWsp,
    /// RFC 5322 comment text.
    Ctext,
    /// RFC 5322 atom text.
    Atext,
    /// RFC 5322 quoted-string text.
    Qtext,
    /// RFC 5322 domain-literal text.
    Dtext,
    /// RFC 5321 quoted-string text (also allows space).
    QtextSmtp,
    /// RFC 5321 ESMTP parameter value bytes.
    EsmtpValue,
    /// Space through tilde: what an SMTP quoted pair may escape.
    Printable,
    /// RFC 2047 token bytes.
    Tok47,
    /// RFC 2047 encoded-text bytes.
    EncText,
    /// RFC 2045 token bytes.
    Tok31,
    /// RFC 2231 attribute bytes.
    AttrChar,
    /// ASCII decimal digit.
    Digit,
    /// ASCII hexadecimal digit.
    HexDig,
    /// ASCII letter or digit.
    AlNum,
    /// ASCII letter, digit or hyphen.
    Ldh,
    /// RFC 5321 domain-literal content bytes.
    Dcontent,
    /// Hexadecimal digits, colons and dots: the run an IPv6 literal is read
    /// from.
    V6Text,
    /// RFC 3461 xtext bytes.
    Xchar,
    /// Printable bytes plus whitespace controls, as accepted inside ENVID.
    XPrintable,
    /// Every ASCII byte.
    AnyAscii,
}

/// Membership of byte `b` in class `c`. Only bytes below `0x80` are members
/// of any class.
pub open spec fn cls_spec(c: Cls, b: u8) -> bool {
    match c {
        Cls::HdrName => 33 <= b <= 57 || 59 <= b <= 126,
        Cls::Vchar => 0x21 <= b <= 0x7e,
        Cls::Wsp => b == 32 || b == 9,
        Cls::VcharWsp => 0x21 <= b <= 0x7e || b == 32 || b == 9,
        Cls::Ctext => 33 <= b <= 39 || 42 <= b <= 91 || 93 <= b <= 126,
        Cls::Atext => b == 33 || 35 <= b <= 39 || b == 42 || b == 43 || b == 45 || b == 47
            || 48 <= b <= 57 || b == 61 || b == 63 || 65 <= b <= 90 || 94 <= b <= 126,
        Cls::Qtext => b == 33 || 35 <= b <= 91 || 93 <= b <= 126,
        Cls::Dtext => 33 <= b <= 90 || 94 <= b <= 126,
        Cls::QtextSmtp => 32 <= b <= 33 || 35 <= b <= 91 || 93 <= b <= 126,
        Cls::EsmtpValue => 33 <= b <= 60 || 62 <= b <= 126,
        Cls::Printable => 32 <= b <= 126,
        Cls::Tok47 => 33 <= b <= 126 && b != 40 && b != 41 && b != 60 && b != 62 && b != 64
            && b != 44 && b != 59 && b != 58 && b != 92 && b != 34 && b != 47 && b != 91
            && b != 93 && b != 63 && b != 46 && b != 61,
        Cls::EncText => 33 <= b <= 62 || 64 <= b <= 126,
        Cls::Tok31 => 33 <= b <= 126 && b != 40 && b != 41 && b != 60 && b != 62 && b != 64
            && b != 44 && b != 59 && b != 58 && b != 92 && b != 34 && b != 47 && b != 91
            && b != 93 && b != 63 && b != 61,
        Cls::AttrChar => 33 <= b <= 126 && b != 40 && b != 41 && b != 60 && b != 62 && b != 64
            && b != 44 && b != 59 && b != 58 && b != 92 && b != 34 && b != 47 && b != 91
            && b != 93 && b != 63 && b != 61 && b != 42 && b != 39 && b != 37,
        Cls::Digit => 48 <= b <= 57,
        Cls::HexDig => 48 <= b <= 57 || 65 <= b <= 70 || 97 <= b <= 102,
        Cls::AlNum => 48 <= b <= 57 || 65 <= b <= 90 || 97 <= b <= 122,
        Cls::Ldh => 48 <= b <= 57 || 65 <= b <= 90 || 97 <= b <= 122 || b == 45,
        Cls::Dcontent => 33 <= b <= 90 || 94 <= b <= 126,
        Cls::V6Text => 48 <= b <= 57 || 65 <= b <= 70 || 97 <= b <= 102 || b == 58 || b == 46,
        Cls::Xchar => 33 <= b <= 42 || 44 <= b <= 60 || 62 <= b <= 126,
        Cls::XPrintable => 32 <= b <= 126 || b == 9 || b == 10 || b == 11 || b == 12 || b == 13,
        Cls::AnyAscii => b < 0x80,
    }
}

/// Exec twin of [`cls_spec`].
pub fn cls_has(c: Cls, b: u8) -> (r: bool)
    ensures
        r == cls_spec(c, b),
{
    match c {
        Cls::HdrName => 33 <= b && b <= 57 || 59 <= b && b <= 126,
        Cls::Vchar => 0x21 <= b && b <= 0x7e,
        Cls::Wsp => b == 32 || b == 9,
        Cls::VcharWsp => 0x21 <= b && b <= 0x7e || b == 32 || b == 9,
        Cls::Ctext => 33 <= b && b <= 39 || 42 <= b && b <= 91 || 93 <= b && b <= 126,
        Cls::Atext => b == 33 || 35 <= b && b <= 39 || b == 42 || b == 43 || b == 45 || b == 47
            || 48 <= b && b <= 57 || b == 61 || b == 63 || 65 <= b && b <= 90
            || 94 <= b && b <= 126,
        Cls::Qtext => b == 33 || 35 <= b && b <= 91 || 93 <= b && b <= 126,
        Cls::Dtext => 33 <= b && b <= 90 || 94 <= b && b <= 126,
        Cls::QtextSmtp => 32 <= b && b <= 33 || 35 <= b && b <= 91 || 93 <= b && b <= 126,
        Cls::EsmtpValue => 33 <= b && b <= 60 || 62 <= b && b <= 126,
        Cls::Printable => 32 <= b && b <= 126,
        Cls::Tok47 => 33 <= b && b <= 126 && b != 40 && b != 41 && b != 60 && b != 62 && b != 64
            && b != 44 && b != 59 && b != 58 && b != 92 && b != 34 && b != 47 && b != 91
            && b != 93 && b != 63 && b != 46 && b != 61,
        Cls::EncText => 33 <= b && b <= 62 || 64 <= b && b <= 126,
        Cls::Tok31 => 33 <= b && b <= 126 && b != 40 && b != 41 && b != 60 && b != 62 && b != 64
            && b != 44 && b != 59 && b != 58 && b != 92 && b != 34 && b != 47 && b != 91
            && b != 93 && b != 63 && b != 61,
        Cls::AttrChar => 33 <= b && b <= 126 && b != 40 && b != 41 && b != 60 && b != 62
            && b != 64 && b != 44 && b != 59 && b != 58 && b != 92 && b != 34 && b != 47
            && b != 91 && b != 93 && b != 63 && b != 61 && b != 42 && b != 39 && b != 37,
        Cls::Digit => 48 <= b && b <= 57,
        Cls::HexDig => 48 <= b && b <= 57 || 65 <= b && b <= 70 || 97 <= b && b <= 102,
        Cls::AlNum => 48 <= b && b <= 57 || 65 <= b && b <= 90 || 97 <= b && b <= 122,
        Cls::Ldh => 48 <= b && b <= 57 || 65 <= b && b <= 90 || 97 <= b && b <= 122 || b == 45,
        Cls::Dcontent => 33 <= b && b <= 90 || 94 <= b && b <= 126,
        Cls::V6Text => 48 <= b && b <= 57 || 65 <= b && b <= 70 || 97 <= b && b <= 102
            || b == 58 || b == 46,
        Cls::Xchar => 33 <= b && b <= 42 || 44 <= b && b <= 60 || 62 <= b && b <= 126,
        Cls::XPrintable => 32 <= b && b <= 126 || b == 9 || b == 10 || b == 11 || b == 12
            || b == 13,
        Cls::AnyAscii => b < 0x80,
    }
}

/// End of the run of class-`c` bytes that starts at `i`: the first position at
/// or after `i` whose byte is not in `c`, or the end of the input.
pub open spec fn scan_end(s: Seq<u8>, i: int, c: Cls) -> int
    decreases s.len() - i,
{
    if 0 <= i < s.len() && cls_spec(c, s[i]) {
        scan_end(s, i + 1, c)
    } else {
        i
    }
}

proof fn lemma_scan_end_bounds(s: Seq<u8>, i: int, c: Cls)
    requires
        0 <= i <= s.len(),
    ensures
        i <= scan_end(s, i, c) <= s.len(),
        forall|k: int| i <= k < scan_end(s, i, c) ==> cls_spec(c, s[k]),
        scan_end(s, i, c) < s.len() ==> !cls_spec(c, s[scan_end(s, i, c)]),
    decreases s.len() - i,
{
    if 0 <= i < s.len() && cls_spec(c, s[i]) {
        lemma_scan_end_bounds(s, i + 1, c);
    }
}

/// Facts about [`scan_end`]: it stays within bounds, everything before it is
/// in the class, and the byte at it (when any) is not.
pub proof fn lemma_scan_end_pub(s: Seq<u8>, i: int, c: Cls)
    requires
        0 <= i <= s.len(),
    ensures
        i <= scan_end(s, i, c) <= s.len(),
        forall|k: int| i <= k < scan_end(s, i, c) ==> cls_spec(c, s[k]),
        scan_end(s, i, c) < s.len() ==> !cls_spec(c, s[scan_end(s, i, c)]),
{
    lemma_scan_end_bounds(s, i, c);
}

/// Scan forward over class-`c` bytes starting at `i`.
pub fn scan(s: &[u8], i: usize, c: Cls) -> (j: usize)
    requires
        i <= s@.len(),
    ensures
        j == scan_end(s@, i as int, c),
        i <= j <= s@.len(),
{
    proof {
        lemma_scan_end_bounds(s@, i as int, c);
    }
    let mut j: usize = i;
    while j < s.len() && cls_has(c, s[j])
        invariant
            i <= j <= s@.len(),
            scan_end(s@, i as int, c) == scan_end(s@, j as int, c),
        decreases s@.len() - j,
    {
        j += 1;
    }
    j
}

/// Length of a well-formed multi-byte UTF-8 scalar encoding starting at `i`,
/// or `0` when the bytes at `i` do not begin one (single-byte scalars also
/// yield `0`; they are handled by the ASCII classes).
pub open spec fn utf8_unit_len(s: Seq<u8>, i: int) -> int {
    let t = s.subrange(i, s.len() as int);
    if 0 <= i <= s.len() && valid_first_scalar(t) && length_of_first_scalar(t) >= 2 {
        length_of_first_scalar(t)
    } else {
        0
    }
}

/// Exec twin of [`utf8_unit_len`]: recognise one multi-byte UTF-8 scalar.
pub fn utf8_unit(s: &[u8], i: usize) -> (l: usize)
    requires
        i <= s@.len(),
    ensures
        l == utf8_unit_len(s@, i as int),
        i + l <= s@.len(),
{
    let ghost t = s@.subrange(i as int, s@.len() as int);
    proof {
        assert forall|k: int| 0 <= k < t.len() implies t[k] == s@[i + k] by {}
    }
    let n = s.len();
    if i >= n {
        return 0;
    }
    assert(t[0] == s@[i as int]);
    let b0 = s[i];
    if b0 < 0xc0 {
        proof {
            if b0 < 0x80 {
                assert((b0 & 0x7f) <= 0x7f) by (bit_vector);
            }
        }
        0
    } else if b0 <= 0xdf {
        if n - i >= 2 && 0x80 <= s[i + 1] && s[i + 1] <= 0xbf {
            assert(t[1] == s@[i + 1]);
            let b1 = s[i + 1];
            let cp: u32 = (((b0 & 0x1f) as u32) << 6u32) | ((b1 & 0x3f) as u32);
            proof {
                assert((((b0 & 0x1f) as u32) << 6u32) | ((b1 & 0x3f) as u32) <= 0x7ff)
                    by (bit_vector);
            }
            assert(cp == decode_first_codepoint(t));
            if cp >= 0x80 {
                2
            } else {
                0
            }
        } else {
            0
        }
    } else if b0 <= 0xef {
        if n - i >= 3 && 0x80 <= s[i + 1] && s[i + 1] <= 0xbf && 0x80 <= s[i + 2] && s[i + 2]
            <= 0xbf {
            assert(t[1] == s@[i + 1]);
            assert(t[2] == s@[i + 2]);
            let cp: u32 = (((b0 & 0x0f) as u32) << 12u32) | (((s[i + 1] & 0x3f) as u32) << 6u32)
                | ((s[i + 2] & 0x3f) as u32);
            assert(cp == decode_first_codepoint(t));
            if cp >= 0x800 && !(0xd800 <= cp && cp <= 0xdfff) {
                3
            } else {
                0
            }
        } else {
            0
        }
    } else if b0 <= 0xf7 {
        if n - i >= 4 && 0x80 <= s[i + 1] && s[i + 1] <= 0xbf && 0x80 <= s[i + 2] && s[i + 2]
            <= 0xbf && 0x80 <= s[i + 3] && s[i + 3] <= 0xbf {
            assert(t[1] == s@[i + 1]);
            assert(t[2] == s@[i + 2]);
            assert(t[3] == s@[i + 3]);
            let cp: u32 = (((b0 & 0x07) as u32) << 18u32) | (((s[i + 1] & 0x3f) as u32) << 12u32)
                | (((s[i + 2] & 0x3f) as u32) << 6u32) | ((s[i + 3] & 0x3f) as u32);
            assert(cp == decode_first_codepoint(t));
            if 0x10000 <= cp && cp <= 0x10ffff {
                4
            } else {
                0
            }
        } else {
            0
        }
    } else {
        0
    }
}


/// Length of one accepted "text unit" at `i`: an ASCII byte of class `c`, a
/// well-formed multi-byte UTF-8 scalar when the policy is international
/// (`intl`), or — when `fb` allows the fallback — any other byte at or above
/// `0x80`, which decodes to the replacement character. `0` means no unit.
pub open spec fn unit_len(s: Seq<u8>, i: int, c: Cls, intl: bool, fb: bool) -> int {
    if i < 0 || i >= s.len() {
        0
    } else if s[i] < 0x80 {
        if cls_spec(c, s[i]) {
            1
        } else {
            0
        }
    } else if intl && utf8_unit_len(s, i) > 0 {
        utf8_unit_len(s, i)
    } else if fb {
        1
    } else {
        0
    }
}

/// The text one unit contributes: the byte itself, the UTF-8 bytes of the
/// scalar, or the replacement character for a fallback byte.
pub open spec fn unit_text(s: Seq<u8>, i: int, c: Cls, intl: bool, fb: bool) -> Seq<u8> {
    if i < 0 || i >= s.len() {
        seq![]
    } else if s[i] < 0x80 {
        seq![s[i]]
    } else if intl && utf8_unit_len(s, i) > 0 {
        s.subrange(i, i + utf8_unit_len(s, i))
    } else {
        fffd()
    }
}

/// End of the longest run of units starting at `i`.
pub open spec fn run_end(s: Seq<u8>, i: int, c: Cls, intl: bool, fb: bool) -> int
    decreases s.len() - i,
    when 0 <= i <= s.len()
{
    if unit_len(s, i, c, intl, fb) == 0 {
        i
    } else {
        run_end(s, i + unit_len(s, i, c, intl, fb), c, intl, fb)
    }
}

/// The text produced by the longest run of units starting at `i`.
pub open spec fn run_text(s: Seq<u8>, i: int, c: Cls, intl: bool, fb: bool) -> Seq<u8>
    decreases s.len() - i,
    when 0 <= i <= s.len()
{
    if unit_len(s, i, c, intl, fb) == 0 {
        seq![]
    } else {
        unit_text(s, i, c, intl, fb) + run_text(
            s,
            i + unit_len(s, i, c, intl, fb),
            c,
            intl,
            fb,
        )
    }
}

/// Facts about [`run_end`]: the end of a run stays within bounds.
pub proof fn lemma_run_end_bounds_pub(s: Seq<u8>, i: int, c: Cls, intl: bool, fb: bool)
    requires
        0 <= i <= s.len(),
    ensures
        i <= run_end(s, i, c, intl, fb) <= s.len(),
{
    lemma_run_end_bounds(s, i, c, intl, fb);
}

proof fn lemma_run_end_bounds(s: Seq<u8>, i: int, c: Cls, intl: bool, fb: bool)
    requires
        0 <= i <= s.len(),
    ensures
        i <= run_end(s, i, c, intl, fb) <= s.len(),
    decreases s.len() - i,
{
    if unit_len(s, i, c, intl, fb) != 0 {
        lemma_run_end_bounds(s, i + unit_len(s, i, c, intl, fb), c, intl, fb);
    }
}

/// Take one text unit at `i`, appending its text to `out`.
pub fn text_unit(s: &[u8], i: usize, c: Cls, intl: bool, fb: bool, out: &mut Vec<u8>) -> (l:
    usize)
    requires
        i <= s@.len(),
    ensures
        l == unit_len(s@, i as int, c, intl, fb),
        i + l <= s@.len(),
        l > 0 ==> final(out)@ == old(out)@ + unit_text(s@, i as int, c, intl, fb),
        l == 0 ==> final(out)@ == old(out)@,
{
    if i >= s.len() {
        return 0;
    }
    let b = s[i];
    if b < 0x80 {
        if cls_has(c, b) {
            out.push(b);
            assert(out@ =~= old(out)@ + unit_text(s@, i as int, c, intl, fb));
            1
        } else {
            0
        }
    } else {
        let ul = utf8_unit(s, i);
        if intl && ul > 0 {
            let mut k: usize = i;
            while k < i + ul
                invariant
                    i <= k <= i + ul,
                    i + ul <= s@.len(),
                    out@ == old(out)@ + s@.subrange(i as int, k as int),
                decreases i + ul - k,
            {
                out.push(s[k]);
                assert(out@ =~= old(out)@ + s@.subrange(i as int, k + 1));
                k += 1;
            }
            ul
        } else if fb {
            out.push(0xef);
            out.push(0xbf);
            out.push(0xbd);
            assert(out@ =~= old(out)@ + fffd());
            1
        } else {
            0
        }
    }
}

/// Take the longest run of text units starting at `i`, appending the text
/// they produce to `out`; returns where the run ends.
pub fn text_run(s: &[u8], i: usize, c: Cls, intl: bool, fb: bool, out: &mut Vec<u8>) -> (j:
    usize)
    requires
        i <= s@.len(),
    ensures
        j == run_end(s@, i as int, c, intl, fb),
        i <= j <= s@.len(),
        final(out)@ == old(out)@ + run_text(s@, i as int, c, intl, fb),
{
    let n = s.len();
    let mut j: usize = i;
    loop
        invariant
            n == s@.len(),
            i <= j <= s@.len(),
            run_end(s@, i as int, c, intl, fb) == run_end(s@, j as int, c, intl, fb),
            old(out)@ + run_text(s@, i as int, c, intl, fb) == out@ + run_text(
                s@,
                j as int,
                c,
                intl,
                fb,
            ),
        decreases s@.len() - j,
    {
        let ghost out_pre = out@;
        let l = text_unit(s, j, c, intl, fb, out);
        if l == 0 {
            break;
        }
        proof {
            assert(out@ + run_text(s@, j + l, c, intl, fb) =~= out_pre + run_text(
                s@,
                j as int,
                c,
                intl,
                fb,
            ));
        }
        assert(j + l <= s@.len());
        j += l;
    }
    proof {
        lemma_run_end_bounds(s@, j as int, c, intl, fb);
        assert(out@ =~= old(out)@ + run_text(s@, i as int, c, intl, fb));
    }
    j
}


/// Value of a sequence of ASCII decimal digits read as a base-10 number.
pub open spec fn dec_val(s: Seq<u8>) -> int
    decreases s.len(),
{
    if s.len() == 0 {
        0
    } else {
        dec_val(s.drop_last()) * 10 + (s.last() - 48)
    }
}

/// Powers of ten, as far as the digit runs of these grammars reach.
pub open spec fn pow10(n: int) -> int {
    if n <= 0 {
        1
    } else if n == 1 {
        10
    } else if n == 2 {
        100
    } else if n == 3 {
        1000
    } else if n == 4 {
        10000
    } else if n == 5 {
        100000
    } else if n == 6 {
        1000000
    } else if n == 7 {
        10000000
    } else {
        100000000
    }
}

proof fn lemma_dec_val_bound(s: Seq<u8>)
    requires
        s.len() <= 8,
        forall|k: int| 0 <= k < s.len() ==> cls_spec(Cls::Digit, #[trigger] s[k]),
    ensures
        0 <= dec_val(s) < pow10(s.len() as int),
    decreases s.len(),
{
    if s.len() > 0 {
        lemma_dec_val_bound(s.drop_last());
    }
}

/// Read the decimal value of the digit bytes `s[i..j]`.
pub fn dec_value(s: &[u8], i: usize, j: usize) -> (v: u32)
    requires
        i <= j <= s@.len(),
        j - i <= 8,
        forall|k: int| i <= k < j ==> cls_spec(Cls::Digit, #[trigger] s@[k]),
    ensures
        v == dec_val(s@.subrange(i as int, j as int)),
        v < 100000000,
{
    proof {
        lemma_dec_val_bound(s@.subrange(i as int, j as int));
    }
    let mut k: usize = i;
    let mut acc: u32 = 0;
    while k < j
        invariant
            i <= k <= j,
            acc == dec_val(s@.subrange(i as int, k as int)),
            acc < pow10(k - i),
            k - i <= 8,
        decreases j - k,
    {
        proof {
            lemma_dec_val_bound(s@.subrange(i as int, k as int));
            assert(s@.subrange(i as int, k + 1).drop_last() =~= s@.subrange(i as int, k as int));
            lemma_dec_val_bound(s@.subrange(i as int, k + 1));
        }
        acc = acc * 10 + (s[k] - 48) as u32;
        k += 1;
    }
    acc
}

/// Value of one hexadecimal digit byte.
pub open spec fn hex_val(b: u8) -> int {
    if 48 <= b <= 57 {
        b - 48
    } else if 65 <= b <= 70 {
        b - 55
    } else {
        b - 87
    }
}

/// Read the pair of hexadecimal digits at `i` as one byte.
pub fn hexpair(s: &[u8], i: usize) -> (r: Option<(usize, u8)>)
    requires
        i <= s@.len(),
    ensures
        r is Some <==> i + 2 <= s@.len() && cls_spec(Cls::HexDig, s@[i as int]) && cls_spec(
            Cls::HexDig,
            s@[i + 1],
        ),
        r matches Some((j, v)) ==> j == i + 2 && v == 16 * hex_val(s@[i as int]) + hex_val(
            s@[i + 1],
        ),
{
    if s.len() - i >= 2 && cls_has(Cls::HexDig, s[i]) && cls_has(Cls::HexDig, s[i + 1]) {
        let hi = hex_digit_value_pub(s[i]);
        let lo = hex_digit_value_pub(s[i + 1]);
        Some((i + 2, 16 * hi + lo))
    } else {
        None
    }
}

/// Exec twin of [`hex_val`] for bytes in the hexadecimal digit class.
pub fn hex_digit_value_pub(b: u8) -> (v: u8)
    requires
        cls_spec(Cls::HexDig, b),
    ensures
        v == hex_val(b),
        v < 16,
{
    if 48 <= b && b <= 57 {
        b - 48
    } else if 65 <= b && b <= 70 {
        b - 55
    } else {
        b - 87
    }
}

/// The text of one unit is always valid UTF-8.
pub proof fn lemma_unit_text_valid_pub(s: Seq<u8>, i: int, c: Cls, intl: bool, fb: bool)
    requires
        0 <= i <= s.len(),
        unit_len(s, i, c, intl, fb) > 0,
    ensures
        valid_utf8(unit_text(s, i, c, intl, fb)),
{
    let u = unit_text(s, i, c, intl, fb);
    if s[i] < 0x80 {
        let b = s[i];
        assert((b & 0x7f) == b) by (bit_vector)
            requires
                b < 0x80,
        ;
        assert(valid_first_scalar(u));
        assert(vstd::utf8::pop_first_scalar(u) =~= Seq::<u8>::empty());
        assert(valid_utf8(Seq::<u8>::empty()));
    } else if intl && utf8_unit_len(s, i) > 0 {
        let t = s.subrange(i, s.len() as int);
        let l = utf8_unit_len(s, i);
        assert(u =~= t.subrange(0, l));
        assert(u[0] == t[0]);
        assert(forall|k: int| 0 <= k < l ==> u[k] == t[k]);
        assert(valid_leading_and_continuation_bytes_first_codepoint(u));
        assert(decode_first_codepoint(u) == decode_first_codepoint(t));
        assert(valid_first_scalar(u));
        assert(length_of_first_scalar(u) == l);
        assert(vstd::utf8::pop_first_scalar(u) =~= Seq::<u8>::empty());
        assert(valid_utf8(Seq::<u8>::empty()));
    } else {
        assert(u == fffd());
        assert(u[0] == 0xef && u[1] == 0xbf && u[2] == 0xbd);
        assert((0xefu8 & 0x0f) == 0x0f) by (bit_vector);
        assert((0xbfu8 & 0x3f) == 0x3f) by (bit_vector);
        assert((0xbdu8 & 0x3f) == 0x3d) by (bit_vector);
        assert(((0x0fu32 << 12) | (0x3fu32 << 6) | 0x3du32) == 0xfffd) by (bit_vector);
        assert(decode_first_codepoint(u) == 0xfffd);
        assert(valid_first_scalar(u));
        assert(length_of_first_scalar(u) == 3);
        assert(vstd::utf8::pop_first_scalar(u) =~= Seq::<u8>::empty());
        assert(valid_utf8(Seq::<u8>::empty()));
    }
}

/// The text of a run of units is always valid UTF-8.
pub proof fn lemma_run_text_valid(s: Seq<u8>, i: int, c: Cls, intl: bool, fb: bool)
    requires
        0 <= i <= s.len(),
    ensures
        valid_utf8(run_text(s, i, c, intl, fb)),
    decreases s.len() - i,
{
    broadcast use vstd::utf8::valid_utf8_concat;

    if unit_len(s, i, c, intl, fb) == 0 {
        assert(valid_utf8(Seq::<u8>::empty()));
    } else {
        lemma_unit_text_valid_pub(s, i, c, intl, fb);
        lemma_run_text_valid(s, i + unit_len(s, i, c, intl, fb), c, intl, fb);
    }
}

/// Relies on String::from_utf8: a vector holding valid UTF-8 becomes the
/// string of exactly those bytes, decoded.
#[verifier::external_body]
pub fn string_from_utf8(v: Vec<u8>) -> (r: String)
    requires
        valid_utf8(v@),
    ensures
        r@ == decode_utf8(v@),
{
    match String::from_utf8(v) {
        Ok(s) => s,
        Err(_) => String::new(),
    }
}

/// Whether `b1` may follow the three-byte leading byte `b0`: the range that
/// excludes overlong encodings and surrogates.
pub open spec fn second_byte_ok_3(b0: u8, b1: u8) -> bool {
    if b0 == 0xe0 {
        0xa0 <= b1 <= 0xbf
    } else if b0 == 0xed {
        0x80 <= b1 <= 0x9f
    } else {
        0x80 <= b1 <= 0xbf
    }
}

/// Whether `b1` may follow the four-byte leading byte `b0`: the range that
/// excludes overlong encodings and values past the last Unicode scalar.
pub open spec fn second_byte_ok_4(b0: u8, b1: u8) -> bool {
    if b0 == 0xf0 {
        0x90 <= b1 <= 0xbf
    } else if b0 == 0xf4 {
        0x80 <= b1 <= 0x8f
    } else {
        0x80 <= b1 <= 0xbf
    }
}

/// How many bytes the lenient decoder consumes for one replacement character
/// at an ill-formed position: the maximal well-formed prefix of a longer
/// encoding, exactly as std's lossy decoding substitutes maximal invalid
/// subsequences.
#[verifier::opaque]
pub open spec fn invalid_skip(s: Seq<u8>, i: int) -> int {
    let b0 = s[i];
    if 0xe0 <= b0 <= 0xef {
        if i + 1 < s.len() && second_byte_ok_3(b0, s[i + 1]) {
            2
        } else {
            1
        }
    } else if 0xf0 <= b0 <= 0xf4 {
        if i + 1 < s.len() && second_byte_ok_4(b0, s[i + 1]) {
            if i + 2 < s.len() && 0x80 <= s[i + 2] <= 0xbf {
                3
            } else {
                2
            }
        } else {
            1
        }
    } else {
        1
    }
}

/// The bytes produced by decoding `s` leniently from `i`: ASCII bytes and
/// well-formed UTF-8 sequences pass through; each maximal invalid
/// subsequence becomes one replacement character.
pub open spec fn lossy_from(s: Seq<u8>, i: int) -> Seq<u8>
    decreases s.len() - i,
    when 0 <= i <= s.len() via lossy_from_dec
{
    if i >= s.len() {
        seq![]
    } else if s[i] < 0x80 {
        seq![s[i]] + lossy_from(s, i + 1)
    } else if utf8_unit_len(s, i) > 0 {
        s.subrange(i, i + utf8_unit_len(s, i)) + lossy_from(s, i + utf8_unit_len(s, i))
    } else {
        fffd() + lossy_from(s, i + invalid_skip(s, i))
    }
}

#[via_fn]
proof fn lossy_from_dec(s: Seq<u8>, i: int) {
    reveal(invalid_skip);
}

/// The bytes produced by decoding `s` leniently from the start.
pub open spec fn lossy_text(s: Seq<u8>) -> Seq<u8> {
    lossy_from(s, 0)
}

proof fn lemma_lossy_from_valid(s: Seq<u8>, i: int)
    requires
        0 <= i <= s.len(),
    ensures
        valid_utf8(lossy_from(s, i)),
    decreases s.len() - i,
{
    broadcast use vstd::utf8::valid_utf8_concat;

    if i >= s.len() {
        assert(valid_utf8(Seq::<u8>::empty()));
    } else if s[i] < 0x80 {
        lemma_ascii_seq_valid(seq![s[i]]);
        lemma_lossy_from_valid(s, i + 1);
    } else if utf8_unit_len(s, i) > 0 {
        lemma_unit_text_valid_pub(s, i, Cls::AnyAscii, true, false);
        assert(unit_text(s, i, Cls::AnyAscii, true, false) == s.subrange(
            i,
            i + utf8_unit_len(s, i),
        ));
        lemma_lossy_from_valid(s, i + utf8_unit_len(s, i));
    } else {
        reveal(invalid_skip);
        lemma_unit_text_valid_pub(s, i, Cls::AnyAscii, false, true);
        assert(unit_text(s, i, Cls::AnyAscii, false, true) == fffd());
        lemma_lossy_from_valid(s, i + invalid_skip(s, i));
    }
}

/// Exec twin of [`invalid_skip`].
fn invalid_skip_at(s: &[u8], i: usize) -> (l: usize)
    requires
        i < s@.len(),
        s@[i as int] >= 0x80,
    ensures
        l == invalid_skip(s@, i as int),
        1 <= l,
        i + l <= s@.len(),
{
    proof {
        reveal(invalid_skip);
    }
    let n = s.len();
    let b0 = s[i];
    if 0xe0 <= b0 && b0 <= 0xef {
        let ok1 = if b0 == 0xe0 {
            i + 1 < n && 0xa0 <= s[i + 1] && s[i + 1] <= 0xbf
        } else if b0 == 0xed {
            i + 1 < n && 0x80 <= s[i + 1] && s[i + 1] <= 0x9f
        } else {
            i + 1 < n && 0x80 <= s[i + 1] && s[i + 1] <= 0xbf
        };
        if ok1 {
            2
        } else {
            1
        }
    } else if 0xf0 <= b0 && b0 <= 0xf4 {
        let ok1 = if b0 == 0xf0 {
            i + 1 < n && 0x90 <= s[i + 1] && s[i + 1] <= 0xbf
        } else if b0 == 0xf4 {
            i + 1 < n && 0x80 <= s[i + 1] && s[i + 1] <= 0x8f
        } else {
            i + 1 < n && 0x80 <= s[i + 1] && s[i + 1] <= 0xbf
        };
        if ok1 {
            if i + 2 < n && 0x80 <= s[i + 2] && s[i + 2] <= 0xbf {
                3
            } else {
                2
            }
        } else {
            1
        }
    } else {
        1
    }
}

/// Decode arbitrary bytes to text, replacing each maximal invalid UTF-8
/// subsequence with one replacement character.
pub fn ascii_to_string(input: &[u8]) -> (r: String)
    ensures
        r@ == decode_utf8(lossy_text(input@)),
{
    let n = input.len();
    let mut out: Vec<u8> = Vec::new();
    let mut p: usize = 0;
    while p < n
        invariant
            n == input@.len(),
            0 <= p <= n,
            lossy_from(input@, 0) == out@ + lossy_from(input@, p as int),
        decreases n - p,
    {
        let ghost out_pre = out@;
        let b = input[p];
        let l: usize;
        if b < 0x80 {
            out.push(b);
            l = 1;
            proof {
                assert(out@ =~= out_pre + seq![input@[p as int]]);
            }
        } else {
            let ul = utf8_unit(input, p);
            if ul > 0 {
                let mut k: usize = p;
                while k < p + ul
                    invariant
                        p <= k <= p + ul,
                        p + ul <= n == input@.len(),
                        out@ == out_pre + input@.subrange(p as int, k as int),
                    decreases p + ul - k,
                {
                    out.push(input[k]);
                    assert(out@ =~= out_pre + input@.subrange(p as int, k + 1));
                    k += 1;
                }
                l = ul;
            } else {
                out.push(0xef);
                out.push(0xbf);
                out.push(0xbd);
                proof {
                    assert(out@ =~= out_pre + fffd());
                }
                l = invalid_skip_at(input, p);
            }
        }
        proof {
            assert(out@ + lossy_from(input@, p + l) =~= out_pre + lossy_from(
                input@,
                p as int,
            ));
        }
        p += l;
    }
    proof {
        lemma_lossy_from_valid(input@, 0);
        assert(out@ =~= lossy_from(input@, 0));
    }
    string_from_utf8(out)
}

/// Owned-vector form of [`ascii_to_string`].
pub fn ascii_to_string_vec(i: Vec<u8>) -> (r: String)
    ensures
        r@ == decode_utf8(lossy_text(i@)),
{
    ascii_to_string(i.as_slice())
}

/// The bytes produced by decoding `s` as ASCII only: every byte at or above
/// `0x80` becomes the replacement character.
pub open spec fn ascii_text(s: Seq<u8>) -> Seq<u8> {
    run_text(s, 0, Cls::AnyAscii, false, true)
}

proof fn lemma_ascii_consumes_all(s: Seq<u8>, i: int)
    requires
        0 <= i <= s.len(),
    ensures
        run_end(s, i, Cls::AnyAscii, false, true) == s.len(),
    decreases s.len() - i,
{
    if unit_len(s, i, Cls::AnyAscii, false, true) != 0 {
        lemma_ascii_consumes_all(s, i + unit_len(s, i, Cls::AnyAscii, false, true));
    }
}

/// Decode bytes as ASCII, replacing every byte at or above `0x80` with the
/// replacement character.
pub fn ascii_only_string(i: &[u8]) -> (r: String)
    ensures
        r@ == decode_utf8(ascii_text(i@)),
{
    let mut out: Vec<u8> = Vec::new();
    let _j = text_run(i, 0, Cls::AnyAscii, false, true, &mut out);
    proof {
        lemma_run_text_valid(i@, 0, Cls::AnyAscii, false, true);
    }
    string_from_utf8(out)
}


/// A unit fits inside the input: its length never runs past the end.
pub proof fn lemma_unit_len_bound(s: Seq<u8>, i: int, c: Cls, intl: bool, fb: bool)
    requires
        0 <= i <= s.len(),
    ensures
        0 <= unit_len(s, i, c, intl, fb),
        i + unit_len(s, i, c, intl, fb) <= s.len(),
        unit_len(s, i, c, intl, fb) == 0 ==> run_end(s, i, c, intl, fb) == i,
        unit_len(s, i, c, intl, fb) > 0 ==> run_end(s, i, c, intl, fb) > i,
{
    lemma_run_end_bounds(s, i, c, intl, fb);
    let l = unit_len(s, i, c, intl, fb);
    if l > 0 {
        lemma_run_end_bounds(s, i + l, c, intl, fb);
    }
}

/// Without the 8-bit fallback, the text of a run is exactly the bytes it
/// consumed.
pub proof fn lemma_run_raw(s: Seq<u8>, i: int, c: Cls, intl: bool)
    requires
        0 <= i <= s.len(),
    ensures
        run_text(s, i, c, intl, false) =~= s.subrange(i, run_end(s, i, c, intl, false)),
    decreases s.len() - i,
{
    lemma_run_end_bounds(s, i, c, intl, false);
    let l = unit_len(s, i, c, intl, false);
    if l != 0 {
        lemma_run_end_bounds(s, i + l, c, intl, false);
        lemma_run_raw(s, i + l, c, intl);
        assert(unit_text(s, i, c, intl, false) =~= s.subrange(i, i + l));
        assert(s.subrange(i, run_end(s, i, c, intl, false)) =~= s.subrange(i, i + l)
            + s.subrange(i + l, run_end(s, i + l, c, intl, false)));
    }
}

/// A sequence of plain ASCII bytes is valid UTF-8.
pub proof fn lemma_ascii_seq_valid(s: Seq<u8>)
    requires
        forall|k: int| 0 <= k < s.len() ==> s[k] < 0x80,
    ensures
        valid_utf8(s),
    decreases s.len(),
{
    if s.len() > 0 {
        let b = s[0];
        assert((b & 0x7f) == b) by (bit_vector)
            requires
                b < 0x80,
        ;
        assert(valid_first_scalar(s));
        assert(length_of_first_scalar(s) == 1);
        lemma_ascii_seq_valid(s.subrange(1, s.len() as int));
        assert(vstd::utf8::pop_first_scalar(s) =~= s.subrange(1, s.len() as int));
    }
}

} // verus!

//! Parsers for Internet Message Format messages (RFC 5322).
//!
//! Comments are ignored in structural results; RFC 2047 encoded words are
//! decoded where the grammar calls for it.  Every primitive is parameterized
//! by the UTF-8 policy of [`crate::behaviour`].

use vstd::prelude::*;
use vstd::utf8::decode_utf8;
use vstd::utf8::valid_utf8;

use crate::behaviour::UTF8Policy;
use crate::util::Cls;
use crate::util::ParseError;
use crate::util::ParseResult;
use crate::util::cls_spec;
use crate::util::run_end;
use crate::util::run_text;
use crate::util::scan;
use crate::util::scan_end;
use crate::util::string_from_utf8;
use crate::util::sub_vec;
use crate::util::tail_vec;
use crate::util::text_run;
use crate::util::text_unit;
use crate::util::unit_len;
use crate::util::unit_text;

verus! {

/// A CRLF pair sits at position `i` of `s`.
pub open spec fn crlf_at(s: Seq<u8>, i: int) -> bool {
    0 <= i && i + 2 <= s.len() && s[i] == 13 && s[i + 1] == 10
}

/// End of folding whitespace starting at `i`, when there is any: an optional
/// run of whitespace and a CRLF, then at least one byte of whitespace.
pub open spec fn fws_end(s: Seq<u8>, i: int) -> Option<int> {
    let a = scan_end(s, i, Cls::Wsp);
    if crlf_at(s, a) {
        let e = scan_end(s, a + 2, Cls::Wsp);
        if e > a + 2 {
            Some(e)
        } else {
            None
        }
    } else {
        if a > i {
            Some(a)
        } else {
            None
        }
    }
}

/// The text folding whitespace contributes: the whitespace with the CRLF
/// dropped, the CRLF being semantically invisible.
pub open spec fn fws_text(s: Seq<u8>, i: int) -> Seq<u8> {
    let a = scan_end(s, i, Cls::Wsp);
    if crlf_at(s, a) {
        s.subrange(i, a) + s.subrange(a + 2, scan_end(s, a + 2, Cls::Wsp))
    } else {
        s.subrange(i, a)
    }
}

/// End of optional folding whitespace: where folding whitespace ends, or `i`
/// itself when there is none.
pub open spec fn ofws_end(s: Seq<u8>, i: int) -> int {
    match fws_end(s, i) {
        Some(e) => e,
        None => i,
    }
}

/// The text optional folding whitespace contributes.
pub open spec fn ofws_text(s: Seq<u8>, i: int) -> Seq<u8> {
    match fws_end(s, i) {
        Some(e) => fws_text(s, i),
        None => seq![],
    }
}

proof fn lemma_fws_bounds(s: Seq<u8>, i: int)
    requires
        0 <= i <= s.len(),
    ensures
        i <= ofws_end(s, i) <= s.len(),
        fws_end(s, i) matches Some(e) ==> i < e <= s.len(),
{
    crate::util::lemma_scan_end_pub(s, i, Cls::Wsp);
    let a = scan_end(s, i, Cls::Wsp);
    if crlf_at(s, a) {
        crate::util::lemma_scan_end_pub(s, a + 2, Cls::Wsp);
    }
}

proof fn lemma_fws_text_valid(s: Seq<u8>, i: int)
    requires
        0 <= i <= s.len(),
    ensures
        valid_utf8(fws_text(s, i)),
        valid_utf8(ofws_text(s, i)),
        forall|k: int| 0 <= k < fws_text(s, i).len() ==> fws_text(s, i)[k] < 0x80,
{
    crate::util::lemma_scan_end_pub(s, i, Cls::Wsp);
    let a = scan_end(s, i, Cls::Wsp);
    if crlf_at(s, a) {
        crate::util::lemma_scan_end_pub(s, a + 2, Cls::Wsp);
    }
    crate::util::lemma_ascii_seq_valid(fws_text(s, i));
    crate::util::lemma_ascii_seq_valid(Seq::<u8>::empty());
    if fws_end(s, i) is Some {
    } else {
        assert(ofws_text(s, i) =~= Seq::<u8>::empty());
    }
}

/// Parse folding whitespace at `i`, appending its text to `out`.
fn fws(s: &[u8], i: usize, out: &mut Vec<u8>) -> (r: Option<usize>)
    requires
        i <= s@.len(),
    ensures
        match r {
            Some(e) => fws_end(s@, i as int) == Some(e as int) && i < e <= s@.len()
                && final(out)@ == old(out)@ + fws_text(s@, i as int),
            None => fws_end(s@, i as int) is None && final(out)@ == old(out)@,
        },
{
    proof {
        lemma_fws_bounds(s@, i as int);
        crate::util::lemma_scan_end_pub(s@, i as int, Cls::Wsp);
    }
    let n = s.len();
    let a = scan(s, i, Cls::Wsp);
    if n - a >= 2 && s[a] == 13 && s[a + 1] == 10 {
        proof {
            crate::util::lemma_scan_end_pub(s@, a + 2, Cls::Wsp);
        }
        let e = scan(s, a + 2, Cls::Wsp);
        if e > a + 2 {
            let mut k: usize = i;
            while k < a
                invariant
                    i <= k <= a <= s@.len(),
                    out@ == old(out)@ + s@.subrange(i as int, k as int),
                decreases a - k,
            {
                out.push(s[k]);
                assert(out@ =~= old(out)@ + s@.subrange(i as int, k + 1));
                k += 1;
            }
            let ghost mid = out@;
            let mut k2: usize = a + 2;
            while k2 < e
                invariant
                    a + 2 <= k2 <= e <= s@.len(),
                    out@ == mid + s@.subrange(a + 2, k2 as int),
                decreases e - k2,
            {
                out.push(s[k2]);
                assert(out@ =~= mid + s@.subrange(a + 2, k2 + 1));
                k2 += 1;
            }
            proof {
                assert(out@ =~= old(out)@ + fws_text(s@, i as int));
            }
            Some(e)
        } else {
            None
        }
    } else {
        if a > i {
            let mut k: usize = i;
            while k < a
                invariant
                    i <= k <= a <= s@.len(),
                    out@ == old(out)@ + s@.subrange(i as int, k as int),
                decreases a - k,
            {
                out.push(s[k]);
                assert(out@ =~= old(out)@ + s@.subrange(i as int, k + 1));
                k += 1;
            }
            proof {
                assert(out@ =~= old(out)@ + fws_text(s@, i as int));
            }
            Some(a)
        } else {
            None
        }
    }
}

/// Facts about folding whitespace: it stays within bounds and advances when
/// it matches.
pub(crate) proof fn lemma_fws_bounds_pub(s: Seq<u8>, i: int)
    requires
        0 <= i <= s.len(),
    ensures
        i <= ofws_end(s, i) <= s.len(),
        fws_end(s, i) matches Some(e) ==> i < e <= s.len(),
{
    lemma_fws_bounds(s, i);
}

/// A quoted string's end lies strictly past its start and within the input.
pub(crate) proof fn lemma_qs_bounds_pub(s: Seq<u8>, i: int, intl: bool)
    requires
        0 <= i <= s.len(),
    ensures
        qs_end(s, i, intl) matches Some(e) ==> i < e <= s.len(),
{
    lemma_qs_bounds(s, i, intl);
}

/// Skip optional folding whitespace at `i`, appending its text to `out`.
pub(crate) fn ofws_pub(s: &[u8], i: usize, out: &mut Vec<u8>) -> (e: usize)
    requires
        i <= s@.len(),
    ensures
        e == ofws_end(s@, i as int),
        i <= e <= s@.len(),
        final(out)@ == old(out)@ + ofws_text(s@, i as int),
{
    ofws(s, i, out)
}

/// Parse optional folding whitespace at `i`, appending its text to `out`.
fn ofws(s: &[u8], i: usize, out: &mut Vec<u8>) -> (e: usize)
    requires
        i <= s@.len(),
    ensures
        e == ofws_end(s@, i as int),
        i <= e <= s@.len(),
        final(out)@ == old(out)@ + ofws_text(s@, i as int),
{
    proof {
        lemma_fws_bounds(s@, i as int);
    }
    match fws(s, i, out) {
        Some(e) => e,
        None => {
            proof {
                assert(out@ =~= old(out)@ + ofws_text(s@, i as int));
            }
            i
        },
    }
}

/// Length of a quoted pair at `p`: a backslash and the single character it
/// escapes (which under the international policy may be a multi-byte UTF-8
/// scalar).
pub open spec fn qpair_len(s: Seq<u8>, p: int, intl: bool) -> int {
    if 0 <= p < s.len() && s[p] == 92 && unit_len(s, p + 1, Cls::VcharWsp, intl, false) > 0 {
        1 + unit_len(s, p + 1, Cls::VcharWsp, intl, false)
    } else {
        0
    }
}

/// The text a quoted pair contributes: the escaped character alone.
pub open spec fn qpair_text(s: Seq<u8>, p: int, intl: bool) -> Seq<u8> {
    unit_text(s, p + 1, Cls::VcharWsp, intl, false)
}

/// One piece of a comment's content: a text run, or a nested comment.
#[derive(Debug, PartialEq, Eq)]
pub enum CommentContent {
    /// Adjacent literal text, folding whitespace and quoted pairs, coalesced
    /// into one run.
    Text(String),
    /// A nested comment.
    Comment(Vec<CommentContent>),
}

/// Specification-level form of a [`CommentContent`] piece.  A nested comment
/// is carried through whole.
pub enum CommentContentView {
    /// Mirror of [`CommentContent::Text`].
    Text(Seq<char>),
    /// Mirror of [`CommentContent::Comment`].
    Comment(Vec<CommentContent>),
}

impl View for CommentContent {
    type V = CommentContentView;

    open spec fn view(&self) -> CommentContentView {
        match self {
            CommentContent::Text(t) => CommentContentView::Text(t@),
            CommentContent::Comment(c) => CommentContentView::Comment(*c),
        }
    }
}

impl DeepView for CommentContent {
    type V = CommentContentView;

    open spec fn deep_view(&self) -> CommentContentView {
        self.view()
    }
}

/// What coalescing comment pieces from index `k` onward yields, given text
/// `acc` gathered so far and pieces `out` already emitted: adjacent text
/// pieces merge into one, empty text pieces vanish, nested comments pass
/// through.
pub open spec fn concat_comment_from(
    input: Seq<CommentContentView>,
    k: int,
    acc: Seq<char>,
    out: Seq<CommentContentView>,
) -> Seq<CommentContentView>
    decreases input.len() - k,
    when 0 <= k <= input.len()
{
    if k >= input.len() {
        if acc.len() > 0 {
            out.push(CommentContentView::Text(acc))
        } else {
            out
        }
    } else {
        match input[k] {
            CommentContentView::Text(t) => concat_comment_from(input, k + 1, acc + t, out),
            CommentContentView::Comment(c) => concat_comment_from(
                input,
                k + 1,
                Seq::empty(),
                (if acc.len() > 0 {
                    out.push(CommentContentView::Text(acc))
                } else {
                    out
                }).push(CommentContentView::Comment(c)),
            ),
        }
    }
}

/// Coalesce a comment's pieces: adjacent text runs become one, empty runs
/// disappear, nested comments stay in place.
pub fn concat_comment(input: Vec<CommentContent>) -> (r: Vec<CommentContent>)
    ensures
        r.deep_view() == concat_comment_from(input.deep_view(), 0, Seq::empty(), Seq::empty()),
{
    let ghost iv = input.deep_view();
    let mut rest = input;
    let mut out: Vec<CommentContent> = Vec::new();
    let mut acc: String = String::new();
    let ghost mut k: int = 0;
    proof {
        assert(out.deep_view() =~= Seq::<CommentContentView>::empty());
        assert(rest.deep_view() =~= iv.subrange(0, iv.len() as int));
    }
    while rest.len() > 0
        invariant
            0 <= k <= iv.len(),
            rest.deep_view() == iv.subrange(k, iv.len() as int),
            concat_comment_from(iv, 0, Seq::empty(), Seq::empty()) == concat_comment_from(
                iv,
                k,
                acc@,
                out.deep_view(),
            ),
        decreases rest@.len(),
    {
        let ghost rest_pre = rest.deep_view();
        let ghost restv = rest@;
        let item = rest.remove(0);
        proof {
            assert(item == restv[0]);
            assert(rest_pre[0] == restv[0].deep_view());
            assert(rest_pre[0] == iv[k]);
            assert(item.deep_view() == iv[k]);
            assert(rest@ =~= restv.subrange(1, restv.len() as int));
            assert forall|m: int| 0 <= m < rest.deep_view().len() implies rest.deep_view()[m]
                == iv.subrange(k + 1, iv.len() as int)[m] by {
                assert(rest@[m] == restv[m + 1]);
                assert(rest.deep_view()[m] == restv[m + 1].deep_view());
                assert(restv[m + 1].deep_view() == rest_pre[m + 1]);
            }
            assert(rest.deep_view() =~= iv.subrange(k + 1, iv.len() as int));
        }
        let ghost acc0 = acc@;
        let ghost out0 = out.deep_view();
        match item {
            CommentContent::Text(t) => {
                proof {
                    assert(iv[k] == CommentContentView::Text(t@));
                }
                acc.append(t.as_str());
                proof {
                    assert(0 <= k < iv.len());
                    assert(acc@ == acc0 + t@);
                    assert(out.deep_view() == out0);
                    assert(concat_comment_from(iv, k, acc0, out0) == concat_comment_from(
                        iv,
                        k + 1,
                        acc0 + t@,
                        out0,
                    ));
                    assert(concat_comment_from(iv, k, acc0, out0) == concat_comment_from(
                        iv,
                        k + 1,
                        acc@,
                        out.deep_view(),
                    ));
                }
            },
            CommentContent::Comment(c) => {
                let ghost cv = c;
                proof {
                    assert(iv[k] == CommentContentView::Comment(cv));
                }
                if !acc.as_str().is_empty() {
                    let done = acc;
                    acc = String::new();
                    out.push(CommentContent::Text(done));
                    proof {
                        assert(out.deep_view() =~= out0.push(CommentContentView::Text(acc0)));
                    }
                }
                let ghost out_mid = out.deep_view();
                let ghost outv_mid = out@;
                out.push(CommentContent::Comment(c));
                proof {
                    assert(out@ == outv_mid.push(CommentContent::Comment(cv)));
                    assert(out@[outv_mid.len() as int] == CommentContent::Comment(cv));
                    assert(out@[outv_mid.len() as int].deep_view() == CommentContentView::Comment(
                        cv,
                    ));
                    assert(forall|m: int|
                        0 <= m < outv_mid.len() ==> out@[m] == outv_mid[m]);
                    assert(out.deep_view() =~= out_mid.push(CommentContentView::Comment(cv)));
                    assert(acc@ =~= Seq::<char>::empty());
                    assert(concat_comment_from(iv, k, acc0, out0) == concat_comment_from(
                        iv,
                        k + 1,
                        acc@,
                        out.deep_view(),
                    ));
                }
            },
        }
        proof {
            k = k + 1;
        }
    }
    proof {
        assert(iv.subrange(k, iv.len() as int).len() == 0);
        assert(k == iv.len());
    }
    if !acc.as_str().is_empty() {
        let ghost out_pre = out.deep_view();
        let ghost acc_pre = acc@;
        out.push(CommentContent::Text(acc));
        proof {
            assert(out.deep_view() =~= out_pre.push(CommentContentView::Text(acc_pre)));
        }
    }
    out
}


/// Where a comment starting at `i` ends (one past its closing parenthesis),
/// or nothing when no well-formed comment starts there.
pub open spec fn comment_end(s: Seq<u8>, i: int, intl: bool) -> Option<int>
    decreases s.len() - i, 0int,
    when 0 <= i <= s.len()
{
    if i < s.len() && s[i] == 40 {
        citems_end(s, i + 1, intl)
    } else {
        None
    }
}

/// Where the remaining items of a comment end, scanning from `j`: text runs,
/// quoted pairs and nested comments, each preceded by optional folding
/// whitespace, until the closing parenthesis.
pub open spec fn citems_end(s: Seq<u8>, j: int, intl: bool) -> Option<int>
    decreases s.len() - j, 1int,
    when 0 <= j <= s.len() via citems_end_dec
{
    let f = ofws_end(s, j);
    if run_end(s, f, Cls::Ctext, intl, false) > f {
        citems_end(s, run_end(s, f, Cls::Ctext, intl, false), intl)
    } else if qpair_len(s, f, intl) > 0 {
        citems_end(s, f + qpair_len(s, f, intl), intl)
    } else if f < s.len() && s[f] == 40 {
        match comment_end(s, f, intl) {
            Some(e) => if f < e <= s.len() {
                citems_end(s, e, intl)
            } else {
                None
            },
            None => None,
        }
    } else if f < s.len() && s[f] == 41 {
        Some(f + 1)
    } else {
        None
    }
}

#[via_fn]
proof fn citems_end_dec(s: Seq<u8>, j: int, intl: bool) {
    lemma_fws_bounds(s, j);
    let f = ofws_end(s, j);
    crate::util::lemma_run_end_bounds_pub(s, f, Cls::Ctext, intl, false);
}

proof fn lemma_citems_bounds(s: Seq<u8>, j: int, intl: bool)
    requires
        0 <= j <= s.len(),
    ensures
        citems_end(s, j, intl) matches Some(e) ==> j < e <= s.len(),
        comment_end(s, j, intl) matches Some(e) ==> j < e <= s.len(),
    decreases s.len() - j, 2int,
{
    lemma_fws_bounds(s, j);
    let f = ofws_end(s, j);
    crate::util::lemma_run_end_bounds_pub(s, f, Cls::Ctext, intl, false);
    let r = run_end(s, f, Cls::Ctext, intl, false);
    if r > f {
        lemma_citems_bounds(s, r, intl);
    } else if qpair_len(s, f, intl) > 0 {
        lemma_citems_bounds(s, f + qpair_len(s, f, intl), intl);
    } else if f < s.len() && s[f] == 40 {
        match comment_end(s, f, intl) {
            Some(e) => {
                if f < e <= s.len() {
                    lemma_citems_bounds(s, e, intl);
                }
            },
            None => {},
        }
    }
    if j < s.len() && s[j] == 40 {
        lemma_citems_bounds(s, j + 1, intl);
    }
}

/// Parse a comment starting at `i`: a parenthesized run of text, quoted
/// pairs and nested comments.  Returns the position after the closing
/// parenthesis and the comment's coalesced content.
pub fn comment(s: &[u8], i: usize, intl: bool) -> (r: Option<(usize, Vec<CommentContent>)>)
    requires
        i <= s@.len(),
    ensures
        r is Some <==> comment_end(s@, i as int, intl) is Some,
        r matches Some((e, _)) ==> comment_end(s@, i as int, intl) == Some(e as int) && i < e
            <= s@.len(),
    decreases s@.len() - i,
{
    proof {
        lemma_citems_bounds(s@, i as int, intl);
    }
    let n = s.len();
    if !(i < n && s[i] == 40) {
        return None;
    }
    let mut pieces: Vec<CommentContent> = Vec::new();
    let mut j: usize = i + 1;
    loop
        invariant
            i + 1 <= j <= n == s@.len(),
            citems_end(s@, i + 1, intl) == citems_end(s@, j as int, intl),
        decreases s@.len() - j,
    {
        proof {
            lemma_citems_bounds(s@, j as int, intl);
            lemma_fws_bounds(s@, j as int);
        }
        let mut fws_buf: Vec<u8> = Vec::new();
        let f = ofws(s, j, &mut fws_buf);
        if fws_buf.len() > 0 {
            proof {
                lemma_fws_text_valid(s@, j as int);
            }
            pieces.push(CommentContent::Text(string_from_utf8(fws_buf)));
        }
        let mut text_buf: Vec<u8> = Vec::new();
        let e1 = text_run(s, f, Cls::Ctext, intl, false, &mut text_buf);
        if e1 > f {
            proof {
                crate::util::lemma_run_text_valid(s@, f as int, Cls::Ctext, intl, false);
            }
            pieces.push(CommentContent::Text(string_from_utf8(text_buf)));
            j = e1;
        } else if f < n && s[f] == 92 {
            let mut qp_buf: Vec<u8> = Vec::new();
            let l = text_unit(s, f + 1, Cls::VcharWsp, intl, false, &mut qp_buf);
            if l > 0 {
                proof {
                    crate::util::lemma_unit_text_valid_pub(
                        s@,
                        f + 1,
                        Cls::VcharWsp,
                        intl,
                        false,
                    );
                }
                pieces.push(CommentContent::Text(string_from_utf8(qp_buf)));
                j = f + 1 + l;
            } else {
                return None;
            }
        } else if f < n && s[f] == 40 {
            match comment(s, f, intl) {
                Some((e, inner)) => {
                    pieces.push(CommentContent::Comment(inner));
                    j = e;
                },
                None => {
                    return None;
                },
            }
        } else if f < n && s[f] == 41 {
            return Some((f + 1, concat_comment(pieces)));
        } else {
            return None;
        }
    }
}

/// Where a run of comments and folding whitespace starting at `i` ends, or
/// nothing when neither a comment nor folding whitespace starts there.
pub open spec fn cfws_end(s: Seq<u8>, i: int, intl: bool) -> Option<int>
    decreases s.len() - i, 3int,
    when 0 <= i <= s.len()
{
    let f = ofws_end(s, i);
    match comment_end(s, f, intl) {
        Some(e) => if f < e <= s.len() {
            Some(cfws_tail(s, e, intl))
        } else {
            None
        },
        None => fws_end(s, i),
    }
}

/// After one comment, keep consuming further comments, each preceded by
/// optional folding whitespace, then trailing optional folding whitespace.
pub open spec fn cfws_tail(s: Seq<u8>, p: int, intl: bool) -> int
    decreases s.len() - p, 3int,
    when 0 <= p <= s.len() via cfws_tail_dec
{
    let f = ofws_end(s, p);
    match comment_end(s, f, intl) {
        Some(e) => if f < e <= s.len() {
            cfws_tail(s, e, intl)
        } else {
            f
        },
        None => f,
    }
}

#[via_fn]
proof fn cfws_tail_dec(s: Seq<u8>, p: int, intl: bool) {
    lemma_fws_bounds(s, p);
}

proof fn lemma_cfws_bounds(s: Seq<u8>, i: int, intl: bool)
    requires
        0 <= i <= s.len(),
    ensures
        cfws_end(s, i, intl) matches Some(e) ==> i < e <= s.len(),
        i <= ocfws_end(s, i, intl) <= s.len(),
{
    lemma_fws_bounds(s, i);
    let f = ofws_end(s, i);
    lemma_citems_bounds(s, f, intl);
    match comment_end(s, f, intl) {
        Some(e) => {
            if f < e <= s.len() {
                lemma_cfws_tail_bounds(s, e, intl);
            }
        },
        None => {},
    }
}

proof fn lemma_cfws_tail_bounds(s: Seq<u8>, p: int, intl: bool)
    requires
        0 <= p <= s.len(),
    ensures
        p <= cfws_tail(s, p, intl) <= s.len(),
    decreases s.len() - p,
{
    lemma_fws_bounds(s, p);
    let f = ofws_end(s, p);
    lemma_citems_bounds(s, f, intl);
    match comment_end(s, f, intl) {
        Some(e) => {
            if f < e <= s.len() {
                lemma_cfws_tail_bounds(s, e, intl);
            }
        },
        None => {},
    }
}

/// Where optional comments-and-folding-whitespace ends: the end of the run,
/// or `i` itself when there is none.
pub open spec fn ocfws_end(s: Seq<u8>, i: int, intl: bool) -> int {
    match cfws_end(s, i, intl) {
        Some(e) => e,
        None => i,
    }
}

/// Skip optional comments and folding whitespace starting at `i`.
pub fn ocfws(s: &[u8], i: usize, intl: bool) -> (e: usize)
    requires
        i <= s@.len(),
    ensures
        e == ocfws_end(s@, i as int, intl),
        i <= e <= s@.len(),
{
    proof {
        lemma_cfws_bounds(s@, i as int, intl);
    }
    let mut scratch: Vec<u8> = Vec::new();
    let f = ofws(s, i, &mut scratch);
    match comment(s, f, intl) {
        Some((e1, _)) => {
            let mut p: usize = e1;
            loop
                invariant
                    i <= p <= s@.len(),
                    cfws_tail(s@, e1 as int, intl) == cfws_tail(s@, p as int, intl),
                decreases s@.len() - p,
            {
                proof {
                    lemma_fws_bounds(s@, p as int);
                    lemma_cfws_tail_bounds(s@, p as int, intl);
                }
                let mut scratch2: Vec<u8> = Vec::new();
                let f2 = ofws(s, p, &mut scratch2);
                match comment(s, f2, intl) {
                    Some((e2, _)) => {
                        p = e2;
                    },
                    None => {
                        return f2;
                    },
                }
            }
        },
        None => {
            match fws(s, i, &mut scratch) {
                Some(e) => e,
                None => i,
            }
        },
    }
}


/// Where the inside of a quoted string ends, scanning from `p` (just after
/// the opening quote): optional folding whitespace between units, quoted
/// pairs and quoted-string text, up to one past the closing quote.
pub open spec fn qsi_end(s: Seq<u8>, p: int, intl: bool) -> Option<int>
    decreases s.len() - p,
    when 0 <= p <= s.len() via qsi_end_dec
{
    let f = ofws_end(s, p);
    if qpair_len(s, f, intl) > 0 {
        qsi_end(s, f + qpair_len(s, f, intl), intl)
    } else if unit_len(s, f, Cls::Qtext, intl, true) > 0 {
        qsi_end(s, f + unit_len(s, f, Cls::Qtext, intl, true), intl)
    } else if f < s.len() && s[f] == 34 {
        Some(f + 1)
    } else {
        None
    }
}

#[via_fn]
proof fn qsi_end_dec(s: Seq<u8>, p: int, intl: bool) {
    lemma_fws_bounds(s, p);
}

/// The text the inside of a quoted string decodes to: folding whitespace
/// with its line breaks dropped, escaped characters unescaped, and 8-bit
/// bytes that fit no accepted form replaced.
pub open spec fn qsi_text(s: Seq<u8>, p: int, intl: bool) -> Seq<u8>
    decreases s.len() - p,
    when 0 <= p <= s.len() via qsi_text_dec
{
    let f = ofws_end(s, p);
    if qpair_len(s, f, intl) > 0 {
        ofws_text(s, p) + qpair_text(s, f, intl) + qsi_text(s, f + qpair_len(s, f, intl), intl)
    } else if unit_len(s, f, Cls::Qtext, intl, true) > 0 {
        ofws_text(s, p) + unit_text(s, f, Cls::Qtext, intl, true) + qsi_text(
            s,
            f + unit_len(s, f, Cls::Qtext, intl, true),
            intl,
        )
    } else {
        ofws_text(s, p)
    }
}

#[via_fn]
proof fn qsi_text_dec(s: Seq<u8>, p: int, intl: bool) {
    lemma_fws_bounds(s, p);
}

proof fn lemma_qsi_bounds(s: Seq<u8>, p: int, intl: bool)
    requires
        0 <= p <= s.len(),
    ensures
        qsi_end(s, p, intl) matches Some(e) ==> p < e <= s.len(),
        valid_utf8(qsi_text(s, p, intl)),
    decreases s.len() - p,
{
    broadcast use vstd::utf8::valid_utf8_concat;

    lemma_fws_bounds(s, p);
    lemma_fws_text_valid(s, p);
    let f = ofws_end(s, p);
    if qpair_len(s, f, intl) > 0 {
        crate::util::lemma_unit_text_valid_pub(s, f + 1, Cls::VcharWsp, intl, false);
        lemma_qsi_bounds(s, f + qpair_len(s, f, intl), intl);
        vstd::utf8::valid_utf8_concat(ofws_text(s, p), qpair_text(s, f, intl));
        vstd::utf8::valid_utf8_concat(
            ofws_text(s, p) + qpair_text(s, f, intl),
            qsi_text(s, f + qpair_len(s, f, intl), intl),
        );
    } else if unit_len(s, f, Cls::Qtext, intl, true) > 0 {
        crate::util::lemma_unit_text_valid_pub(s, f, Cls::Qtext, intl, true);
        lemma_qsi_bounds(s, f + unit_len(s, f, Cls::Qtext, intl, true), intl);
        vstd::utf8::valid_utf8_concat(ofws_text(s, p), unit_text(s, f, Cls::Qtext, intl, true));
        vstd::utf8::valid_utf8_concat(
            ofws_text(s, p) + unit_text(s, f, Cls::Qtext, intl, true),
            qsi_text(s, f + unit_len(s, f, Cls::Qtext, intl, true), intl),
        );
    }
}

/// Where a quoted string starting at `i` ends (optional surrounding comments
/// and folding whitespace included), or nothing when no quoted string starts
/// there.
pub open spec fn qs_end(s: Seq<u8>, i: int, intl: bool) -> Option<int> {
    let a = ocfws_end(s, i, intl);
    if a < s.len() && s[a] == 34 {
        match qsi_end(s, a + 1, intl) {
            Some(e) => if e <= s.len() {
                Some(ocfws_end(s, e, intl))
            } else {
                None
            },
            None => None,
        }
    } else {
        None
    }
}

/// The text of the quoted string starting at `i`.
pub open spec fn qs_text(s: Seq<u8>, i: int, intl: bool) -> Seq<u8> {
    qsi_text(s, ocfws_end(s, i, intl) + 1, intl)
}

/// Parse a quoted string at `i`: its end and its decoded text.
#[verifier::rlimit(100)]
pub fn quoted_string_at(s: &[u8], i: usize, intl: bool) -> (r: Option<(usize, Vec<u8>)>)
    requires
        i <= s@.len(),
    ensures
        r is Some <==> qs_end(s@, i as int, intl) is Some,
        r matches Some((e, v)) ==> qs_end(s@, i as int, intl) == Some(e as int) && i <= e
            <= s@.len() && v@ == qs_text(s@, i as int, intl) && valid_utf8(v@),
{
    proof {
        lemma_cfws_bounds(s@, i as int, intl);
    }
    let n = s.len();
    let a = ocfws(s, i, intl);
    if !(a < n && s[a] == 34) {
        return None;
    }
    proof {
        lemma_qsi_bounds(s@, a + 1, intl);
    }
    let mut text: Vec<u8> = Vec::new();
    let mut p: usize = a + 1;
    loop
        invariant
            a + 1 <= p <= n == s@.len(),
            qsi_end(s@, a + 1, intl) == qsi_end(s@, p as int, intl),
            qsi_text(s@, a + 1, intl) == text@ + qsi_text(s@, p as int, intl),
        decreases n - p,
    {
        proof {
            lemma_fws_bounds(s@, p as int);
            lemma_qsi_bounds(s@, p as int, intl);
        }
        let ghost text_pre = text@;
        let f = ofws(s, p, &mut text);
        if f < n && s[f] == 92 {
            let l = text_unit(s, f + 1, Cls::VcharWsp, intl, false, &mut text);
            if l > 0 {
                proof {
                    assert(text@ =~= text_pre + (ofws_text(s@, p as int) + qpair_text(
                        s@,
                        f as int,
                        intl,
                    )));
                    assert(text@ + qsi_text(s@, f + 1 + l, intl) =~= text_pre + qsi_text(
                        s@,
                        p as int,
                        intl,
                    ));
                }
                p = f + 1 + l;
                continue;
            }
        }
        let l2 = text_unit(s, f, Cls::Qtext, intl, true, &mut text);
        if l2 > 0 && !(f < n && s[f] == 92) {
            proof {
                assert(text@ =~= text_pre + (ofws_text(s@, p as int) + unit_text(
                    s@,
                    f as int,
                    Cls::Qtext,
                    intl,
                    true,
                )));
                assert(text@ + qsi_text(s@, f + l2, intl) =~= text_pre + qsi_text(
                    s@,
                    p as int,
                    intl,
                ));
            }
            p = f + l2;
            continue;
        }
        if l2 > 0 {
            return None;
        }
        if f < n && s[f] == 34 {
            proof {
                assert(text@ =~= text_pre + ofws_text(s@, p as int));
                assert(text@ =~= qsi_text(s@, a + 1, intl));
                lemma_cfws_bounds(s@, f + 1, intl);
            }
            let e = ocfws(s, f + 1, intl);
            proof {
                lemma_qsi_bounds(s@, a + 1, intl);
            }
            return Some((e, text));
        }
        return None;
    }
}


/// What an atom at `i` parses to: optional comments and folding whitespace,
/// a run of atom text, optional comments and folding whitespace; the value is
/// the raw text run.
pub open spec fn atom_spec(s: Seq<u8>, i: int, intl: bool) -> Option<(int, Seq<char>)> {
    let a = ocfws_end(s, i, intl);
    let r = run_end(s, a, Cls::Atext, intl, false);
    if 0 <= a <= s.len() && r > a {
        Some((ocfws_end(s, r, intl), decode_utf8(run_text(s, a, Cls::Atext, intl, false))))
    } else {
        None
    }
}

/// Parse an atom at `i`.
pub(crate) fn atom_at(s: &[u8], i: usize, intl: bool) -> (r: Option<(usize, Vec<u8>)>)
    requires
        i <= s@.len(),
    ensures
        r is Some <==> atom_spec(s@, i as int, intl) is Some,
        r matches Some((e, v)) ==> atom_spec(s@, i as int, intl) matches Some((se, sv)) && e
            == se && i < e <= s@.len() && decode_utf8(v@) == sv && valid_utf8(v@),
{
    proof {
        lemma_cfws_bounds(s@, i as int, intl);
    }
    let a = ocfws(s, i, intl);
    proof {
        crate::util::lemma_run_end_bounds_pub(s@, a as int, Cls::Atext, intl, false);
        crate::util::lemma_run_text_valid(s@, a as int, Cls::Atext, intl, false);
    }
    let mut buf: Vec<u8> = Vec::new();
    let r = text_run(s, a, Cls::Atext, intl, false, &mut buf);
    if r > a {
        proof {
            lemma_cfws_bounds(s@, r as int, intl);
        }
        let e = ocfws(s, r, intl);
        Some((e, buf))
    } else {
        None
    }
}

/// What a dot-atom at `i` parses to: an atom-text run with further runs
/// joined by single dots, surrounded by optional comments and folding
/// whitespace; the value is the raw dotted text.
pub open spec fn dot_atom_spec(s: Seq<u8>, i: int, intl: bool) -> Option<(int, Seq<char>)> {
    let a = ocfws_end(s, i, intl);
    if 0 <= a <= s.len() && crate::rfc5321::dot_string_end(s, a, intl) > a {
        let d = crate::rfc5321::dot_string_end(s, a, intl);
        Some((ocfws_end(s, d, intl), decode_utf8(s.subrange(a, d))))
    } else {
        None
    }
}

/// Parse a dot-atom at `i`.
pub(crate) fn dot_atom_at(s: &[u8], i: usize, intl: bool) -> (r: Option<(usize, crate::types::DotAtom)>)
    requires
        i <= s@.len(),
    ensures
        r is Some <==> dot_atom_spec(s@, i as int, intl) is Some,
        r matches Some((e, v)) ==> dot_atom_spec(s@, i as int, intl) matches Some((se, sv)) && e
            == se && i < e <= s@.len() && v.0@ == sv,
{
    proof {
        lemma_cfws_bounds(s@, i as int, intl);
    }
    let a = ocfws(s, i, intl);
    proof {
        crate::rfc5321::lemma_dot_string_bounds(s@, a as int, intl);
    }
    match crate::rfc5321::dot_string_at(s, a, intl) {
        Some((d, v)) => {
            proof {
                lemma_cfws_bounds(s@, d as int, intl);
            }
            let e = ocfws(s, d, intl);
            Some((e, v))
        },
        None => None,
    }
}

/// Where the inside of a domain literal ends, scanning from `p` (just after
/// the opening bracket), and the text it holds: runs of domain-literal text
/// with optional folding whitespace between them, up to one past the closing
/// bracket.
pub open spec fn dli_end(s: Seq<u8>, p: int, intl: bool) -> Option<int>
    decreases s.len() - p,
    when 0 <= p <= s.len() via dli_end_dec
{
    let f = ofws_end(s, p);
    if run_end(s, f, Cls::Dtext, intl, false) > f {
        dli_end(s, run_end(s, f, Cls::Dtext, intl, false), intl)
    } else if f < s.len() && s[f] == 93 {
        Some(f + 1)
    } else {
        None
    }
}

#[via_fn]
proof fn dli_end_dec(s: Seq<u8>, p: int, intl: bool) {
    lemma_fws_bounds(s, p);
    crate::util::lemma_run_end_bounds_pub(s, ofws_end(s, p), Cls::Dtext, intl, false);
}

/// The text inside a domain literal, scanning from `p`.
pub open spec fn dli_text(s: Seq<u8>, p: int, intl: bool) -> Seq<u8>
    decreases s.len() - p,
    when 0 <= p <= s.len() via dli_text_dec
{
    let f = ofws_end(s, p);
    if run_end(s, f, Cls::Dtext, intl, false) > f {
        ofws_text(s, p) + run_text(s, f, Cls::Dtext, intl, false) + dli_text(
            s,
            run_end(s, f, Cls::Dtext, intl, false),
            intl,
        )
    } else {
        ofws_text(s, p)
    }
}

#[via_fn]
proof fn dli_text_dec(s: Seq<u8>, p: int, intl: bool) {
    lemma_fws_bounds(s, p);
    crate::util::lemma_run_end_bounds_pub(s, ofws_end(s, p), Cls::Dtext, intl, false);
}

proof fn lemma_dli_bounds(s: Seq<u8>, p: int, intl: bool)
    requires
        0 <= p <= s.len(),
    ensures
        dli_end(s, p, intl) matches Some(e) ==> p < e <= s.len(),
        valid_utf8(dli_text(s, p, intl)),
    decreases s.len() - p,
{
    broadcast use vstd::utf8::valid_utf8_concat;

    lemma_fws_bounds(s, p);
    lemma_fws_text_valid(s, p);
    let f = ofws_end(s, p);
    crate::util::lemma_run_end_bounds_pub(s, f, Cls::Dtext, intl, false);
    let r = run_end(s, f, Cls::Dtext, intl, false);
    if r > f {
        crate::util::lemma_run_text_valid(s, f, Cls::Dtext, intl, false);
        lemma_dli_bounds(s, r, intl);
        vstd::utf8::valid_utf8_concat(ofws_text(s, p), run_text(s, f, Cls::Dtext, intl, false));
        vstd::utf8::valid_utf8_concat(
            ofws_text(s, p) + run_text(s, f, Cls::Dtext, intl, false),
            dli_text(s, r, intl),
        );
    }
}

/// What a domain literal at `i` parses to: the bracketed text, upgraded to an
/// IP or tagged literal when the whole text matches the SMTP address-literal
/// grammar, kept as a free-form literal otherwise.
pub open spec fn domain_literal_spec(s: Seq<u8>, i: int, intl: bool) -> Option<
    (int, crate::types::AddressLiteralView),
> {
    let a = ocfws_end(s, i, intl);
    if 0 <= a < s.len() && s[a] == 91 {
        match dli_end(s, a + 1, intl) {
            Some(e) => {
                if e <= s.len() {
                    let text = dli_text(s, a + 1, intl);
                    let lit = match crate::rfc5321::inner_lit_spec(text, 0) {
                        Some((le, v)) => if le == text.len() {
                            v
                        } else {
                            crate::types::AddressLiteralView::FreeForm(decode_utf8(text))
                        },
                        None => crate::types::AddressLiteralView::FreeForm(decode_utf8(text)),
                    };
                    Some((ocfws_end(s, e, intl), lit))
                } else {
                    None
                }
            },
            None => None,
        }
    } else {
        None
    }
}

/// Parse a domain literal at `i`.
#[verifier::rlimit(100)]
fn domain_literal_at(s: &[u8], i: usize, intl: bool) -> (r: Option<
    (usize, crate::types::AddressLiteral),
>)
    requires
        i <= s@.len(),
    ensures
        r is Some <==> domain_literal_spec(s@, i as int, intl) is Some,
        r matches Some((e, v)) ==> domain_literal_spec(s@, i as int, intl) matches Some(
            (se, sv),
        ) && e == se && v@ == sv && i < e <= s@.len(),
{
    proof {
        lemma_cfws_bounds(s@, i as int, intl);
    }
    let n = s.len();
    let a = ocfws(s, i, intl);
    if !(a < n && s[a] == 91) {
        return None;
    }
    proof {
        lemma_dli_bounds(s@, a + 1, intl);
    }
    let mut text: Vec<u8> = Vec::new();
    let mut p: usize = a + 1;
    let e: usize;
    loop
        invariant
            a + 1 <= p <= n == s@.len(),
            dli_end(s@, a + 1, intl) == dli_end(s@, p as int, intl),
            dli_text(s@, a + 1, intl) == text@ + dli_text(s@, p as int, intl),
        decreases n - p,
    {
        proof {
            lemma_fws_bounds(s@, p as int);
            lemma_dli_bounds(s@, p as int, intl);
        }
        let ghost text_pre = text@;
        let f = ofws(s, p, &mut text);
        let r = text_run(s, f, Cls::Dtext, intl, false, &mut text);
        if r > f {
            proof {
                assert(text@ + dli_text(s@, r as int, intl) =~= text_pre + dli_text(
                    s@,
                    p as int,
                    intl,
                ));
            }
            p = r;
            continue;
        }
        if f < n && s[f] == 93 {
            proof {
                assert(text@ =~= dli_text(s@, a + 1, intl));
            }
            e = f + 1;
            break;
        }
        return None;
    }
    proof {
        lemma_cfws_bounds(s@, e as int, intl);
        lemma_dli_bounds(s@, a + 1, intl);
    }
    let fin = ocfws(s, e, intl);
    let lit: crate::types::AddressLiteral;
    match crate::rfc5321::inner_lit_at(text.as_slice(), 0) {
        Some((le, v)) => {
            if le == text.len() {
                lit = v;
            } else {
                lit = crate::types::AddressLiteral::FreeForm(string_from_utf8(text));
            }
        },
        None => {
            lit = crate::types::AddressLiteral::FreeForm(string_from_utf8(text));
        },
    }
    Some((fin, lit))
}

/// What a message-format local part at `i` parses to: a dot-atom or a quoted
/// string.
pub open spec fn local_part_spec(s: Seq<u8>, i: int, intl: bool) -> Option<
    (int, crate::types::LocalPartView),
> {
    match dot_atom_spec(s, i, intl) {
        Some((e, v)) => Some((e, crate::types::LocalPartView::DotAtom(v))),
        None => {
            match qs_end(s, i, intl) {
                Some(e) => Some(
                    (e, crate::types::LocalPartView::Quoted(decode_utf8(qs_text(s, i, intl)))),
                ),
                None => None,
            }
        },
    }
}

/// Parse a message-format local part at `i`.
fn local_part_at(s: &[u8], i: usize, intl: bool) -> (r: Option<(usize, crate::types::LocalPart)>)
    requires
        i <= s@.len(),
    ensures
        r is Some <==> local_part_spec(s@, i as int, intl) is Some,
        r matches Some((e, v)) ==> local_part_spec(s@, i as int, intl) matches Some((se, sv))
            && e == se && v@ == sv && i <= e <= s@.len(),
{
    match dot_atom_at(s, i, intl) {
        Some((e, v)) => Some((e, crate::types::LocalPart::DotAtom(v))),
        None => {
            match quoted_string_at(s, i, intl) {
                Some((e, text)) => Some(
                    (
                        e,
                        crate::types::LocalPart::Quoted(
                            crate::types::QuotedString(string_from_utf8(text)),
                        ),
                    ),
                ),
                None => None,
            }
        },
    }
}

/// What a message-format domain at `i` parses to: a dot-atom domain name, or
/// a domain literal.
pub open spec fn domain_spec(s: Seq<u8>, i: int, intl: bool) -> Option<
    (int, crate::types::DomainPartView),
> {
    match dot_atom_spec(s, i, intl) {
        Some((e, v)) => Some((e, crate::types::DomainPartView::Domain(v))),
        None => {
            match domain_literal_spec(s, i, intl) {
                Some((e, v)) => Some((e, crate::types::DomainPartView::Address(v))),
                None => None,
            }
        },
    }
}

/// Parse a message-format domain at `i`.
fn domain_at(s: &[u8], i: usize, intl: bool) -> (r: Option<(usize, crate::types::DomainPart)>)
    requires
        i <= s@.len(),
    ensures
        r is Some <==> domain_spec(s@, i as int, intl) is Some,
        r matches Some((e, v)) ==> domain_spec(s@, i as int, intl) matches Some((se, sv)) && e
            == se && v@ == sv && i <= e <= s@.len(),
{
    match dot_atom_at(s, i, intl) {
        Some((e, v)) => Some((e, crate::types::DomainPart::Domain(crate::types::Domain(v.0)))),
        None => {
            match domain_literal_at(s, i, intl) {
                Some((e, v)) => Some((e, crate::types::DomainPart::Address(v))),
                None => None,
            }
        },
    }
}

/// What an addr-spec at `i` parses to: `local-part "@" domain`.
pub open spec fn addr_spec_spec(s: Seq<u8>, i: int, intl: bool) -> Option<
    (int, crate::types::MailboxView),
> {
    match local_part_spec(s, i, intl) {
        Some((e, lp)) => {
            if 0 <= e < s.len() && s[e] == 64 {
                match domain_spec(s, e + 1, intl) {
                    Some((e2, dp)) => Some(
                        (e2, crate::types::MailboxView { local: lp, domain: dp }),
                    ),
                    None => None,
                }
            } else {
                None
            }
        },
        None => None,
    }
}

/// Parse an addr-spec at `i`.
fn addr_spec_at(s: &[u8], i: usize, intl: bool) -> (r: Option<(usize, crate::types::Mailbox)>)
    requires
        i <= s@.len(),
    ensures
        r is Some <==> addr_spec_spec(s@, i as int, intl) is Some,
        r matches Some((e, v)) ==> addr_spec_spec(s@, i as int, intl) matches Some((se, sv))
            && e == se && v@ == sv && i <= e <= s@.len(),
{
    match local_part_at(s, i, intl) {
        Some((e, lp)) => {
            if e < s.len() && s[e] == 64 {
                match domain_at(s, e + 1, intl) {
                    Some((e2, dp)) => Some((e2, crate::types::Mailbox(lp, dp))),
                    None => None,
                }
            } else {
                None
            }
        },
        None => None,
    }
}

/// What an angle-addr at `i` parses to: an addr-spec in angle brackets with
/// optional surrounding comments and folding whitespace.
pub open spec fn angle_addr_spec(s: Seq<u8>, i: int, intl: bool) -> Option<
    (int, crate::types::MailboxView),
> {
    let a = ocfws_end(s, i, intl);
    if 0 <= a < s.len() && s[a] == 60 {
        match addr_spec_spec(s, a + 1, intl) {
            Some((e, m)) => if e < s.len() && s[e] == 62 {
                Some((ocfws_end(s, e + 1, intl), m))
            } else {
                None
            },
            None => None,
        }
    } else {
        None
    }
}

/// Parse an angle-addr at `i`.
fn angle_addr_at(s: &[u8], i: usize, intl: bool) -> (r: Option<(usize, crate::types::Mailbox)>)
    requires
        i <= s@.len(),
    ensures
        r is Some <==> angle_addr_spec(s@, i as int, intl) is Some,
        r matches Some((e, v)) ==> angle_addr_spec(s@, i as int, intl) matches Some((se, sv))
            && e == se && v@ == sv && i < e <= s@.len(),
{
    proof {
        lemma_cfws_bounds(s@, i as int, intl);
    }
    let n = s.len();
    let a = ocfws(s, i, intl);
    if !(a < n && s[a] == 60) {
        return None;
    }
    match addr_spec_at(s, a + 1, intl) {
        Some((e, m)) => {
            if e < n && s[e] == 62 {
                proof {
                    lemma_cfws_bounds(s@, e + 1, intl);
                }
                let fin = ocfws(s, e + 1, intl);
                Some((fin, m))
            } else {
                None
            }
        },
        None => None,
    }
}


/// One token of a display name or phrase: a bare atom, or literal text (a
/// quoted string or a decoded encoded word).
#[derive(Debug, PartialEq, Eq)]
pub enum Text {
    /// A bare unquoted word.
    Atom(String),
    /// Everything else: quoted-string content or an encoded word's decoding.
    Literal(String),
}

/// Specification-level form of a [`Text`] token.
pub enum TextView {
    /// Mirror of [`Text::Atom`].
    Atom(Seq<char>),
    /// Mirror of [`Text::Literal`].
    Literal(Seq<char>),
}

impl View for Text {
    type V = TextView;

    open spec fn view(&self) -> TextView {
        match self {
            Text::Atom(a) => TextView::Atom(a@),
            Text::Literal(l) => TextView::Literal(l@),
        }
    }
}

impl DeepView for Text {
    type V = TextView;

    open spec fn deep_view(&self) -> TextView {
        self.view()
    }
}

/// The characters of a token.
pub open spec fn text_content(t: TextView) -> Seq<char> {
    match t {
        TextView::Atom(a) => a,
        TextView::Literal(l) => l,
    }
}

/// Whether a token is a bare atom.
pub open spec fn text_is_atom(t: TextView) -> bool {
    t is Atom
}

/// What joining a token sequence yields: two adjacent tokens are joined with
/// one inserted space when either is an atom, and with no separator when both
/// are literals.
pub open spec fn concat_texts(ts: Seq<TextView>) -> Seq<char>
    decreases ts.len(),
{
    if ts.len() == 0 {
        Seq::empty()
    } else if ts.len() == 1 {
        text_content(ts[0])
    } else {
        text_content(ts[0]) + (if text_is_atom(ts[0]) || text_is_atom(ts[1]) {
            seq![' ']
        } else {
            Seq::empty()
        }) + concat_texts(ts.drop_first())
    }
}

/// Display-name adjacency: two adjacent tokens are joined with a single
/// inserted space exactly when either of them is an atom; two adjacent
/// literal tokens are joined with no separator.
pub proof fn lemma_display_name_adjacency(t1: TextView, t2: TextView)
    ensures
        concat_texts(seq![t1, t2]) == text_content(t1) + (if text_is_atom(t1) || text_is_atom(
            t2,
        ) {
            seq![' ']
        } else {
            Seq::<char>::empty()
        }) + text_content(t2),
{
    let ts = seq![t1, t2];
    assert(ts.len() == 2);
    assert(ts[0] == t1);
    assert(ts[1] == t2);
    assert(ts.drop_first() =~= seq![t2]);
    assert(seq![t2][0] == t2);
    assert(concat_texts(seq![t2]) == text_content(t2));
    assert(concat_texts(ts) =~= text_content(t1) + (if text_is_atom(t1) || text_is_atom(t2) {
        seq![' ']
    } else {
        Seq::<char>::empty()
    }) + text_content(t2));
}

/// Join a token sequence by the display-name adjacency rule.
pub fn concat_atom_and_qs(input: Vec<Text>) -> (r: String)
    ensures
        r@ == concat_texts(input.deep_view()),
{
    let ghost iv = input.deep_view();
    let mut rest = input;
    let mut out: String = String::new();
    let ghost mut k: int = 0;
    proof {
        reveal_strlit(" ");
        assert(" "@ =~= seq![' ']);
        assert(rest.deep_view() =~= iv.subrange(0, iv.len() as int));
    }
    while rest.len() > 0
        invariant
            0 <= k <= iv.len(),
            rest.deep_view() == iv.subrange(k, iv.len() as int),
            concat_texts(iv) == out@ + concat_texts(iv.subrange(k, iv.len() as int)),
            " "@ == seq![' '],
        decreases rest@.len(),
    {
        let ghost rest_pre = rest.deep_view();
        let ghost restv = rest@;
        let item = rest.remove(0);
        proof {
            assert(item == restv[0]);
            assert(rest_pre[0] == restv[0].deep_view());
            assert(rest_pre[0] == iv[k]);
            assert(rest@ =~= restv.subrange(1, restv.len() as int));
            assert forall|m: int| 0 <= m < rest.deep_view().len() implies rest.deep_view()[m]
                == iv.subrange(k + 1, iv.len() as int)[m] by {
                assert(rest@[m] == restv[m + 1]);
                assert(rest.deep_view()[m] == restv[m + 1].deep_view());
                assert(restv[m + 1].deep_view() == rest_pre[m + 1]);
            }
            assert(rest.deep_view() =~= iv.subrange(k + 1, iv.len() as int));
            assert(iv.subrange(k, iv.len() as int).drop_first() =~= iv.subrange(
                k + 1,
                iv.len() as int,
            ));
        }
        let item_is_atom = match &item {
            Text::Atom(_) => true,
            Text::Literal(_) => false,
        };
        match item {
            Text::Atom(a) => {
                out.append(a.as_str());
            },
            Text::Literal(l) => {
                out.append(l.as_str());
            },
        }
        if rest.len() > 0 {
            let next_is_atom = match &rest[0] {
                Text::Atom(_) => true,
                Text::Literal(_) => false,
            };
            proof {
                assert(rest[0 as int].deep_view() == iv.subrange(k + 1, iv.len() as int)[0]);
                assert(rest[0 as int].deep_view() == iv[k + 1]);
            }
            if item_is_atom || next_is_atom {
                out.append(" ");
            }
        }
        proof {
            k = k + 1;
        }
    }
    proof {
        assert(iv.subrange(k, iv.len() as int).len() == 0);
        assert(k == iv.len());
        assert(out@ =~= concat_texts(iv));
    }
    out
}

proof fn lemma_qs_bounds(s: Seq<u8>, i: int, intl: bool)
    requires
        0 <= i <= s.len(),
    ensures
        qs_end(s, i, intl) matches Some(e) ==> i < e <= s.len(),
{
    lemma_cfws_bounds(s, i, intl);
    let a = ocfws_end(s, i, intl);
    if 0 <= a < s.len() && s[a] == 34 {
        lemma_qsi_bounds(s, a + 1, intl);
        match qsi_end(s, a + 1, intl) {
            Some(e) => {
                if e <= s.len() {
                    lemma_cfws_bounds(s, e, intl);
                }
            },
            None => {},
        }
    }
}

/// What one display-name token at `i` parses to: a padded encoded word, an
/// atom, or a quoted string, in that order.
pub open spec fn word_spec(s: Seq<u8>, i: int, intl: bool) -> Option<(int, TextView)> {
    let a = ocfws_end(s, i, intl);
    if 0 <= a <= s.len() && crate::rfc2047::ew_spec(s, a) is Some {
        match crate::rfc2047::ew_spec(s, a) {
            Some((j, txt)) => if 0 <= j <= s.len() {
                Some((ocfws_end(s, j, intl), TextView::Literal(txt)))
            } else {
                None
            },
            None => None,
        }
    } else if 0 <= a <= s.len() && run_end(s, a, Cls::Atext, intl, false) > a {
        match atom_spec(s, i, intl) {
            Some((e, v)) => Some((e, TextView::Atom(v))),
            None => None,
        }
    } else {
        match qs_end(s, i, intl) {
            Some(e) => Some((e, TextView::Literal(decode_utf8(qs_text(s, i, intl))))),
            None => None,
        }
    }
}

proof fn lemma_word_bounds(s: Seq<u8>, i: int, intl: bool)
    requires
        0 <= i <= s.len(),
    ensures
        word_spec(s, i, intl) matches Some((e, t)) ==> i < e <= s.len(),
{
    lemma_cfws_bounds(s, i, intl);
    let a = ocfws_end(s, i, intl);
    crate::util::lemma_run_end_bounds_pub(s, a, Cls::Atext, intl, false);
    let run = run_end(s, a, Cls::Atext, intl, false);
    if run <= s.len() {
        lemma_cfws_bounds(s, run, intl);
    }
    crate::rfc2047::lemma_ew_bounds(s, a);
    match crate::rfc2047::ew_spec(s, a) {
        Some((j, txt)) => {
            if 0 <= j <= s.len() {
                lemma_cfws_bounds(s, j, intl);
            }
        },
        None => {},
    }
    lemma_qs_bounds(s, i, intl);
}

/// Parse one display-name token at `i`.
fn word_at(s: &[u8], i: usize, intl: bool) -> (r: Option<(usize, Text)>)
    requires
        i <= s@.len(),
    ensures
        r is Some <==> word_spec(s@, i as int, intl) is Some,
        r matches Some((e, t)) ==> word_spec(s@, i as int, intl) matches Some((se, sv)) && e
            == se && t@ == sv && i < e <= s@.len(),
{
    proof {
        lemma_word_bounds(s@, i as int, intl);
        lemma_cfws_bounds(s@, i as int, intl);
    }
    let a = ocfws(s, i, intl);
    match crate::rfc2047::encoded_word_at(s, a) {
        Some((j, txt)) => {
            proof {
                lemma_cfws_bounds(s@, j as int, intl);
            }
            let e = ocfws(s, j, intl);
            return Some((e, Text::Literal(txt)));
        },
        None => {},
    }
    match atom_at(s, i, intl) {
        Some((e, v)) => {
            return Some((e, Text::Atom(string_from_utf8(v))));
        },
        None => {},
    }
    match quoted_string_at(s, i, intl) {
        Some((e, text)) => Some((e, Text::Literal(string_from_utf8(text)))),
        None => None,
    }
}

/// Where the run of display-name tokens starting at `p` ends.
pub open spec fn words_end(s: Seq<u8>, p: int, intl: bool) -> int
    decreases s.len() - p,
    when 0 <= p <= s.len() via words_end_dec
{
    match word_spec(s, p, intl) {
        Some((e, t)) => if p < e <= s.len() {
            words_end(s, e, intl)
        } else {
            p
        },
        None => p,
    }
}

#[via_fn]
proof fn words_end_dec(s: Seq<u8>, p: int, intl: bool) {
    lemma_word_bounds(s, p, intl);
}

/// The display-name tokens starting at `p`.
pub open spec fn words_list(s: Seq<u8>, p: int, intl: bool) -> Seq<TextView>
    decreases s.len() - p,
    when 0 <= p <= s.len() via words_list_dec
{
    match word_spec(s, p, intl) {
        Some((e, t)) => if p < e <= s.len() {
            seq![t] + words_list(s, e, intl)
        } else {
            Seq::empty()
        },
        None => Seq::empty(),
    }
}

#[via_fn]
proof fn words_list_dec(s: Seq<u8>, p: int, intl: bool) {
    lemma_word_bounds(s, p, intl);
}

proof fn lemma_words_bounds(s: Seq<u8>, p: int, intl: bool)
    requires
        0 <= p <= s.len(),
    ensures
        p <= words_end(s, p, intl) <= s.len(),
    decreases s.len() - p,
{
    lemma_word_bounds(s, p, intl);
    match word_spec(s, p, intl) {
        Some((e, t)) => {
            if p < e <= s.len() {
                lemma_words_bounds(s, e, intl);
            }
        },
        None => {},
    }
}

/// What a display name at `i` parses to: one or more tokens, joined by the
/// adjacency rule of [`concat_texts`].
pub open spec fn display_name_spec(s: Seq<u8>, i: int, intl: bool) -> Option<
    (int, Seq<char>),
> {
    if word_spec(s, i, intl) is Some {
        Some((words_end(s, i, intl), concat_texts(words_list(s, i, intl))))
    } else {
        None
    }
}

/// Parse a display name at `i`.
fn display_name_at(s: &[u8], i: usize, intl: bool) -> (r: Option<(usize, String)>)
    requires
        i <= s@.len(),
    ensures
        r is Some <==> display_name_spec(s@, i as int, intl) is Some,
        r matches Some((e, v)) ==> display_name_spec(s@, i as int, intl) matches Some((se, sv))
            && e == se && v@ == sv && i < e <= s@.len(),
{
    proof {
        lemma_word_bounds(s@, i as int, intl);
        lemma_words_bounds(s@, i as int, intl);
    }
    let mut texts: Vec<Text> = Vec::new();
    let mut p: usize = i;
    let mut any = false;
    loop
        invariant
            i <= p <= s@.len(),
            words_end(s@, i as int, intl) == words_end(s@, p as int, intl),
            words_list(s@, i as int, intl) == texts.deep_view() + words_list(s@, p as int, intl),
            any <==> p != i,
            any ==> word_spec(s@, i as int, intl) is Some,
            !any ==> texts.deep_view() == Seq::<TextView>::empty(),
        decreases s@.len() - p,
    {
        proof {
            lemma_word_bounds(s@, p as int, intl);
        }
        match word_at(s, p, intl) {
            Some((e, t)) => {
                let ghost texts_pre = texts.deep_view();
                texts.push(t);
                proof {
                    assert(texts.deep_view() =~= texts_pre.push(t@));
                    assert(texts.deep_view() + words_list(s@, e as int, intl) =~= texts_pre
                        + words_list(s@, p as int, intl));
                }
                p = e;
                any = true;
            },
            None => {
                break;
            },
        }
    }
    if any {
        proof {
            assert(words_list(s@, p as int, intl) =~= Seq::<TextView>::empty());
            assert(texts.deep_view() =~= words_list(s@, i as int, intl));
        }
        Some((p, concat_atom_and_qs(texts)))
    } else {
        None
    }
}


/// A single mailbox with an optional display name.
#[derive(Debug, PartialEq, Eq)]
pub struct Mailbox {
    /// The display name, when one stood before the address.
    pub dname: Option<String>,
    /// The address of this mailbox.
    pub address: crate::types::Mailbox,
}

/// A group of mailboxes under one display name.
#[derive(Debug, PartialEq, Eq)]
pub struct Group {
    /// The group's display name.
    pub dname: String,
    /// The members of this group; may be empty.
    pub members: Vec<Mailbox>,
}

/// An address: a single mailbox, or a group of mailboxes.
#[derive(Debug, PartialEq, Eq)]
pub enum Address {
    /// A single mailbox.
    Mailbox(Mailbox),
    /// A group of mailboxes.
    Group(Group),
}

/// Specification-level form of a [`Mailbox`].
pub struct NamedMailboxView {
    /// The display name, when any.
    pub dname: Option<Seq<char>>,
    /// The address.
    pub address: crate::types::MailboxView,
}

impl View for Mailbox {
    type V = NamedMailboxView;

    open spec fn view(&self) -> NamedMailboxView {
        NamedMailboxView {
            dname: match self.dname {
                Some(ref d) => Some(d@),
                None => None,
            },
            address: self.address@,
        }
    }
}

impl DeepView for Mailbox {
    type V = NamedMailboxView;

    open spec fn deep_view(&self) -> NamedMailboxView {
        self.view()
    }
}

/// Specification-level form of a [`Group`].
pub struct GroupView {
    /// The display name.
    pub dname: Seq<char>,
    /// The members.
    pub members: Seq<NamedMailboxView>,
}

impl View for Group {
    type V = GroupView;

    open spec fn view(&self) -> GroupView {
        GroupView { dname: self.dname@, members: self.members.deep_view() }
    }
}

impl DeepView for Group {
    type V = GroupView;

    open spec fn deep_view(&self) -> GroupView {
        self.view()
    }
}

/// Specification-level form of an [`Address`].
pub enum AddressView {
    /// Mirror of [`Address::Mailbox`].
    Mailbox(NamedMailboxView),
    /// Mirror of [`Address::Group`].
    Group(GroupView),
}

impl View for Address {
    type V = AddressView;

    open spec fn view(&self) -> AddressView {
        match self {
            Address::Mailbox(m) => AddressView::Mailbox(m@),
            Address::Group(g) => AddressView::Group(g@),
        }
    }
}

impl DeepView for Address {
    type V = AddressView;

    open spec fn deep_view(&self) -> AddressView {
        self.view()
    }
}

/// What a mailbox at `i` parses to: a display name followed by an
/// angle-bracketed address, a bare angle-bracketed address, or a bare
/// addr-spec.
pub open spec fn mailbox5322_spec(s: Seq<u8>, i: int, intl: bool) -> Option<
    (int, NamedMailboxView),
> {
    match display_name_spec(s, i, intl) {
        Some((e, d)) => {
            if 0 <= e <= s.len() && angle_addr_spec(s, e, intl) is Some {
                match angle_addr_spec(s, e, intl) {
                    Some((e2, m)) => Some(
                        (e2, NamedMailboxView { dname: Some(d), address: m }),
                    ),
                    None => None,
                }
            } else {
                match addr_spec_spec(s, i, intl) {
                    Some((e2, m)) => Some((e2, NamedMailboxView { dname: None, address: m })),
                    None => None,
                }
            }
        },
        None => {
            match angle_addr_spec(s, i, intl) {
                Some((e2, m)) => Some((e2, NamedMailboxView { dname: None, address: m })),
                None => {
                    match addr_spec_spec(s, i, intl) {
                        Some((e2, m)) => Some(
                            (e2, NamedMailboxView { dname: None, address: m }),
                        ),
                        None => None,
                    }
                },
            }
        },
    }
}

proof fn lemma_mailbox5322_bounds(s: Seq<u8>, i: int, intl: bool)
    requires
        0 <= i <= s.len(),
    ensures
        mailbox5322_spec(s, i, intl) matches Some((e, m)) ==> i < e <= s.len(),
{
    lemma_word_bounds(s, i, intl);
    lemma_words_bounds(s, i, intl);
    lemma_cfws_bounds(s, i, intl);
    lemma_addr_spec_bounds(s, i, intl);
    match display_name_spec(s, i, intl) {
        Some((e, d)) => {
            if 0 <= e <= s.len() {
                lemma_angle_bounds(s, e, intl);
            }
        },
        None => {},
    }
    lemma_angle_bounds(s, i, intl);
}

proof fn lemma_angle_bounds(s: Seq<u8>, i: int, intl: bool)
    requires
        0 <= i <= s.len(),
    ensures
        angle_addr_spec(s, i, intl) matches Some((e, m)) ==> i < e <= s.len(),
{
    lemma_cfws_bounds(s, i, intl);
    let a = ocfws_end(s, i, intl);
    if 0 <= a < s.len() && s[a] == 60 {
        lemma_addr_spec_bounds(s, a + 1, intl);
        match addr_spec_spec(s, a + 1, intl) {
            Some((e, m)) => {
                if e < s.len() && s[e] == 62 {
                    lemma_cfws_bounds(s, e + 1, intl);
                }
            },
            None => {},
        }
    }
}

proof fn lemma_addr_spec_bounds(s: Seq<u8>, i: int, intl: bool)
    requires
        0 <= i <= s.len(),
    ensures
        addr_spec_spec(s, i, intl) matches Some((e, m)) ==> i < e <= s.len(),
        local_part_spec(s, i, intl) matches Some((e, m)) ==> i < e <= s.len(),
        dot_atom_spec(s, i, intl) matches Some((e, m)) ==> i < e <= s.len(),
        domain_spec(s, i, intl) matches Some((e, m)) ==> i < e <= s.len(),
{
    lemma_cfws_bounds(s, i, intl);
    let a = ocfws_end(s, i, intl);
    crate::rfc5321::lemma_dot_string_bounds(s, a, intl);
    let d = crate::rfc5321::dot_string_end(s, a, intl);
    if d <= s.len() {
        lemma_cfws_bounds(s, d, intl);
    }
    lemma_qs_bounds(s, i, intl);
    lemma_dl_bounds(s, i, intl);
    match local_part_spec(s, i, intl) {
        Some((e, lp)) => {
            if 0 <= e < s.len() && s[e] == 64 {
                lemma_cfws_bounds(s, e + 1, intl);
                let a2 = ocfws_end(s, e + 1, intl);
                crate::rfc5321::lemma_dot_string_bounds(s, a2, intl);
                let d2 = crate::rfc5321::dot_string_end(s, a2, intl);
                if d2 <= s.len() {
                    lemma_cfws_bounds(s, d2, intl);
                }
                lemma_dl_bounds(s, e + 1, intl);
            }
        },
        None => {},
    }
}

proof fn lemma_dl_bounds(s: Seq<u8>, i: int, intl: bool)
    requires
        0 <= i <= s.len(),
    ensures
        domain_literal_spec(s, i, intl) matches Some((e, v)) ==> i < e <= s.len(),
{
    lemma_cfws_bounds(s, i, intl);
    let a = ocfws_end(s, i, intl);
    if 0 <= a < s.len() && s[a] == 91 {
        lemma_dli_bounds(s, a + 1, intl);
        match dli_end(s, a + 1, intl) {
            Some(e) => {
                if e <= s.len() {
                    lemma_cfws_bounds(s, e, intl);
                }
            },
            None => {},
        }
    }
}

/// Parse a mailbox at `i`.
pub fn mailbox5322_at(s: &[u8], i: usize, intl: bool) -> (r: Option<(usize, Mailbox)>)
    requires
        i <= s@.len(),
    ensures
        r is Some <==> mailbox5322_spec(s@, i as int, intl) is Some,
        r matches Some((e, m)) ==> mailbox5322_spec(s@, i as int, intl) matches Some((se, sv))
            && e == se && m@ == sv && i < e <= s@.len(),
{
    proof {
        lemma_mailbox5322_bounds(s@, i as int, intl);
    }
    match display_name_at(s, i, intl) {
        Some((e, d)) => {
            match angle_addr_at(s, e, intl) {
                Some((e2, m)) => Some((e2, Mailbox { dname: Some(d), address: m })),
                None => {
                    match addr_spec_at(s, i, intl) {
                        Some((e2, m)) => Some((e2, Mailbox { dname: None, address: m })),
                        None => None,
                    }
                },
            }
        },
        None => {
            match angle_addr_at(s, i, intl) {
                Some((e2, m)) => Some((e2, Mailbox { dname: None, address: m })),
                None => {
                    match addr_spec_at(s, i, intl) {
                        Some((e2, m)) => Some((e2, Mailbox { dname: None, address: m })),
                        None => None,
                    }
                },
            }
        },
    }
}

/// Where the `"," mailbox` tail of a mailbox list ends, scanning from `p`.
pub open spec fn ml_tail_end(s: Seq<u8>, p: int, intl: bool) -> int
    decreases s.len() - p,
    when 0 <= p <= s.len() via ml_tail_end_dec
{
    if p < s.len() && s[p] == 44 {
        match mailbox5322_spec(s, p + 1, intl) {
            Some((e, m)) => if p < e <= s.len() {
                ml_tail_end(s, e, intl)
            } else {
                p
            },
            None => p,
        }
    } else {
        p
    }
}

#[via_fn]
proof fn ml_tail_end_dec(s: Seq<u8>, p: int, intl: bool) {
    if p < s.len() {
        lemma_mailbox5322_bounds(s, p + 1, intl);
    }
}

/// The mailboxes of the `"," mailbox` tail starting at `p`.
pub open spec fn ml_tail_list(s: Seq<u8>, p: int, intl: bool) -> Seq<NamedMailboxView>
    decreases s.len() - p,
    when 0 <= p <= s.len() via ml_tail_list_dec
{
    if p < s.len() && s[p] == 44 {
        match mailbox5322_spec(s, p + 1, intl) {
            Some((e, m)) => if p < e <= s.len() {
                seq![m] + ml_tail_list(s, e, intl)
            } else {
                Seq::empty()
            },
            None => Seq::empty(),
        }
    } else {
        Seq::empty()
    }
}

#[via_fn]
proof fn ml_tail_list_dec(s: Seq<u8>, p: int, intl: bool) {
    if p < s.len() {
        lemma_mailbox5322_bounds(s, p + 1, intl);
    }
}

/// What a mailbox list at `i` parses to: mailboxes separated by commas.
pub open spec fn mailbox_list_spec(s: Seq<u8>, i: int, intl: bool) -> Option<
    (int, Seq<NamedMailboxView>),
> {
    match mailbox5322_spec(s, i, intl) {
        Some((e, m)) => if 0 <= e <= s.len() {
            Some((ml_tail_end(s, e, intl), seq![m] + ml_tail_list(s, e, intl)))
        } else {
            None
        },
        None => None,
    }
}

proof fn lemma_ml_tail_bounds(s: Seq<u8>, p: int, intl: bool)
    requires
        0 <= p <= s.len(),
    ensures
        p <= ml_tail_end(s, p, intl) <= s.len(),
    decreases s.len() - p,
{
    if p < s.len() {
        lemma_mailbox5322_bounds(s, p + 1, intl);
        if s[p] == 44 {
            match mailbox5322_spec(s, p + 1, intl) {
                Some((e, m)) => {
                    if p < e <= s.len() {
                        lemma_ml_tail_bounds(s, e, intl);
                    }
                },
                None => {},
            }
        }
    }
}

/// Parse a mailbox list at `i`.
#[verifier::spinoff_prover]
#[verifier::rlimit(100)]
fn mailbox_list_at(s: &[u8], i: usize, intl: bool) -> (r: Option<(usize, Vec<Mailbox>)>)
    requires
        i <= s@.len(),
    ensures
        r is Some <==> mailbox_list_spec(s@, i as int, intl) is Some,
        r matches Some((e, ms)) ==> mailbox_list_spec(s@, i as int, intl) matches Some(
            (se, sv),
        ) && e == se && ms.deep_view() == sv && i < e <= s@.len(),
{
    proof {
        lemma_mailbox5322_bounds(s@, i as int, intl);
    }
    match mailbox5322_at(s, i, intl) {
        None => None,
        Some((e0, m0)) => {
            proof {
                lemma_ml_tail_bounds(s@, e0 as int, intl);
            }
            let mut out: Vec<Mailbox> = Vec::new();
            out.push(m0);
            proof {
                assert(out.deep_view() =~= seq![m0@]);
            }
            let mut p: usize = e0;
            loop
                invariant
                    i < e0 <= p <= s@.len(),
                    ml_tail_end(s@, e0 as int, intl) == ml_tail_end(s@, p as int, intl),
                    seq![m0@] + ml_tail_list(s@, e0 as int, intl) == out.deep_view()
                        + ml_tail_list(s@, p as int, intl),
                decreases s@.len() - p,
            {
                proof {
                    if p < s@.len() {
                        lemma_mailbox5322_bounds(s@, p + 1, intl);
                    }
                }
                if p < s.len() && s[p] == 44 {
                    match mailbox5322_at(s, p + 1, intl) {
                        Some((e, m)) => {
                            let ghost out_pre = out.deep_view();
                            out.push(m);
                            proof {
                                assert(out.deep_view() =~= out_pre.push(m@));
                                assert(out.deep_view() + ml_tail_list(s@, e as int, intl)
                                    =~= out_pre + ml_tail_list(s@, p as int, intl));
                            }
                            p = e;
                            continue;
                        },
                        None => {
                            break;
                        },
                    }
                }
                break;
            }
            proof {
                assert(ml_tail_list(s@, p as int, intl) =~= Seq::<NamedMailboxView>::empty());
                assert(out.deep_view() =~= seq![m0@] + ml_tail_list(s@, e0 as int, intl));
            }
            Some((p, out))
        },
    }
}

/// What a group at `i` parses to: a display name, a colon, an optional group
/// list, a semicolon, and trailing comments or folding whitespace.
pub open spec fn group_spec(s: Seq<u8>, i: int, intl: bool) -> Option<(int, GroupView)> {
    match display_name_spec(s, i, intl) {
        Some((e, d)) => {
            if 0 <= e < s.len() && s[e] == 58 {
                let inner = if mailbox_list_spec(s, e + 1, intl) is Some {
                    mailbox_list_spec(s, e + 1, intl)
                } else {
                    match cfws_end(s, e + 1, intl) {
                        Some(ce) => Some((ce, Seq::empty())),
                        None => Some((e + 1, Seq::empty())),
                    }
                };
                match inner {
                    Some((p, members)) => {
                        if 0 <= p < s.len() && s[p] == 59 {
                            Some(
                                (
                                    ocfws_end(s, p + 1, intl),
                                    GroupView { dname: d, members },
                                ),
                            )
                        } else {
                            None
                        }
                    },
                    None => None,
                }
            } else {
                None
            }
        },
        None => None,
    }
}

/// Parse a group at `i`.
fn group_at(s: &[u8], i: usize, intl: bool) -> (r: Option<(usize, Group)>)
    requires
        i <= s@.len(),
    ensures
        r is Some <==> group_spec(s@, i as int, intl) is Some,
        r matches Some((e, g)) ==> group_spec(s@, i as int, intl) matches Some((se, sv)) && e
            == se && g@ == sv && i < e <= s@.len(),
{
    proof {
        lemma_word_bounds(s@, i as int, intl);
        lemma_words_bounds(s@, i as int, intl);
    }
    let n = s.len();
    match display_name_at(s, i, intl) {
        None => None,
        Some((e, d)) => {
            if !(e < n && s[e] == 58) {
                return None;
            }
            proof {
                lemma_mailbox5322_bounds(s@, e + 1, intl);
                lemma_cfws_bounds(s@, e + 1, intl);
            }
            let p: usize;
            let mut members: Vec<Mailbox> = Vec::new();
            match mailbox_list_at(s, e + 1, intl) {
                Some((e2, ms)) => {
                    members = ms;
                    p = e2;
                },
                None => {
                    match crate::rfc5322::cfws_opt(s, e + 1, intl) {
                        Some(ce) => {
                            p = ce;
                        },
                        None => {
                            p = e + 1;
                        },
                    }
                    proof {
                        assert(members.deep_view() =~= Seq::<NamedMailboxView>::empty());
                    }
                },
            }
            if p < n && s[p] == 59 {
                proof {
                    lemma_cfws_bounds(s@, p + 1, intl);
                }
                let fin = ocfws(s, p + 1, intl);
                Some((fin, Group { dname: d, members }))
            } else {
                None
            }
        },
    }
}

/// Skip a comments-and-folding-whitespace run at `i`, when one is there.
pub fn cfws_opt(s: &[u8], i: usize, intl: bool) -> (r: Option<usize>)
    requires
        i <= s@.len(),
    ensures
        r is Some <==> cfws_end(s@, i as int, intl) is Some,
        r matches Some(e) ==> cfws_end(s@, i as int, intl) == Some(e as int) && i < e
            <= s@.len(),
{
    proof {
        lemma_cfws_bounds(s@, i as int, intl);
    }
    let e = ocfws(s, i, intl);
    if e > i {
        Some(e)
    } else {
        proof {
            match cfws_end(s@, i as int, intl) {
                Some(ce) => {
                    assert(ocfws_end(s@, i as int, intl) == ce);
                },
                None => {},
            }
        }
        None
    }
}


/// What an address at `i` parses to: a mailbox, or a group.
pub open spec fn address_spec(s: Seq<u8>, i: int, intl: bool) -> Option<(int, AddressView)> {
    match mailbox5322_spec(s, i, intl) {
        Some((e, m)) => Some((e, AddressView::Mailbox(m))),
        None => {
            match group_spec(s, i, intl) {
                Some((e, g)) => Some((e, AddressView::Group(g))),
                None => None,
            }
        },
    }
}

proof fn lemma_address_bounds(s: Seq<u8>, i: int, intl: bool)
    requires
        0 <= i <= s.len(),
    ensures
        address_spec(s, i, intl) matches Some((e, a)) ==> i < e <= s.len(),
{
    lemma_mailbox5322_bounds(s, i, intl);
    lemma_word_bounds(s, i, intl);
    lemma_words_bounds(s, i, intl);
    match display_name_spec(s, i, intl) {
        Some((e, d)) => {
            if 0 <= e < s.len() && s[e] == 58 {
                lemma_mailbox5322_bounds(s, e + 1, intl);
                lemma_ml_tail_bounds(s, e + 1, intl);
                lemma_cfws_bounds(s, e + 1, intl);
                match mailbox5322_spec(s, e + 1, intl) {
                    Some((e2, m)) => {
                        if 0 <= e2 <= s.len() {
                            lemma_ml_tail_bounds(s, e2, intl);
                            let p = ml_tail_end(s, e2, intl);
                            if 0 <= p + 1 <= s.len() {
                                lemma_cfws_bounds(s, p + 1, intl);
                            }
                        }
                    },
                    None => {
                        match cfws_end(s, i, intl) {
                            Some(_) => {},
                            None => {},
                        }
                        match cfws_end(s, e + 1, intl) {
                            Some(ce) => {
                                if 0 <= ce + 1 <= s.len() {
                                    lemma_cfws_bounds(s, ce + 1, intl);
                                }
                            },
                            None => {},
                        }
                        if 0 <= e + 2 <= s.len() {
                            lemma_cfws_bounds(s, e + 2, intl);
                        }
                    },
                }
            }
        },
        None => {},
    }
}

/// Parse an address at `i`.
pub fn address_at(s: &[u8], i: usize, intl: bool) -> (r: Option<(usize, Address)>)
    requires
        i <= s@.len(),
    ensures
        r is Some <==> address_spec(s@, i as int, intl) is Some,
        r matches Some((e, a)) ==> address_spec(s@, i as int, intl) matches Some((se, sv)) && e
            == se && a@ == sv && i < e <= s@.len(),
{
    proof {
        lemma_address_bounds(s@, i as int, intl);
    }
    match mailbox5322_at(s, i, intl) {
        Some((e, m)) => Some((e, Address::Mailbox(m))),
        None => {
            match group_at(s, i, intl) {
                Some((e, g)) => Some((e, Address::Group(g))),
                None => None,
            }
        },
    }
}

/// Where the `"," address` tail of an address list ends, scanning from `p`.
pub open spec fn al_tail_end(s: Seq<u8>, p: int, intl: bool) -> int
    decreases s.len() - p,
    when 0 <= p <= s.len() via al_tail_end_dec
{
    if p < s.len() && s[p] == 44 {
        match address_spec(s, p + 1, intl) {
            Some((e, a)) => if p < e <= s.len() {
                al_tail_end(s, e, intl)
            } else {
                p
            },
            None => p,
        }
    } else {
        p
    }
}

#[via_fn]
proof fn al_tail_end_dec(s: Seq<u8>, p: int, intl: bool) {
    if p < s.len() {
        lemma_address_bounds(s, p + 1, intl);
    }
}

/// The addresses of the `"," address` tail starting at `p`.
pub open spec fn al_tail_list(s: Seq<u8>, p: int, intl: bool) -> Seq<AddressView>
    decreases s.len() - p,
    when 0 <= p <= s.len() via al_tail_list_dec
{
    if p < s.len() && s[p] == 44 {
        match address_spec(s, p + 1, intl) {
            Some((e, a)) => if p < e <= s.len() {
                seq![a] + al_tail_list(s, e, intl)
            } else {
                Seq::empty()
            },
            None => Seq::empty(),
        }
    } else {
        Seq::empty()
    }
}

#[via_fn]
proof fn al_tail_list_dec(s: Seq<u8>, p: int, intl: bool) {
    if p < s.len() {
        lemma_address_bounds(s, p + 1, intl);
    }
}

/// What an address list at `i` parses to: addresses separated by commas.
pub open spec fn address_list_spec(s: Seq<u8>, i: int, intl: bool) -> Option<
    (int, Seq<AddressView>),
> {
    match address_spec(s, i, intl) {
        Some((e, a)) => if 0 <= e <= s.len() {
            Some((al_tail_end(s, e, intl), seq![a] + al_tail_list(s, e, intl)))
        } else {
            None
        },
        None => None,
    }
}

proof fn lemma_al_tail_bounds(s: Seq<u8>, p: int, intl: bool)
    requires
        0 <= p <= s.len(),
    ensures
        p <= al_tail_end(s, p, intl) <= s.len(),
    decreases s.len() - p,
{
    if p < s.len() {
        lemma_address_bounds(s, p + 1, intl);
        if s[p] == 44 {
            match address_spec(s, p + 1, intl) {
                Some((e, a)) => {
                    if p < e <= s.len() {
                        lemma_al_tail_bounds(s, e, intl);
                    }
                },
                None => {},
            }
        }
    }
}

/// Parse an address list at `i`.
#[verifier::spinoff_prover]
#[verifier::rlimit(100)]
fn address_list_at(s: &[u8], i: usize, intl: bool) -> (r: Option<(usize, Vec<Address>)>)
    requires
        i <= s@.len(),
    ensures
        r is Some <==> address_list_spec(s@, i as int, intl) is Some,
        r matches Some((e, al)) ==> address_list_spec(s@, i as int, intl) matches Some(
            (se, sv),
        ) && e == se && al.deep_view() == sv && i < e <= s@.len(),
{
    proof {
        lemma_address_bounds(s@, i as int, intl);
    }
    match address_at(s, i, intl) {
        None => None,
        Some((e0, a0)) => {
            proof {
                lemma_al_tail_bounds(s@, e0 as int, intl);
            }
            let mut out: Vec<Address> = Vec::new();
            out.push(a0);
            proof {
                assert(out.deep_view() =~= seq![a0@]);
            }
            let mut p: usize = e0;
            loop
                invariant
                    i < e0 <= p <= s@.len(),
                    al_tail_end(s@, e0 as int, intl) == al_tail_end(s@, p as int, intl),
                    seq![a0@] + al_tail_list(s@, e0 as int, intl) == out.deep_view()
                        + al_tail_list(s@, p as int, intl),
                decreases s@.len() - p,
            {
                proof {
                    if p < s@.len() {
                        lemma_address_bounds(s@, p + 1, intl);
                    }
                }
                if p < s.len() && s[p] == 44 {
                    match address_at(s, p + 1, intl) {
                        Some((e, a)) => {
                            let ghost out_pre = out.deep_view();
                            out.push(a);
                            proof {
                                assert(out.deep_view() =~= out_pre.push(a@));
                                assert(out.deep_view() + al_tail_list(s@, e as int, intl)
                                    =~= out_pre + al_tail_list(s@, p as int, intl));
                            }
                            p = e;
                            continue;
                        },
                        None => {
                            break;
                        },
                    }
                }
                break;
            }
            proof {
                assert(al_tail_list(s@, p as int, intl) =~= Seq::<AddressView>::empty());
                assert(out.deep_view() =~= seq![a0@] + al_tail_list(s@, e0 as int, intl));
            }
            Some((p, out))
        },
    }
}

/// What the content of a `From:` or `Reply-To:` header parses to: an address
/// list with an optional trailing CRLF.
pub open spec fn address_list_crlf_spec(s: Seq<u8>, intl: bool) -> Option<
    (int, Seq<AddressView>),
> {
    match address_list_spec(s, 0, intl) {
        Some((e, al)) => if crlf_at(s, e) {
            Some((e + 2, al))
        } else {
            Some((e, al))
        },
        None => None,
    }
}

/// What the content of a `Sender:` header parses to: one address with an
/// optional trailing CRLF.
pub open spec fn address_crlf_spec(s: Seq<u8>, intl: bool) -> Option<(int, AddressView)> {
    match address_spec(s, 0, intl) {
        Some((e, a)) => if crlf_at(s, e) {
            Some((e + 2, a))
        } else {
            Some((e, a))
        },
        None => None,
    }
}

/// Parse the content of a `From:` header: a list of addresses, since several
/// authors are allowed.
pub fn from<P: UTF8Policy>(i: &[u8]) -> (r: ParseResult<Vec<Address>>)
    ensures
        r is Ok <==> address_list_crlf_spec(i@, P::intl_spec()) is Some,
        r matches Ok((rem, al)) ==> address_list_crlf_spec(i@, P::intl_spec()) matches Some(
            (e, sv),
        ) && al.deep_view() == sv && rem@ == i@.subrange(e, i@.len() as int),
{
    let intl = P::intl();
    match address_list_at(i, 0, intl) {
        Some((e, al)) => {
            if i.len() - e >= 2 && i[e] == 13 && i[e + 1] == 10 {
                Ok((tail_vec(i, e + 2), al))
            } else {
                Ok((tail_vec(i, e), al))
            }
        },
        None => Err(ParseError),
    }
}

/// Parse the content of a `Reply-To:` header: a list of addresses.
pub fn reply_to<P: UTF8Policy>(i: &[u8]) -> (r: ParseResult<Vec<Address>>)
    ensures
        r is Ok <==> address_list_crlf_spec(i@, P::intl_spec()) is Some,
        r matches Ok((rem, al)) ==> address_list_crlf_spec(i@, P::intl_spec()) matches Some(
            (e, sv),
        ) && al.deep_view() == sv && rem@ == i@.subrange(e, i@.len() as int),
{
    from::<P>(i)
}

/// Parse the content of a `Sender:` header: a single address.
pub fn sender<P: UTF8Policy>(i: &[u8]) -> (r: ParseResult<Address>)
    ensures
        r is Ok <==> address_crlf_spec(i@, P::intl_spec()) is Some,
        r matches Ok((rem, a)) ==> address_crlf_spec(i@, P::intl_spec()) matches Some((e, sv))
            && a@ == sv && rem@ == i@.subrange(e, i@.len() as int),
{
    let intl = P::intl();
    match address_at(i, 0, intl) {
        Some((e, a)) => {
            if i.len() - e >= 2 && i[e] == 13 && i[e + 1] == 10 {
                Ok((tail_vec(i, e + 2), a))
            } else {
                Ok((tail_vec(i, e), a))
            }
        },
        None => Err(ParseError),
    }
}

/// The end and text of the chain of further encoded words after one ended at
/// `j`: each separated from the last by folding whitespace, their decodings
/// joined with nothing in between.
pub open spec fn ew_chain_end(s: Seq<u8>, j: int, intl: bool) -> int
    decreases s.len() - j,
    when 0 <= j <= s.len() via ew_chain_end_dec
{
    match fws_end(s, j) {
        Some(f2) => {
            if f2 <= s.len() && crate::rfc2047::ew_spec(s, f2) is Some {
                match crate::rfc2047::ew_spec(s, f2) {
                    Some((j2, t2)) => if j < j2 <= s.len() {
                        ew_chain_end(s, j2, intl)
                    } else {
                        j
                    },
                    None => j,
                }
            } else {
                j
            }
        },
        None => j,
    }
}

#[via_fn]
proof fn ew_chain_end_dec(s: Seq<u8>, j: int, intl: bool) {
    lemma_fws_bounds(s, j);
}

/// The text the encoded-word chain after `j` contributes.
pub open spec fn ew_chain_text(s: Seq<u8>, j: int, intl: bool) -> Seq<char>
    decreases s.len() - j,
    when 0 <= j <= s.len() via ew_chain_text_dec
{
    match fws_end(s, j) {
        Some(f2) => {
            if f2 <= s.len() && crate::rfc2047::ew_spec(s, f2) is Some {
                match crate::rfc2047::ew_spec(s, f2) {
                    Some((j2, t2)) => if j < j2 <= s.len() {
                        t2 + ew_chain_text(s, j2, intl)
                    } else {
                        Seq::empty()
                    },
                    None => Seq::empty(),
                }
            } else {
                Seq::empty()
            }
        },
        None => Seq::empty(),
    }
}

#[via_fn]
proof fn ew_chain_text_dec(s: Seq<u8>, j: int, intl: bool) {
    lemma_fws_bounds(s, j);
}

/// Where the unstructured text starting at `p` ends: runs of encoded words
/// (joined without their separating whitespace) and runs of printable or
/// 8-bit text, each preceded by folding whitespace, then trailing plain
/// whitespace.
pub open spec fn unstructured_end(s: Seq<u8>, p: int, intl: bool) -> int
    decreases s.len() - p,
    when 0 <= p <= s.len() via unstructured_end_dec
{
    let f = ofws_end(s, p);
    if 0 <= f <= s.len() && crate::rfc2047::ew_spec(s, f) is Some {
        match crate::rfc2047::ew_spec(s, f) {
            Some((j, t)) => {
                if p < j <= s.len() {
                    let ce = ew_chain_end(s, j, intl);
                    if p < ce <= s.len() {
                        unstructured_end(s, ce, intl)
                    } else {
                        p
                    }
                } else {
                    p
                }
            },
            None => p,
        }
    } else if unit_len(s, f, Cls::Vchar, intl, true) > 0 {
        let r = run_end(s, f, Cls::Vchar, intl, true);
        if p < r <= s.len() {
            unstructured_end(s, r, intl)
        } else {
            p
        }
    } else {
        scan_end(s, p, Cls::Wsp)
    }
}

#[via_fn]
proof fn unstructured_end_dec(s: Seq<u8>, p: int, intl: bool) {
    lemma_fws_bounds(s, p);
}

proof fn lemma_ew_chain_bounds(s: Seq<u8>, j: int, intl: bool)
    requires
        0 <= j <= s.len(),
    ensures
        j <= ew_chain_end(s, j, intl) <= s.len(),
    decreases s.len() - j,
{
    lemma_fws_bounds(s, j);
    match fws_end(s, j) {
        Some(f2) => {
            if f2 <= s.len() {
                match crate::rfc2047::ew_spec(s, f2) {
                    Some((j2, t2)) => {
                        if j < j2 <= s.len() {
                            lemma_ew_chain_bounds(s, j2, intl);
                        }
                    },
                    None => {},
                }
            }
        },
        None => {},
    }
}

/// The text the unstructured run starting at `p` decodes to.
pub open spec fn unstructured_text(s: Seq<u8>, p: int, intl: bool) -> Seq<char>
    decreases s.len() - p,
    when 0 <= p <= s.len() via unstructured_text_dec
{
    let f = ofws_end(s, p);
    if 0 <= f <= s.len() && crate::rfc2047::ew_spec(s, f) is Some {
        match crate::rfc2047::ew_spec(s, f) {
            Some((j, t)) => {
                if p < j <= s.len() {
                    let ce = ew_chain_end(s, j, intl);
                    if p < ce <= s.len() {
                        decode_utf8(ofws_text(s, p)) + t + ew_chain_text(s, j, intl)
                            + unstructured_text(s, ce, intl)
                    } else {
                        Seq::empty()
                    }
                } else {
                    Seq::empty()
                }
            },
            None => Seq::empty(),
        }
    } else if unit_len(s, f, Cls::Vchar, intl, true) > 0 {
        let r = run_end(s, f, Cls::Vchar, intl, true);
        if p < r <= s.len() {
            decode_utf8(ofws_text(s, p)) + decode_utf8(run_text(s, f, Cls::Vchar, intl, true))
                + unstructured_text(s, r, intl)
        } else {
            Seq::empty()
        }
    } else {
        decode_utf8(s.subrange(p, scan_end(s, p, Cls::Wsp)))
    }
}

#[via_fn]
proof fn unstructured_text_dec(s: Seq<u8>, p: int, intl: bool) {
    lemma_fws_bounds(s, p);
}

proof fn lemma_unstructured_bounds(s: Seq<u8>, p: int, intl: bool)
    requires
        0 <= p <= s.len(),
    ensures
        p <= unstructured_end(s, p, intl) <= s.len(),
    decreases s.len() - p,
{
    lemma_fws_bounds(s, p);
    let f = ofws_end(s, p);
    crate::rfc2047::lemma_ew_bounds(s, f);
    crate::util::lemma_run_end_bounds_pub(s, f, Cls::Vchar, intl, true);
    crate::util::lemma_scan_end_pub(s, p, Cls::Wsp);
    match crate::rfc2047::ew_spec(s, f) {
        Some((j, t)) => {
            if p < j <= s.len() {
                lemma_ew_chain_bounds(s, j, intl);
                let ce = ew_chain_end(s, j, intl);
                if p < ce <= s.len() {
                    lemma_unstructured_bounds(s, ce, intl);
                }
            }
        },
        None => {
            let r = run_end(s, f, Cls::Vchar, intl, true);
            if unit_len(s, f, Cls::Vchar, intl, true) > 0 && p < r <= s.len() {
                lemma_unstructured_bounds(s, r, intl);
            }
        },
    }
}

/// Parse an unstructured header body, such as a `Subject:` line, starting at
/// the front of the input.
///
/// Returns the fully decoded text: embedded encoded words are decoded, runs
/// of adjacent encoded words are joined without their separating whitespace,
/// other text passes through with line folds dropped, and bytes that fit no
/// accepted form are replaced.  This parse has no failing case: every input
/// yields a result.
#[verifier::rlimit(100)]
pub fn unstructured<P: UTF8Policy>(input: &[u8]) -> (r: ParseResult<String>)
    ensures
        r is Ok,
        r matches Ok((rem, v)) ==> v@ == unstructured_text(input@, 0, P::intl_spec()) && rem@
            == input@.subrange(
            unstructured_end(input@, 0, P::intl_spec()),
            input@.len() as int,
        ),
{
    let intl = P::intl();
    let s = input;
    let n = s.len();
    let mut out: String = String::new();
    let mut p: usize = 0;
    loop
        invariant
            0 <= p <= n == s@.len(),
            unstructured_end(s@, 0, intl) == unstructured_end(s@, p as int, intl),
            unstructured_text(s@, 0, intl) == out@ + unstructured_text(s@, p as int, intl),
        decreases n - p,
    {
        proof {
            lemma_fws_bounds(s@, p as int);
            lemma_fws_text_valid(s@, p as int);
            lemma_unstructured_bounds(s@, p as int, intl);
        }
        let ghost out_pre = out@;
        let mut fbuf: Vec<u8> = Vec::new();
        let f = ofws(s, p, &mut fbuf);
        match crate::rfc2047::encoded_word_at(s, f) {
            Some((j, t)) => {
                out.append(string_from_utf8(fbuf).as_str());
                out.append(t.as_str());
                proof {
                    lemma_ew_chain_bounds(s@, j as int, intl);
                }
                let mut j2: usize = j;
                loop
                    invariant
                        p < j <= j2 <= n == s@.len(),
                        ew_chain_end(s@, j as int, intl) == ew_chain_end(s@, j2 as int, intl),
                        out_pre + decode_utf8(ofws_text(s@, p as int)) + t@ + ew_chain_text(
                            s@,
                            j as int,
                            intl,
                        ) == out@ + ew_chain_text(s@, j2 as int, intl),
                    decreases n - j2,
                {
                    proof {
                        lemma_fws_bounds(s@, j2 as int);
                        lemma_ew_chain_bounds(s@, j2 as int, intl);
                    }
                    let mut scratch: Vec<u8> = Vec::new();
                    match fws(s, j2, &mut scratch) {
                        Some(f2) => {
                            match crate::rfc2047::encoded_word_at(s, f2) {
                                Some((j3, t3)) => {
                                    out.append(t3.as_str());
                                    proof {
                                        assert(out@ + ew_chain_text(s@, j3 as int, intl)
                                            =~= out_pre + decode_utf8(ofws_text(s@, p as int))
                                            + t@ + ew_chain_text(s@, j as int, intl));
                                    }
                                    j2 = j3;
                                },
                                None => {
                                    break;
                                },
                            }
                        },
                        None => {
                            break;
                        },
                    }
                }
                proof {
                    assert(ew_chain_text(s@, j2 as int, intl) =~= Seq::<char>::empty());
                    assert(out@ =~= out_pre + (decode_utf8(ofws_text(s@, p as int)) + t@
                        + ew_chain_text(s@, j as int, intl)));
                    assert(out@ + unstructured_text(s@, j2 as int, intl) =~= out_pre
                        + unstructured_text(s@, p as int, intl));
                }
                p = j2;
            },
            None => {
                let mut tbuf: Vec<u8> = Vec::new();
                let r = text_run(s, f, Cls::Vchar, intl, true, &mut tbuf);
                if r > f {
                    proof {
                        crate::util::lemma_run_text_valid(s@, f as int, Cls::Vchar, intl, true);
                    }
                    out.append(string_from_utf8(fbuf).as_str());
                    out.append(string_from_utf8(tbuf).as_str());
                    proof {
                        assert(out@ =~= out_pre + (decode_utf8(ofws_text(s@, p as int))
                            + decode_utf8(run_text(s@, f as int, Cls::Vchar, intl, true))));
                        assert(out@ + unstructured_text(s@, r as int, intl) =~= out_pre
                            + unstructured_text(s@, p as int, intl));
                    }
                    p = r;
                } else {
                    proof {
                        crate::util::lemma_scan_end_pub(s@, p as int, Cls::Wsp);
                    }
                    let w = scan(s, p, Cls::Wsp);
                    proof {
                        assert(forall|m: int| p <= m < w ==> #[trigger] s@[m] < 0x80);
                        crate::util::lemma_ascii_seq_valid(s@.subrange(p as int, w as int));
                    }
                    out.append(string_from_utf8(sub_vec(s, p, w)).as_str());
                    proof {
                        assert(crate::rfc2047::ew_spec(s@, f as int) is None);
                        crate::util::lemma_unit_len_bound(s@, f as int, Cls::Vchar, intl, true);
                        assert(unit_len(s@, f as int, Cls::Vchar, intl, true) == 0);
                        assert(unstructured_end(s@, p as int, intl) == scan_end(
                            s@,
                            p as int,
                            Cls::Wsp,
                        ));
                        assert(unstructured_text(s@, p as int, intl) == decode_utf8(
                            s@.subrange(p as int, w as int),
                        ));
                        assert(out@ =~= unstructured_text(s@, 0, intl));
                        assert(unstructured_end(s@, 0, intl) == w as int);
                    }
                    return Ok((tail_vec(s, w), out));
                }
            },
        }
    }
}
} // verus!

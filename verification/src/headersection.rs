//! Robust splitter that extracts the header section from a mail message.
//!
//! Headers are separated by CRLF; the splitter is loosely based on RFC 5322
//! but tolerates bytes above 127, embedded NUL bytes, and lone CR or LF.  A
//! line that does not parse as `name ":" value` is handed back whole as an
//! [`HeaderField::Invalid`] line, so the splitter makes progress on any input
//! and never fails.  The header section ends at a blank line, whose CRLF is
//! consumed; end of input may stand in for a final CRLF.

use vstd::prelude::*;

use crate::util::Cls;
use crate::util::ParseError;
use crate::util::cls_spec;
use crate::util::scan;
use crate::util::scan_end;
use crate::util::tail_vec;
use vstd::slice::slice_subrange;
use vstd::slice::slice_to_vec;

verus! {

/// One split header line.
#[derive(Clone, Debug, PartialEq, Eq)]
pub enum HeaderField {
    /// A line of the shape `name ":" value`, terminated by CRLF or end of
    /// input. `name` holds printable US-ASCII except the colon; `value` may
    /// hold anything, including a CRLF that is immediately followed by
    /// whitespace (a folded line).
    Valid {
        /// The field name, the bytes before the first colon.
        name: Vec<u8>,
        /// The field value, the bytes between the colon and the terminator.
        value: Vec<u8>,
    },
    /// A line with no colon after a leading name run: handed back exactly as
    /// it appeared, without its terminator.
    Invalid {
        /// The raw bytes of the line.
        raw: Vec<u8>,
    },
}

/// Specification-level form of a [`HeaderField`].
pub enum HeaderFieldView {
    /// Mirror of [`HeaderField::Valid`].
    Valid {
        /// The field name bytes.
        name: Seq<u8>,
        /// The field value bytes.
        value: Seq<u8>,
    },
    /// Mirror of [`HeaderField::Invalid`].
    Invalid {
        /// The raw line bytes.
        raw: Seq<u8>,
    },
}

impl View for HeaderField {
    type V = HeaderFieldView;

    open spec fn view(&self) -> HeaderFieldView {
        match self {
            HeaderField::Valid { name, value } => HeaderFieldView::Valid {
                name: name@,
                value: value@,
            },
            HeaderField::Invalid { raw } => HeaderFieldView::Invalid { raw: raw@ },
        }
    }
}

impl DeepView for HeaderField {
    type V = HeaderFieldView;

    open spec fn deep_view(&self) -> HeaderFieldView {
        self.view()
    }
}

/// The CRLF pair as a byte sequence.
pub open spec fn crlf_seq() -> Seq<u8> {
    seq![13u8, 10u8]
}

/// A CRLF pair sits at position `i` of `s`.
pub open spec fn crlf_at(s: Seq<u8>, i: int) -> bool {
    0 <= i && i + 2 <= s.len() && s[i] == 13 && s[i + 1] == 10
}

/// The first position at or after `i` where a CRLF pair begins, or the length
/// of `s` when there is none.
pub open spec fn find_crlf(s: Seq<u8>, i: int) -> int
    decreases s.len() - i,
    when 0 <= i <= s.len()
{
    if i >= s.len() {
        s.len() as int
    } else if crlf_at(s, i) {
        i
    } else {
        find_crlf(s, i + 1)
    }
}

proof fn lemma_find_crlf(s: Seq<u8>, i: int)
    requires
        0 <= i <= s.len(),
    ensures
        i <= find_crlf(s, i) <= s.len(),
        crlf_at(s, find_crlf(s, i)) || find_crlf(s, i) == s.len(),
        forall|k: int| i <= k < find_crlf(s, i) ==> !crlf_at(s, k),
    decreases s.len() - i,
{
    if i < s.len() && !crlf_at(s, i) {
        lemma_find_crlf(s, i + 1);
    }
}

/// Where a header value that starts at `v` ends: at the first CRLF that is
/// not immediately followed by whitespace, or at the end of input.  A CRLF
/// followed by a space or tab folds the next line into the value.
pub open spec fn value_end(s: Seq<u8>, v: int) -> int
    decreases s.len() - v,
    when 0 <= v <= s.len() via value_end_dec
{
    let j = find_crlf(s, v);
    if j == s.len() {
        s.len() as int
    } else if j + 2 < s.len() && cls_spec(Cls::Wsp, s[j + 2]) {
        value_end(s, j + 2)
    } else {
        j
    }
}

#[via_fn]
proof fn value_end_dec(s: Seq<u8>, v: int) {
    lemma_find_crlf(s, v);
}

proof fn lemma_value_end(s: Seq<u8>, v: int)
    requires
        0 <= v <= s.len(),
    ensures
        v <= value_end(s, v) <= s.len(),
        value_end(s, v) == s.len() || crlf_at(s, value_end(s, v)),
    decreases s.len() - v,
{
    lemma_find_crlf(s, v);
    let j = find_crlf(s, v);
    if j != s.len() && j + 2 < s.len() && cls_spec(Cls::Wsp, s[j + 2]) {
        lemma_value_end(s, j + 2);
    }
}

/// Whether the line starting at `i` splits as `name ":" value`: a non-empty
/// run of name bytes followed directly by a colon.
pub open spec fn line_is_field(s: Seq<u8>, i: int) -> bool {
    let k = scan_end(s, i, Cls::HdrName);
    k > i && k < s.len() && s[k] == 58
}

/// The position right after the field that starts at `i` (its terminating
/// CRLF included when present).
pub open spec fn field_next(s: Seq<u8>, i: int) -> int {
    if line_is_field(s, i) {
        let k = scan_end(s, i, Cls::HdrName);
        let e = value_end(s, k + 1);
        e + if crlf_at(s, e) {
            2int
        } else {
            0int
        }
    } else {
        let e = find_crlf(s, i);
        e + if crlf_at(s, e) {
            2int
        } else {
            0int
        }
    }
}

/// The field value that the line starting at `i` splits into.
pub open spec fn field_at(s: Seq<u8>, i: int) -> HeaderFieldView {
    if line_is_field(s, i) {
        let k = scan_end(s, i, Cls::HdrName);
        let e = value_end(s, k + 1);
        HeaderFieldView::Valid { name: s.subrange(i, k), value: s.subrange(k + 1, e) }
    } else {
        let e = find_crlf(s, i);
        HeaderFieldView::Invalid { raw: s.subrange(i, e) }
    }
}

/// The field starting at `i` ends with an explicit CRLF (rather than at the
/// end of input).
pub open spec fn field_terminated(s: Seq<u8>, i: int) -> bool {
    if line_is_field(s, i) {
        crlf_at(s, value_end(s, scan_end(s, i, Cls::HdrName) + 1))
    } else {
        crlf_at(s, find_crlf(s, i))
    }
}

proof fn lemma_field_step(s: Seq<u8>, i: int)
    requires
        0 <= i < s.len(),
        !crlf_at(s, i),
    ensures
        i < field_next(s, i) <= s.len(),
{
    crate::util::lemma_scan_end_pub(s, i, Cls::HdrName);
    lemma_find_crlf(s, i);
    if line_is_field(s, i) {
        let k = scan_end(s, i, Cls::HdrName);
        lemma_value_end(s, k + 1);
    }
}

/// Where the field recursion stops: the first position, walking field by
/// field from `i`, that is the end of input or the start of a blank line.
pub open spec fn stop_pos(s: Seq<u8>, i: int) -> int
    decreases s.len() - i,
    when 0 <= i <= s.len() via stop_pos_dec
{
    if i >= s.len() || crlf_at(s, i) {
        i
    } else {
        stop_pos(s, field_next(s, i))
    }
}

#[via_fn]
proof fn stop_pos_dec(s: Seq<u8>, i: int) {
    if !(i >= s.len() || crlf_at(s, i)) {
        lemma_field_step(s, i);
    }
}

/// Everything the splitter consumes from position `i` on: the fields up to
/// the stop position, plus the blank line's CRLF when one is present.
pub open spec fn section_end(s: Seq<u8>, i: int) -> int
    decreases s.len() - i,
    when 0 <= i <= s.len() via section_end_dec
{
    if i >= s.len() {
        i
    } else if crlf_at(s, i) {
        i + 2
    } else {
        section_end(s, field_next(s, i))
    }
}

#[via_fn]
proof fn section_end_dec(s: Seq<u8>, i: int) {
    if !(i >= s.len() || crlf_at(s, i)) {
        lemma_field_step(s, i);
    }
}

/// The fields the splitter returns from position `i` on.
pub open spec fn section_fields(s: Seq<u8>, i: int) -> Seq<HeaderFieldView>
    decreases s.len() - i,
    when 0 <= i <= s.len() via section_fields_dec
{
    if i >= s.len() || crlf_at(s, i) {
        seq![]
    } else {
        seq![field_at(s, i)] + section_fields(s, field_next(s, i))
    }
}

#[via_fn]
proof fn section_fields_dec(s: Seq<u8>, i: int) {
    if !(i >= s.len() || crlf_at(s, i)) {
        lemma_field_step(s, i);
    }
}

/// Every field from `i` to the stop position carries an explicit CRLF.
pub open spec fn all_terminated(s: Seq<u8>, i: int) -> bool
    decreases s.len() - i,
    when 0 <= i <= s.len() via all_terminated_dec
{
    if i >= s.len() || crlf_at(s, i) {
        true
    } else {
        field_terminated(s, i) && all_terminated(s, field_next(s, i))
    }
}

#[via_fn]
proof fn all_terminated_dec(s: Seq<u8>, i: int) {
    if !(i >= s.len() || crlf_at(s, i)) {
        lemma_field_step(s, i);
    }
}

proof fn lemma_stop_end(s: Seq<u8>, i: int)
    requires
        0 <= i <= s.len(),
    ensures
        i <= stop_pos(s, i) <= section_end(s, i) <= s.len(),
        section_end(s, i) == stop_pos(s, i) + if crlf_at(s, stop_pos(s, i)) {
            2int
        } else {
            0int
        },
    decreases s.len() - i,
{
    if i >= s.len() || crlf_at(s, i) {
    } else {
        lemma_field_step(s, i);
        lemma_stop_end(s, field_next(s, i));
    }
}

/// The bytes a single split field stands for: `name ":" value`, or the raw
/// invalid line.
pub open spec fn hf_bytes(f: HeaderFieldView) -> Seq<u8> {
    match f {
        HeaderFieldView::Valid { name, value } => name + seq![58u8] + value,
        HeaderFieldView::Invalid { raw } => raw,
    }
}

/// The bytes of a field list, a CRLF after each field.
pub open spec fn cat_fields(fs: Seq<HeaderFieldView>) -> Seq<u8>
    decreases fs.len(),
{
    if fs.len() == 0 {
        seq![]
    } else {
        hf_bytes(fs[0]) + crlf_seq() + cat_fields(fs.drop_first())
    }
}

proof fn lemma_field_bytes(s: Seq<u8>, i: int)
    requires
        0 <= i < s.len(),
        !crlf_at(s, i),
    ensures
        s.subrange(i, field_next(s, i)) =~= hf_bytes(field_at(s, i)) + (if field_terminated(
            s,
            i,
        ) {
            crlf_seq()
        } else {
            Seq::<u8>::empty()
        }),
{
    crate::util::lemma_scan_end_pub(s, i, Cls::HdrName);
    lemma_find_crlf(s, i);
    if line_is_field(s, i) {
        let k = scan_end(s, i, Cls::HdrName);
        lemma_value_end(s, k + 1);
        assert(s[k] == 58);
    }
}

/// The bytes the returned fields stand for, each with its own terminator: a
/// CRLF after every field that had one, nothing after a field that the end
/// of input terminated.
pub open spec fn glued_fields(s: Seq<u8>, i: int) -> Seq<u8>
    decreases s.len() - i,
    when 0 <= i <= s.len() via glued_fields_dec
{
    if i >= s.len() || crlf_at(s, i) {
        seq![]
    } else {
        hf_bytes(field_at(s, i)) + (if field_terminated(s, i) {
            crlf_seq()
        } else {
            Seq::<u8>::empty()
        }) + glued_fields(s, field_next(s, i))
    }
}

#[via_fn]
proof fn glued_fields_dec(s: Seq<u8>, i: int) {
    if !(i >= s.len() || crlf_at(s, i)) {
        lemma_field_step(s, i);
    }
}

/// Round-trip containment for every input, blank line or end of input alike:
/// the consumed part of the input is exactly the returned fields' bytes with
/// each field's own terminator, plus the blank line's CRLF when one ends the
/// section.  Only the last field can lack a terminator, and only when the
/// input ends inside it.
pub proof fn lemma_header_section_reconstruct(s: Seq<u8>, i: int)
    requires
        0 <= i <= s.len(),
    ensures
        s.subrange(i, section_end(s, i)) =~= glued_fields(s, i) + (if crlf_at(
            s,
            stop_pos(s, i),
        ) {
            crlf_seq()
        } else {
            Seq::<u8>::empty()
        }),
    decreases s.len() - i,
{
    lemma_stop_end(s, i);
    if i >= s.len() || crlf_at(s, i) {
    } else {
        lemma_field_step(s, i);
        let n = field_next(s, i);
        lemma_field_bytes(s, i);
        lemma_header_section_reconstruct(s, n);
        lemma_stop_end(s, n);
        assert(s.subrange(i, section_end(s, i)) =~= s.subrange(i, n) + s.subrange(
            n,
            section_end(s, n),
        ));
    }
}

/// Round-trip containment: when every field of the section is explicitly
/// CRLF-terminated, concatenating `name`, `":"`, `value` (or `raw`) and the
/// terminating CRLF of every returned field, plus the blank line's CRLF when
/// one ends the section, reproduces the consumed part of the input exactly.
pub proof fn lemma_header_section_round_trip(s: Seq<u8>, i: int)
    requires
        0 <= i <= s.len(),
        all_terminated(s, i),
    ensures
        s.subrange(i, section_end(s, i)) =~= cat_fields(section_fields(s, i)) + if crlf_at(
            s,
            stop_pos(s, i),
        ) {
            crlf_seq()
        } else {
            Seq::<u8>::empty()
        },
    decreases s.len() - i,
{
    lemma_stop_end(s, i);
    if i >= s.len() || crlf_at(s, i) {
        assert(section_fields(s, i) =~= Seq::<HeaderFieldView>::empty());
    } else {
        lemma_field_step(s, i);
        let n = field_next(s, i);
        lemma_field_bytes(s, i);
        lemma_header_section_round_trip(s, n);
        lemma_stop_end(s, n);
        assert(section_fields(s, i).drop_first() =~= section_fields(s, n));
        assert(s.subrange(i, section_end(s, i)) =~= s.subrange(i, n) + s.subrange(
            n,
            section_end(s, n),
        ));
    }
}

/// The whole input is always accounted for: the consumed prefix and the
/// remainder partition the input, whatever the bytes are.
pub proof fn lemma_header_section_total(s: Seq<u8>)
    ensures
        0 <= section_end(s, 0) <= s.len(),
        section_end(s, 0) + (s.len() - section_end(s, 0)) == s.len(),
{
    lemma_stop_end(s, 0);
}

fn find_crlf_exec(s: &[u8], i: usize) -> (j: usize)
    requires
        i <= s@.len(),
    ensures
        j == find_crlf(s@, i as int),
        i <= j <= s@.len(),
{
    proof {
        lemma_find_crlf(s@, i as int);
    }
    let n = s.len();
    let mut j: usize = i;
    while !(j >= n || (n - j >= 2 && s[j] == 13 && s[j + 1] == 10))
        invariant
            i <= j <= n == s@.len(),
            find_crlf(s@, i as int) == find_crlf(s@, j as int),
        decreases s@.len() - j,
    {
        j += 1;
    }
    j
}

fn value_end_exec(s: &[u8], v: usize) -> (e: usize)
    requires
        v <= s@.len(),
    ensures
        e == value_end(s@, v as int),
        v <= e <= s@.len(),
{
    proof {
        lemma_value_end(s@, v as int);
    }
    let n = s.len();
    let mut p: usize = v;
    loop
        invariant
            v <= p <= n == s@.len(),
            value_end(s@, v as int) == value_end(s@, p as int),
        decreases s@.len() - p,
    {
        let j = find_crlf_exec(s, p);
        if j == n {
            return n;
        }
        if n - j > 2 && (s[j + 2] == 32 || s[j + 2] == 9) {
            proof {
                lemma_find_crlf(s@, p as int);
            }
            p = j + 2;
        } else {
            return j;
        }
    }
}

fn copy_range(s: &[u8], a: usize, b: usize) -> (r: Vec<u8>)
    requires
        a <= b <= s@.len(),
    ensures
        r@ == s@.subrange(a as int, b as int),
{
    slice_to_vec(slice_subrange(s, a, b))
}

/// Split a message's header section.
///
/// Returns the remainder (the body, following the blank line when one is
/// present) and the split header fields.  This function accepts every byte
/// sequence: each line either splits as `name ":" value` or is handed back
/// as an [`HeaderField::Invalid`] line, so nothing is lost and nothing stops
/// the walk.
pub fn header_section(input: &[u8]) -> (r: (Vec<u8>, Vec<HeaderField>))
    ensures
        r.1.deep_view() == section_fields(input@, 0),
        r.0@ == input@.subrange(section_end(input@, 0), input@.len() as int),
{
    let n = input.len();
    let mut fields: Vec<HeaderField> = Vec::new();
    let mut i: usize = 0;
    loop
        invariant
            i <= n == input@.len(),
            section_fields(input@, 0) =~= fields.deep_view() + section_fields(input@, i as int),
            section_end(input@, 0) == section_end(input@, i as int),
        decreases n - i,
    {
        if i >= n {
            break;
        }
        if n - i >= 2 && s_at(input, i) == 13 && s_at(input, i + 1) == 10 {
            i += 2;
            break;
        }
        proof {
            lemma_field_step(input@, i as int);
        }
        let ghost fields_pre = fields.deep_view();
        let k = scan(input, i, Cls::HdrName);
        let next: usize;
        if k > i && k < n && s_at(input, k) == 58 {
            let e = value_end_exec(input, k + 1);
            let name = copy_range(input, i, k);
            let value = copy_range(input, k + 1, e);
            fields.push(HeaderField::Valid { name, value });
            proof {
                lemma_value_end(input@, k + 1);
            }
            if n - e >= 2 {
                next = e + 2;
            } else {
                next = e;
            }
        } else {
            let e = find_crlf_exec(input, i);
            let raw = copy_range(input, i, e);
            fields.push(HeaderField::Invalid { raw });
            proof {
                lemma_find_crlf(input@, i as int);
            }
            if e < n {
                next = e + 2;
            } else {
                next = e;
            }
        }
        proof {
            assert(fields.deep_view() =~= fields_pre + seq![field_at(input@, i as int)]);
            assert(fields.deep_view() + section_fields(input@, next as int) =~= fields_pre + (seq![
                field_at(input@, i as int),
            ] + section_fields(input@, next as int)));
        }
        i = next;
    }
    let rem = tail_vec(input, i);
    (rem, fields)
}

/// Split a single header line.
///
/// Returns `None` in place of a field when the input begins with a bare CRLF
/// (the blank line that ends a header section); fails only on empty input.
pub fn header(input: &[u8]) -> (r: Result<(Vec<u8>, Option<HeaderField>), ParseError>)
    ensures
        r is Err <==> input@.len() == 0,
        r matches Ok((rem, f)) ==> {
            &&& crlf_at(input@, 0) ==> f is None && rem@ == input@.subrange(
                2,
                input@.len() as int,
            )
            &&& !crlf_at(input@, 0) ==> (f matches Some(hf) && hf@ == field_at(input@, 0))
                && rem@ == input@.subrange(
                field_next(input@, 0),
                input@.len() as int,
            )
        },
{
    let n = input.len();
    if n == 0 {
        return Err(ParseError);
    }
    if n >= 2 && s_at(input, 0) == 13 && s_at(input, 1) == 10 {
        return Ok((tail_vec(input, 2), None));
    }
    proof {
        lemma_field_step(input@, 0);
    }
    let k = scan(input, 0, Cls::HdrName);
    if k > 0 && k < n && s_at(input, k) == 58 {
        let e = value_end_exec(input, k + 1);
        let name = copy_range(input, 0, k);
        let value = copy_range(input, k + 1, e);
        proof {
            lemma_value_end(input@, k + 1);
        }
        let next: usize = if n - e >= 2 {
            e + 2
        } else {
            e
        };
        Ok((tail_vec(input, next), Some(HeaderField::Valid { name, value })))
    } else {
        let e = find_crlf_exec(input, 0);
        let raw = copy_range(input, 0, e);
        proof {
            lemma_find_crlf(input@, 0);
        }
        let next: usize = if e < n {
            e + 2
        } else {
            e
        };
        Ok((tail_vec(input, next), Some(HeaderField::Invalid { raw })))
    }
}

fn s_at(s: &[u8], i: usize) -> (b: u8)
    requires
        i < s@.len(),
    ensures
        b == s@[i as int],
{
    s[i]
}

} // verus!

//! The core ABNF primitives of RFC 5234 that other grammars share.

use vstd::prelude::*;

use crate::util::Cls;
use crate::util::ParseError;
use crate::util::ParseResult;
use crate::util::cls_has;
use crate::util::cls_spec;
use crate::util::sub_vec;
use crate::util::tail_vec;

verus! {

/// Parse one visible printing character (`0x21` to `0x7e`) at the front of
/// the input.
///
/// Returns the byte and the input after it; fails on anything else.
pub fn vchar(input: &[u8]) -> (r: ParseResult<u8>)
    ensures
        r is Ok <==> input@.len() > 0 && cls_spec(Cls::Vchar, input@[0]),
        r matches Ok((rem, b)) ==> b == input@[0] && rem@ == input@.subrange(
            1,
            input@.len() as int,
        ),
{
    if input.len() > 0 && cls_has(Cls::Vchar, input[0]) {
        Ok((tail_vec(input, 1), input[0]))
    } else {
        Err(ParseError)
    }
}

/// Parse a CRLF pair at the front of the input.
///
/// Returns the two matched bytes and the input after them.
pub fn crlf(input: &[u8]) -> (r: ParseResult<Vec<u8>>)
    ensures
        r is Ok <==> input@.len() >= 2 && input@[0] == 13 && input@[1] == 10,
        r matches Ok((rem, m)) ==> m@ == input@.subrange(0, 2) && rem@ == input@.subrange(
            2,
            input@.len() as int,
        ),
{
    if input.len() >= 2 && input[0] == 13 && input[1] == 10 {
        Ok((tail_vec(input, 2), sub_vec(input, 0, 2)))
    } else {
        Err(ParseError)
    }
}

} // verus!

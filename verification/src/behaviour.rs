//! Types used for varying parser behaviour.
//!
//! The grammars accept either strict 7-bit text with a few explicit 8-bit
//! escape points ([`Legacy`]) or additionally well-formed multi-byte UTF-8
//! wherever a legacy 8-bit byte would be tolerated ([`Intl`]).  The policy is
//! chosen once per top-level parse call and applies to every nested
//! primitive of that call.

use vstd::prelude::*;

verus! {

/// Selects how the lexical primitives treat bytes above 127.
pub trait UTF8Policy {
    /// Whether well-formed multi-byte UTF-8 is accepted where the grammar
    /// tolerates 8-bit bytes.
    spec fn intl_spec() -> bool;

    /// Exec twin of [`UTF8Policy::intl_spec`].
    fn intl() -> (r: bool)
        ensures
            r == Self::intl_spec(),
    ;
}

/// Octets above 127 are replaced by a replacement character.
pub struct Legacy;

/// Octets above 127 are interpreted as UTF-8.
///
/// Activates message/global (RFC 6532) support for message content and
/// SMTPUTF8 support for SMTP.
pub struct Intl;

impl UTF8Policy for Legacy {
    open spec fn intl_spec() -> bool {
        false
    }

    fn intl() -> (r: bool) {
        false
    }
}

impl UTF8Policy for Intl {
    open spec fn intl_spec() -> bool {
        true
    }

    fn intl() -> (r: bool) {
        true
    }
}

} // verus!

//! Tolerant parsers for Internet mail formats.
//!
//! The crate splits raw message bytes into header fields, parses RFC 5322
//! addresses, decodes RFC 2047 encoded words and RFC 2231 extended MIME
//! parameters, and parses RFC 5321 SMTP commands together with the DSN and
//! XFORWARD extension grammars.  Every parser consumes from the front of its
//! input and reports exactly how much input is left over; malformed input is
//! degraded to a lenient result instead of a crash wherever one of the RFCs
//! leaves room for it.
#![verifier::loop_isolation(false)]

pub mod behaviour;
pub mod util;
pub mod rfc5234;
pub mod headersection;
pub mod rfc3461;
pub mod types;
pub mod rfc2047;
pub mod rfc5321;
pub mod rfc5322;
pub mod rfc2231;
pub mod xforward;

//! A DER-style tag-length-value (TLV) codec.
//!
//! The crate offers three layers:
//! - a bounded byte region (`region`) for owned byte ranges, and a TLV
//!   cursor (`reader`) that walks a buffer one tag-length-value unit at a
//!   time, with nested scopes whose boundaries are enforced exactly,
//! - a canonical unsigned-integer codec (`uint`) and deferred-decode record
//!   builders (`cert`) that capture raw TLV spans for on-demand decoding,
//! - printable-ASCII text decoding (`ascii`) for captured payloads.

pub mod ascii;
pub mod bitstring;
pub mod cert;
pub mod errors;
pub mod length;
pub mod reader;
pub mod region;
pub mod tag;
pub mod uint;

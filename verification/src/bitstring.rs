//! BIT STRING values, as far as the deferred decoder reads them eagerly:
//! the unused-bit count octet followed by the bit bytes.

use vstd::prelude::*;
use crate::errors::DerError;

verus! {

/// The BIT STRING content format: at least the unused-bit octet, which is at
/// most 7 and must be 0 when no bit bytes follow.
pub open spec fn is_valid_bitstring_content(c: Seq<u8>) -> bool {
    &&& c.len() >= 1
    &&& c[0] <= 7
    &&& (c.len() == 1 ==> c[0] == 0)
}

/// A BIT STRING borrowing its bit bytes from the decoded buffer.
#[derive(Clone, Copy, Debug)]
pub struct BitStringRef<'a> {
    /// How many low bits of the last byte are not part of the value.
    pub unused_bits: u8,
    /// The bit bytes.
    pub bits: &'a [u8],
}

impl<'a> BitStringRef<'a> {
    /// The unused-bit count is at most 7 and zero for an empty bit string.
    pub open spec fn wf(&self) -> bool {
        self.unused_bits <= 7 && (self.bits@.len() == 0 ==> self.unused_bits == 0)
    }

    /// Create a [`BitStringRef`]; fails on an unused-bit count the format
    /// does not allow.
    pub fn new(unused_bits: u8, bits: &'a [u8]) -> (r: Result<BitStringRef<'a>, DerError>)
        ensures
            r is Ok <==> unused_bits <= 7 && (bits@.len() == 0 ==> unused_bits == 0),
            r is Ok ==> r->Ok_0.unused_bits == unused_bits && r->Ok_0.bits@ == bits@
                && r->Ok_0.wf(),
            r is Err ==> r->Err_0 == DerError::Length,
    {
        if unused_bits <= 7 && (bits.len() > 0 || unused_bits == 0) {
            Ok(BitStringRef { unused_bits, bits })
        } else {
            Err(DerError::Length)
        }
    }

    /// Decode BIT STRING content bytes: the leading octet counts the unused
    /// bits, the rest are the bit bytes.  Every violation of the content
    /// format is a length error.
    pub fn decode_value(payload: &'a [u8]) -> (r: Result<BitStringRef<'a>, DerError>)
        ensures
            r is Ok <==> is_valid_bitstring_content(payload@),
            r is Ok ==> r->Ok_0.unused_bits == payload@[0]
                && r->Ok_0.bits@ == payload@.skip(1)
                && r->Ok_0.wf(),
            r is Err ==> r->Err_0 == DerError::Length,
    {
        if payload.len() == 0 {
            return Err(DerError::Length);
        }
        let unused = *vstd::slice::slice_index_get(payload, 0);
        let rest = vstd::slice::slice_subrange(payload, 1, payload.len());
        proof {
            assert(rest@ =~= payload@.skip(1));
        }
        BitStringRef::new(unused, rest)
    }
}

} // verus!

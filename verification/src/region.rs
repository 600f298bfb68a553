//! Bounded byte region: an immutable owned byte range whose length fits the
//! format's length-encoding ceiling.

use vstd::prelude::*;
use crate::errors::DerError;

verus! {

/// The largest content length the format's length field can carry: a long
/// form with four length octets encodes values up to `0xFFFF_FFFF`.
pub const MAX_REGION_LEN: usize = 0xFFFF_FFFF;

/// An owned, immutable byte range with a bounded length.
///
/// Once constructed a region is never mutated; copying it constructs a new
/// region logically equal in content.
#[derive(Clone, Debug)]
pub struct ByteRegion {
    bytes: Vec<u8>,
}

impl View for ByteRegion {
    type V = Seq<u8>;

    closed spec fn view(&self) -> Seq<u8> {
        self.bytes@
    }
}

impl ByteRegion {
    /// Every region's length stays under the format ceiling.
    pub open spec fn wf(&self) -> bool {
        self@.len() <= MAX_REGION_LEN
    }

    /// Takes ownership of `bytes`; fails when the slice exceeds the ceiling.
    pub fn new(bytes: Vec<u8>) -> (r: Result<ByteRegion, DerError>)
        ensures
            r is Ok <==> bytes@.len() <= MAX_REGION_LEN,
            r is Ok ==> r->Ok_0@ == bytes@ && r->Ok_0.wf(),
            r is Err ==> r->Err_0 == DerError::Length,
    {
        if bytes.len() <= MAX_REGION_LEN {
            Ok(ByteRegion { bytes })
        } else {
            Err(DerError::Length)
        }
    }

    /// The number of bytes held.
    pub fn len(&self) -> (n: usize)
        ensures
            n == self@.len(),
    {
        self.bytes.len()
    }

    /// Whether the region holds no bytes.
    pub fn is_empty(&self) -> (b: bool)
        ensures
            b <==> self@.len() == 0,
    {
        self.bytes.len() == 0
    }

    /// Borrow the underlying bytes.
    pub fn as_slice(&self) -> (s: &[u8])
        ensures
            s@ == self@,
    {
        self.bytes.as_slice()
    }
}

} // verus!

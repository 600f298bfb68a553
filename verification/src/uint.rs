//! Canonical unsigned INTEGER codec.
//!
//! A big unsigned integer is stored as its minimal big-endian bytes: all
//! leading zero bytes stripped (one byte is kept for the value zero).  On
//! encode, a single leading zero byte is put back exactly when the most
//! significant stored bit is set, so the value stays unambiguously
//! non-negative.  On decode, the re-encoded length is compared against the
//! header length, which rejects every input with superfluous padding.

use vstd::prelude::*;
use crate::errors::DerError;
use crate::length::{len_encoding, write_len};
use crate::reader::{Header, TlvReader, spec_header_at, spec_header_err};
use crate::region::{ByteRegion, MAX_REGION_LEN};
use crate::tag::Tag;

verus! {

/// `s` with its leading zero bytes dropped; the last byte always stays, so
/// an all-zero string keeps one zero byte.
pub open spec fn stripped(s: Seq<u8>) -> Seq<u8>
    decreases s.len(),
{
    if s.len() <= 1 {
        s
    } else if s[0] == 0 {
        stripped(s.skip(1))
    } else {
        s
    }
}

/// A byte string in minimal form: no leading zero unless it is the one byte.
pub open spec fn is_stripped(s: Seq<u8>) -> bool {
    s.len() <= 1 || s[0] != 0
}

/// Whether re-encoding `s` must put a leading zero byte back: the most
/// significant stored bit is set.
pub open spec fn needs_leading_zero(s: Seq<u8>) -> bool {
    s.len() > 0 && s[0] >= 0x80
}

/// The content length stored bytes `s` re-encode to.
pub open spec fn encoded_len_of(s: Seq<u8>) -> int {
    s.len() + if needs_leading_zero(s) { 1int } else { 0int }
}

/// The content bytes stored bytes `s` re-encode to.
pub open spec fn uint_content(s: Seq<u8>) -> Seq<u8> {
    if needs_leading_zero(s) {
        seq![0u8] + s
    } else {
        s
    }
}

/// The canonical INTEGER contents: at least one byte, the sign bit clear,
/// and a leading zero byte only in front of a byte with the high bit set.
pub open spec fn is_canonical_content(c: Seq<u8>) -> bool {
    &&& c.len() >= 1
    &&& c[0] < 0x80
    &&& (c[0] == 0 ==> c.len() == 1 || c[1] >= 0x80)
}

/// Stripping gives a minimal suffix of its input, and never drops the last
/// byte.
pub proof fn lemma_stripped_props(s: Seq<u8>)
    ensures
        is_stripped(stripped(s)),
        stripped(s).len() <= s.len(),
        s.len() >= 1 ==> stripped(s).len() >= 1,
        stripped(s) == s.skip(s.len() - stripped(s).len()),
    decreases s.len(),
{
    if s.len() <= 1 || s[0] != 0 {
        assert(s.skip(0) =~= s);
    } else {
        lemma_stripped_props(s.skip(1));
        let k = s.skip(1).len() - stripped(s.skip(1)).len();
        assert(s.skip(1).skip(k) =~= s.skip(1 + k));
    }
}

/// Decoding canonical contents and re-encoding them gives the input back:
/// for every canonical content `c`, the stored form is `stripped(c)` and
/// its re-encoding `uint_content(stripped(c))` is `c` itself, of the same
/// length.
pub proof fn lemma_uint_round_trip(c: Seq<u8>)
    requires
        is_canonical_content(c),
    ensures
        uint_content(stripped(c)) == c,
        encoded_len_of(stripped(c)) == c.len(),
{
    if c[0] != 0 {
        assert(stripped(c) == c);
    } else if c.len() == 1 {
        assert(stripped(c) == c);
        assert(uint_content(c) == c);
    } else {
        let d = c.skip(1);
        assert(d[0] == c[1] && d[0] >= 0x80);
        assert(stripped(c) == stripped(d));
        assert(stripped(d) == d);
        assert(seq![0u8] + d =~= c);
    }
}

/// The contents the decoder accepts are exactly the canonical ones: the
/// recomputed encoded length matches the content length if and only if the
/// content is in canonical form.
pub proof fn lemma_canonical_content_iff(c: Seq<u8>)
    requires
        c.len() >= 1,
    ensures
        encoded_len_of(stripped(c)) == c.len() <==> is_canonical_content(c),
{
    lemma_stripped_props(c);
    if c.len() == 1 || c[0] != 0 {
        assert(stripped(c) == c);
    } else {
        let d = c.skip(1);
        assert(stripped(c) == stripped(d));
        lemma_stripped_props(d);
        if d[0] >= 0x80 {
            assert(stripped(d) == d);
        } else {
            // the stored form shrinks or keeps its length; either way the
            // recomputed length falls short of c.len() == d.len() + 1
            assert(encoded_len_of(stripped(d)) <= d.len() + 1);
            if encoded_len_of(stripped(d)) == d.len() + 1 {
                assert(stripped(d).len() == d.len());
                assert(d.skip(0) =~= d);
                assert(stripped(d) == d);
                assert(needs_leading_zero(d));
                assert(false);
            }
        }
    }
}

/// Strip the leading zero bytes off `bytes`, keeping at least the last byte.
pub fn strip_leading_zeroes(bytes: &[u8]) -> (r: &[u8])
    ensures
        r@ == stripped(bytes@),
{
    let mut i: usize = 0;
    proof {
        assert(bytes@.skip(0) =~= bytes@);
    }
    while i < bytes.len() && i + 1 < bytes.len() && *vstd::slice::slice_index_get(bytes, i) == 0
        invariant
            i <= bytes@.len(),
            stripped(bytes@) == stripped(bytes@.skip(i as int)),
        decreases bytes@.len() - i,
    {
        proof {
            let t = bytes@.skip(i as int);
            assert(t[0] == bytes@[i as int]);
            assert(t.skip(1) =~= bytes@.skip(i as int + 1));
        }
        i += 1;
    }
    let r = vstd::slice::slice_subrange(bytes, i, bytes.len());
    proof {
        let t = bytes@.skip(i as int);
        assert(r@ =~= t);
        if t.len() > 1 {
            assert(t[0] == bytes@[i as int]);
        }
    }
    r
}

/// A big unsigned INTEGER borrowing its minimal big-endian bytes from the
/// decoded buffer (the zero-copy variant).
#[derive(Clone, Copy, Debug)]
pub struct UintRef<'a> {
    inner: &'a [u8],
}

impl<'a> View for UintRef<'a> {
    type V = Seq<u8>;

    closed spec fn view(&self) -> Seq<u8> {
        self.inner@
    }
}

impl<'a> UintRef<'a> {
    /// The stored bytes are minimal and under the region ceiling.
    pub open spec fn wf(&self) -> bool {
        is_stripped(self@) && self@.len() <= MAX_REGION_LEN
    }

    /// Create a [`UintRef`] borrowing the minimal form of `bytes`.
    pub fn new(bytes: &'a [u8]) -> (r: Result<UintRef<'a>, DerError>)
        ensures
            r is Ok <==> stripped(bytes@).len() <= MAX_REGION_LEN,
            r is Ok ==> r->Ok_0@ == stripped(bytes@) && r->Ok_0.wf(),
            r is Err ==> r->Err_0 == DerError::Length,
    {
        let s = strip_leading_zeroes(bytes);
        proof {
            lemma_stripped_props(bytes@);
        }
        if s.len() <= MAX_REGION_LEN {
            Ok(UintRef { inner: s })
        } else {
            Err(DerError::Length)
        }
    }

    /// Borrow the minimal big-endian bytes.
    pub fn as_bytes(&self) -> (r: &'a [u8])
        ensures
            r@ == self@,
    {
        self.inner
    }

    /// The number of stored bytes.
    pub fn len(&self) -> (n: usize)
        ensures
            n == self@.len(),
    {
        self.inner.len()
    }

    /// Whether no bytes are stored.
    pub fn is_empty(&self) -> (b: bool)
        ensures
            b <==> self@.len() == 0,
    {
        self.inner.len() == 0
    }

    /// The content length this value re-encodes to: the stored length, plus
    /// one for the leading zero byte when the high bit is set.  Fails when
    /// that length would exceed the region ceiling.
    pub fn value_len(&self) -> (r: Result<usize, DerError>)
        requires
            self.wf(),
        ensures
            r is Ok <==> encoded_len_of(self@) <= MAX_REGION_LEN,
            r is Ok ==> r->Ok_0 == encoded_len_of(self@),
            r is Err ==> r->Err_0 == DerError::Length,
    {
        if self.inner.len() > 0 && *vstd::slice::slice_index_get(self.inner, 0) >= 0x80 {
            if self.inner.len() < MAX_REGION_LEN {
                Ok(self.inner.len() + 1)
            } else {
                Err(DerError::Length)
            }
        } else {
            Ok(self.inner.len())
        }
    }

    /// Append this value's content bytes to `out`: a leading zero byte when
    /// the high bit is set, then the stored bytes verbatim.
    pub fn encode_value(&self, out: &mut Vec<u8>) -> (r: Result<(), DerError>)
        requires
            self.wf(),
        ensures
            r is Ok <==> encoded_len_of(self@) <= MAX_REGION_LEN,
            r is Ok ==> final(out)@ == old(out)@ + uint_content(self@),
            r is Err ==> r->Err_0 == DerError::Length && final(out)@ == old(out)@,
    {
        let vl = match self.value_len() {
            Ok(vl) => vl,
            Err(e) => {
                return Err(e);
            },
        };
        if vl > self.inner.len() {
            out.push(0);
        }
        push_bytes(out, self.inner);
        proof {
            if needs_leading_zero(self@) {
                assert(out@ =~= old(out)@ + uint_content(self@));
            } else {
                assert(out@ =~= old(out)@ + uint_content(self@));
            }
        }
        Ok(())
    }

    /// Decode INTEGER content bytes already framed by `header`: strip the
    /// leading zero padding, then require that re-encoding would reproduce
    /// exactly `header.length` bytes; any mismatch is rejected as
    /// non-canonical rather than silently repaired.
    pub fn decode_value(header: &Header, payload: &'a [u8]) -> (r: Result<UintRef<'a>, DerError>)
        requires
            header.length <= MAX_REGION_LEN,
            payload@.len() == header.length,
        ensures
            r is Ok <==> is_canonical_content(payload@),
            r is Ok <==> payload@.len() >= 1 && encoded_len_of(stripped(payload@)) == payload@.len(),
            r is Ok ==> r->Ok_0@ == stripped(payload@) && r->Ok_0.wf(),
            r is Err ==> r->Err_0 == (
                if payload@.len() >= 1 && encoded_len_of(stripped(payload@)) > MAX_REGION_LEN {
                    DerError::Length
                } else {
                    DerError::NonCanonicalEncoding
                }
            ),
    {
        proof {
            lemma_stripped_props(payload@);
            if payload@.len() >= 1 {
                lemma_canonical_content_iff(payload@);
            }
        }
        if payload.len() == 0 {
            return Err(DerError::NonCanonicalEncoding);
        }
        let v = match UintRef::new(payload) {
            Ok(v) => v,
            Err(e) => {
                return Err(e);
            },
        };
        let vl = match v.value_len() {
            Ok(vl) => vl,
            Err(e) => {
                return Err(e);
            },
        };
        if vl != header.length {
            return Err(DerError::NonCanonicalEncoding);
        }
        Ok(v)
    }

    /// Decode one complete INTEGER TLV unit spanning the whole of `bytes`.
    pub fn from_der(bytes: &'a [u8]) -> (r: Result<UintRef<'a>, DerError>)
        ensures
            r is Ok <==> spec_uint_der(bytes@) is Some,
            r is Ok ==> r->Ok_0@ == stripped(spec_uint_der(bytes@)->Some_0) && r->Ok_0.wf(),
            r is Err ==> r->Err_0 == spec_uint_der_err(bytes@),
    {
        let mut rd = TlvReader::new(bytes);
        proof {
            assert(rd.remaining(bytes@) =~= bytes@);
        }
        let h = match rd.read_header(bytes) {
            Ok(h) => h,
            Err(e) => {
                return Err(e);
            },
        };
        if !matches!(h.tag, Tag::Integer) {
            return Err(DerError::UnexpectedTag);
        }
        let payload = rd.read_value(bytes, h.length);
        let v = match UintRef::decode_value(&h, payload) {
            Ok(v) => v,
            Err(e) => {
                return Err(e);
            },
        };
        match rd.finish() {
            Ok(()) => Ok(v),
            Err(e) => Err(e),
        }
    }

    /// Append this value's complete TLV encoding (INTEGER tag, canonical
    /// length octets, content) to `out`.
    pub fn encode(&self, out: &mut Vec<u8>) -> (r: Result<(), DerError>)
        requires
            self.wf(),
        ensures
            r is Ok <==> encoded_len_of(self@) <= MAX_REGION_LEN,
            r is Ok ==> final(out)@ == old(out)@ + spec_uint_der_bytes(self@),
            r is Err ==> r->Err_0 == DerError::Length && final(out)@ == old(out)@,
    {
        let vl = match self.value_len() {
            Ok(vl) => vl,
            Err(e) => {
                return Err(e);
            },
        };
        out.push(0x02);
        write_len(out, vl);
        match self.encode_value(out) {
            Ok(()) => {
                proof {
                    assert(out@ =~= old(out)@ + spec_uint_der_bytes(self@));
                }
                Ok(())
            },
            Err(e) => Err(e),
        }
    }

    /// Copy into the owning variant.
    pub fn to_owned(&self) -> (r: Result<Uint, DerError>)
        requires
            self.wf(),
        ensures
            r is Ok && r->Ok_0@ == self@ && r->Ok_0.wf(),
    {
        let v = vstd::slice::slice_to_vec(self.inner);
        match ByteRegion::new(v) {
            Ok(region) => Ok(Uint { inner: region }),
            Err(e) => Err(e),
        }
    }
}

/// The content bytes of `b`, when `b` is exactly one INTEGER TLV unit whose
/// content is canonical; `None` otherwise.
pub open spec fn spec_uint_der(b: Seq<u8>) -> Option<Seq<u8>> {
    match spec_header_at(b) {
        Option::None => None,
        Option::Some(tlh) => {
            let c = b.subrange(tlh.2, tlh.2 + tlh.1);
            if tlh.0 == Tag::Integer && tlh.2 + tlh.1 == b.len()
                && c.len() >= 1 && encoded_len_of(stripped(c)) == tlh.1 {
                Some(c)
            } else {
                None
            }
        },
    }
}

/// The error a failed whole-unit INTEGER decode raises.  Only consulted
/// where `spec_uint_der` is `None`.
pub open spec fn spec_uint_der_err(b: Seq<u8>) -> DerError {
    match spec_header_at(b) {
        Option::None => spec_header_err(b),
        Option::Some(tlh) => {
            let c = b.subrange(tlh.2, tlh.2 + tlh.1);
            if tlh.0 != Tag::Integer {
                DerError::UnexpectedTag
            } else if c.len() >= 1 && encoded_len_of(stripped(c)) > MAX_REGION_LEN {
                DerError::Length
            } else if !(c.len() >= 1 && encoded_len_of(stripped(c)) == tlh.1) {
                DerError::NonCanonicalEncoding
            } else {
                DerError::TrailingData
            }
        },
    }
}

/// The complete TLV encoding of stored bytes `v`: INTEGER tag, canonical
/// length octets, content.
pub open spec fn spec_uint_der_bytes(v: Seq<u8>) -> Seq<u8> {
    seq![0x02u8] + len_encoding(encoded_len_of(v)) + uint_content(v)
}

/// Append all of `bytes` to `out`.
fn push_bytes(out: &mut Vec<u8>, bytes: &[u8])
    ensures
        final(out)@ == old(out)@ + bytes@,
{
    let mut i: usize = 0;
    proof {
        assert(old(out)@ + bytes@.take(0) =~= old(out)@);
    }
    while i < bytes.len()
        invariant
            i <= bytes@.len(),
            out@ == old(out)@ + bytes@.take(i as int),
        decreases bytes@.len() - i,
    {
        let b = *vstd::slice::slice_index_get(bytes, i);
        out.push(b);
        proof {
            assert(old(out)@ + bytes@.take(i as int + 1)
                =~= (old(out)@ + bytes@.take(i as int)).push(bytes@[i as int]));
        }
        i += 1;
    }
    proof {
        assert(bytes@.take(bytes@.len() as int) =~= bytes@);
    }
}

/// Round trip at the unit level: re-encoding the value decoded from a whole
/// INTEGER TLV unit reproduces the input bytes exactly.
pub proof fn lemma_uint_der_round_trip(b: Seq<u8>)
    requires
        spec_uint_der(b) is Some,
    ensures
        spec_uint_der_bytes(stripped(spec_uint_der(b)->Some_0)) == b,
{
    reveal(crate::reader::spec_header_at);
    let tlh = spec_header_at(b)->Some_0;
    let c = spec_uint_der(b)->Some_0;
    lemma_canonical_content_iff(c);
    lemma_uint_round_trip(c);
    crate::length::lemma_parse_len_canonical(b.skip(1));
    assert(b.skip(1).take(tlh.2 - 1) =~= b.subrange(1, tlh.2));
    assert(b =~= seq![0x02u8] + len_encoding(tlh.1) + c);
}

/// Decode one complete INTEGER TLV unit into a zero-copy value: the
/// collaborator-facing name of [`UintRef::from_der`].
pub fn decode_uint<'a>(bytes: &'a [u8]) -> (r: Result<UintRef<'a>, DerError>)
    ensures
        r is Ok <==> spec_uint_der(bytes@) is Some,
        r is Ok ==> r->Ok_0@ == stripped(spec_uint_der(bytes@)->Some_0) && r->Ok_0.wf(),
        r is Err ==> r->Err_0 == spec_uint_der_err(bytes@),
{
    UintRef::from_der(bytes)
}

/// Append a value's complete TLV encoding to `out`: the collaborator-facing
/// name of [`UintRef::encode`].
pub fn encode_uint(value: &UintRef<'_>, out: &mut Vec<u8>) -> (r: Result<(), DerError>)
    requires
        value.wf(),
    ensures
        r is Ok <==> encoded_len_of(value@) <= MAX_REGION_LEN,
        r is Ok ==> final(out)@ == old(out)@ + spec_uint_der_bytes(value@),
        r is Err ==> r->Err_0 == DerError::Length && final(out)@ == old(out)@,
{
    value.encode(out)
}

/// A big unsigned INTEGER owning its minimal big-endian bytes.
#[derive(Clone, Debug)]
pub struct Uint {
    inner: ByteRegion,
}

impl View for Uint {
    type V = Seq<u8>;

    closed spec fn view(&self) -> Seq<u8> {
        self.inner@
    }
}

impl Uint {
    /// The stored bytes are minimal and under the region ceiling.
    pub open spec fn wf(&self) -> bool {
        is_stripped(self@) && self@.len() <= MAX_REGION_LEN
    }

    /// Create a [`Uint`] owning a copy of the minimal form of `bytes`.
    pub fn new(bytes: &[u8]) -> (r: Result<Uint, DerError>)
        ensures
            r is Ok <==> stripped(bytes@).len() <= MAX_REGION_LEN,
            r is Ok ==> r->Ok_0@ == stripped(bytes@) && r->Ok_0.wf(),
            r is Err ==> r->Err_0 == DerError::Length,
    {
        match UintRef::new(bytes) {
            Ok(v) => v.to_owned(),
            Err(e) => Err(e),
        }
    }

    /// Borrow the minimal big-endian bytes.
    pub fn as_bytes(&self) -> (r: &[u8])
        ensures
            r@ == self@,
    {
        self.inner.as_slice()
    }

    /// The number of stored bytes.
    pub fn len(&self) -> (n: usize)
        ensures
            n == self@.len(),
    {
        self.inner.len()
    }

    /// Whether no bytes are stored.
    pub fn is_empty(&self) -> (b: bool)
        ensures
            b <==> self@.len() == 0,
    {
        self.inner.is_empty()
    }

    /// Borrow as the zero-copy variant.
    pub fn to_ref(&self) -> (r: UintRef<'_>)
        ensures
            r@ == self@,
    {
        UintRef { inner: self.inner.as_slice() }
    }

    /// The content length this value re-encodes to; see
    /// [`UintRef::value_len`].
    pub fn value_len(&self) -> (r: Result<usize, DerError>)
        requires
            self.wf(),
        ensures
            r is Ok <==> encoded_len_of(self@) <= MAX_REGION_LEN,
            r is Ok ==> r->Ok_0 == encoded_len_of(self@),
            r is Err ==> r->Err_0 == DerError::Length,
    {
        self.to_ref().value_len()
    }

    /// Append this value's content bytes to `out`; see
    /// [`UintRef::encode_value`].
    pub fn encode_value(&self, out: &mut Vec<u8>) -> (r: Result<(), DerError>)
        requires
            self.wf(),
        ensures
            r is Ok <==> encoded_len_of(self@) <= MAX_REGION_LEN,
            r is Ok ==> final(out)@ == old(out)@ + uint_content(self@),
            r is Err ==> r->Err_0 == DerError::Length && final(out)@ == old(out)@,
    {
        self.to_ref().encode_value(out)
    }

    /// Decode INTEGER content bytes already framed by `header` into an
    /// owning value; see [`UintRef::decode_value`].
    pub fn decode_value(header: &Header, payload: &[u8]) -> (r: Result<Uint, DerError>)
        requires
            header.length <= MAX_REGION_LEN,
            payload@.len() == header.length,
        ensures
            r is Ok <==> is_canonical_content(payload@),
            r is Ok <==> payload@.len() >= 1 && encoded_len_of(stripped(payload@)) == payload@.len(),
            r is Ok ==> r->Ok_0@ == stripped(payload@) && r->Ok_0.wf(),
            r is Err ==> r->Err_0 == (
                if payload@.len() >= 1 && encoded_len_of(stripped(payload@)) > MAX_REGION_LEN {
                    DerError::Length
                } else {
                    DerError::NonCanonicalEncoding
                }
            ),
    {
        match UintRef::decode_value(header, payload) {
            Ok(v) => v.to_owned(),
            Err(e) => Err(e),
        }
    }

    /// Decode one complete INTEGER TLV unit spanning the whole of `bytes`
    /// into an owning value; see [`UintRef::from_der`].
    pub fn from_der(bytes: &[u8]) -> (r: Result<Uint, DerError>)
        ensures
            r is Ok <==> spec_uint_der(bytes@) is Some,
            r is Ok ==> r->Ok_0@ == stripped(spec_uint_der(bytes@)->Some_0) && r->Ok_0.wf(),
            r is Err ==> r->Err_0 == spec_uint_der_err(bytes@),
    {
        match UintRef::from_der(bytes) {
            Ok(v) => {
                proof {
                    lemma_stripped_props(spec_uint_der(bytes@)->Some_0);
                }
                v.to_owned()
            },
            Err(e) => Err(e),
        }
    }

    /// Append this value's complete TLV encoding to `out`; see
    /// [`UintRef::encode`].
    pub fn encode(&self, out: &mut Vec<u8>) -> (r: Result<(), DerError>)
        requires
            self.wf(),
        ensures
            r is Ok <==> encoded_len_of(self@) <= MAX_REGION_LEN,
            r is Ok ==> final(out)@ == old(out)@ + spec_uint_der_bytes(self@),
            r is Err ==> r->Err_0 == DerError::Length && final(out)@ == old(out)@,
    {
        self.to_ref().encode(out)
    }
}

} // verus!

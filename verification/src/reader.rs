//! TLV cursor: walks a byte buffer one tag-length-value unit at a time, with
//! nested scopes whose boundaries are enforced exactly.
//!
//! The cursor holds only a position and a scope end; the buffer itself is
//! handed to each operation.  Entering a nested scope shrinks the end to the
//! declared length and hands back the outer end, so that leaving the scope
//! can verify the whole window was consumed.

use vstd::prelude::*;
use crate::errors::DerError;
use crate::length::{parse_len, parse_len_err, lemma_parse_len_bound, lemma_be_value_bound4, be_value};
use crate::region::MAX_REGION_LEN;
use crate::tag::{Tag, tag_of_octet};

verus! {

/// One Tag + Length prefix, as read at a unit boundary.
#[derive(Clone, Copy, Debug, PartialEq, Eq, Structural)]
pub struct Header {
    pub tag: Tag,
    pub length: usize,
}

impl Header {
    /// Headers the cursor produces carry a well-formed tag and a length
    /// under the format ceiling.
    pub open spec fn wf(&self) -> bool {
        self.tag.wf() && self.length <= MAX_REGION_LEN
    }
}

/// The header at the start of `s` (a cursor's remaining scope):
/// `Some((tag, length, header_size))` when a tag octet and a length parse
/// and the declared value fits inside `s`.  Opaque so that callers reason
/// with the cursor's contracts instead of re-unfolding the parse;
/// [`lemma_header_at_bounds`] gives the bounds they need.
#[verifier::opaque]
pub open spec fn spec_header_at(s: Seq<u8>) -> Option<(Tag, int, int)> {
    if s.len() < 1 {
        None
    } else {
        match tag_of_octet(s[0]) {
            Option::None => None,
            Option::Some(t) => match parse_len(s.skip(1)) {
                Option::None => None,
                Option::Some(vc) => if 1 + vc.1 + vc.0 <= s.len() {
                    Some((t, vc.0, 1 + vc.1))
                } else {
                    None
                },
            },
        }
    }
}

/// The error a failed header read raises.  Only consulted where
/// `spec_header_at` is `None`: truncation when octets or declared content
/// are missing, the tag and length errors otherwise.
#[verifier::opaque]
pub open spec fn spec_header_err(s: Seq<u8>) -> DerError {
    if s.len() < 1 {
        DerError::TruncatedInput
    } else if tag_of_octet(s[0]) is None {
        DerError::UnexpectedTag
    } else if parse_len(s.skip(1)) is None {
        parse_len_err(s.skip(1))
    } else {
        DerError::TruncatedInput
    }
}

/// The size of the complete TLV unit at the start of `s`, header included;
/// `None` when no well-formed unit fits there.
#[verifier::opaque]
pub open spec fn spec_tlv_size(s: Seq<u8>) -> Option<int> {
    match spec_header_at(s) {
        Option::None => None,
        Option::Some(tlh) => Some(tlh.2 + tlh.1),
    }
}

/// A parsed header takes two to six octets and, with its declared content,
/// fits inside `s`.
pub proof fn lemma_header_at_bounds(s: Seq<u8>)
    requires
        spec_header_at(s) is Some,
    ensures
        ({
            let tlh = spec_header_at(s)->Some_0;
            &&& 2 <= tlh.2 <= 6
            &&& 0 <= tlh.1 <= MAX_REGION_LEN
            &&& tlh.2 + tlh.1 <= s.len()
        }),
{
    reveal(spec_header_at);
    lemma_parse_len_bound(s.skip(1));
}

/// A complete TLV unit is never empty and fits inside `s`.
pub proof fn lemma_tlv_size_bounds(s: Seq<u8>)
    requires
        spec_tlv_size(s) is Some,
    ensures
        0 < spec_tlv_size(s)->Some_0 <= s.len(),
{
    reveal(spec_tlv_size);
    lemma_header_at_bounds(s);
}

/// A scope that cuts a TLV unit short reports truncated input: when a whole
/// unit parses in the window `s` but a nested scope keeps only its first
/// `k` bytes, reading the unit's header inside that scope fails, and the
/// error is truncation, never a silent short read.
pub proof fn lemma_scope_truncation(s: Seq<u8>, k: int)
    requires
        spec_tlv_size(s) is Some,
        0 <= k <= s.len(),
        k < spec_tlv_size(s)->Some_0,
    ensures
        spec_header_at(s.take(k)) is None,
        spec_header_err(s.take(k)) == DerError::TruncatedInput,
{
    reveal(spec_tlv_size);
    reveal(spec_header_at);
    reveal(spec_header_err);
    let t = s.take(k);
    if k >= 1 {
        assert(t[0] == s[0]);
        let tail_s = s.skip(1);
        let tail_t = t.skip(1);
        assert(tail_t =~= tail_s.take(k - 1));
        let vc = parse_len(tail_s)->Some_0;
        if k >= 2 {
            assert(tail_t[0] == tail_s[0]);
            if tail_s[0] >= 0x80 {
                let n = tail_s[0] as int - 0x80;
                if k - 1 >= 1 + n {
                    assert(tail_t.subrange(1, 1 + n) =~= tail_s.subrange(1, 1 + n));
                    assert(tail_t[1] == tail_s[1]);
                }
            }
        }
    }
}

/// Parse the length octets of `data` between `start` and `end`, returning
/// the length value and the number of octets consumed.
fn read_len_octets(data: &[u8], start: usize, end: usize) -> (r: Result<(usize, usize), DerError>)
    requires
        start <= end <= data@.len(),
    ensures
        ({
            let s = data@.subrange(start as int, end as int);
            &&& (r is Ok <==> parse_len(s) is Some)
            &&& (r is Ok ==> parse_len(s) == Some((r->Ok_0.0 as int, r->Ok_0.1 as int)))
            &&& (r is Ok ==> r->Ok_0.0 <= MAX_REGION_LEN && 1 <= r->Ok_0.1 <= 5
                && start + r->Ok_0.1 <= end)
            &&& (r is Err ==> r->Err_0 == parse_len_err(s))
        }),
{
    let ghost s = data@.subrange(start as int, end as int);
    if start == end {
        return Err(DerError::TruncatedInput);
    }
    let b0: u8 = *vstd::slice::slice_index_get(data, start);
    assert(s[0] == b0);
    if b0 < 0x80 {
        return Ok((b0 as usize, 1));
    }
    let n: usize = (b0 - 0x80) as usize;
    if n < 1 || n > 4 {
        return Err(DerError::Length);
    }
    if end - start < 1 + n {
        proof {
            assert(s.len() < 1 + n);
        }
        return Err(DerError::TruncatedInput);
    }
    let ghost digits = s.subrange(1, 1 + n as int);
    let mut acc: u64 = 0;
    let mut i: usize = 0;
    while i < n
        invariant
            i <= n,
            1 <= n <= 4,
            start <= end <= data@.len(),
            end - start >= 1 + n,
            s == data@.subrange(start as int, end as int),
            digits == s.subrange(1, 1 + n as int),
            acc == be_value(digits.subrange(0, i as int)),
            acc < 0x100000000,
        decreases n - i,
    {
        let b: u8 = *vstd::slice::slice_index_get(data, start + 1 + i);
        proof {
            assert(digits[i as int] == data@[start + 1 + i]);
            let prefix = digits.subrange(0, i as int);
            let next = digits.subrange(0, i as int + 1);
            assert(next.drop_last() =~= prefix);
            assert(next.last() == digits[i as int]);
            lemma_be_value_bound4(next);
        }
        acc = acc * 256 + (b as u64);
        i += 1;
    }
    proof {
        assert(digits.subrange(0, n as int) =~= digits);
    }
    let first: u8 = *vstd::slice::slice_index_get(data, start + 1);
    assert(s[1] == first);
    if first == 0 {
        return Err(DerError::Length);
    }
    if acc < 0x80 {
        return Err(DerError::Length);
    }
    Ok((acc as usize, 1 + n))
}

/// The cursor: a position and the end of the current scope.  Copying the
/// cursor is a cheap position save, which is how lookahead is done.
#[derive(Clone, Copy, Debug, PartialEq, Eq, Structural)]
pub struct TlvReader {
    pub pos: usize,
    pub end: usize,
}

impl TlvReader {
    /// The cursor points inside its scope, and the scope inside the buffer.
    pub open spec fn wf(&self, data: Seq<u8>) -> bool {
        self.pos <= self.end <= data.len()
    }

    /// The bytes between the cursor and the end of its scope.
    pub open spec fn remaining(&self, data: Seq<u8>) -> Seq<u8> {
        data.subrange(self.pos as int, self.end as int)
    }

    /// A cursor over the whole of `data`.
    pub fn new(data: &[u8]) -> (r: TlvReader)
        ensures
            r.pos == 0,
            r.end == data@.len(),
            r.wf(data@),
    {
        TlvReader { pos: 0, end: data.len() }
    }

    /// The next tag octet, without consuming it; `None` at the scope end.
    pub fn peek_octet(&self, data: &[u8]) -> (r: Option<u8>)
        requires
            self.wf(data@),
        ensures
            r is Some <==> self.pos < self.end,
            r is Some ==> r->Some_0 == self.remaining(data@)[0],
    {
        if self.pos < self.end {
            Some(*vstd::slice::slice_index_get(data, self.pos))
        } else {
            None
        }
    }

    /// Read one Tag + Length prefix and advance past it.  Succeeds exactly
    /// when a supported tag octet and a minimal definite length parse at the
    /// cursor and the declared content fits in the current scope.
    pub fn read_header(&mut self, data: &[u8]) -> (r: Result<Header, DerError>)
        requires
            old(self).wf(data@),
        ensures
            final(self).wf(data@),
            final(self).end == old(self).end,
            r is Ok <==> spec_header_at(old(self).remaining(data@)) is Some,
            r is Ok ==> ({
                let tlh = spec_header_at(old(self).remaining(data@))->Some_0;
                &&& r->Ok_0.tag == tlh.0
                &&& r->Ok_0.length == tlh.1
                &&& r->Ok_0.wf()
                &&& final(self).pos == old(self).pos + tlh.2
                &&& r->Ok_0.length <= final(self).end - final(self).pos
            }),
            r is Err ==> r->Err_0 == spec_header_err(old(self).remaining(data@))
                && *final(self) == *old(self),
    {
        reveal(spec_header_at);
        reveal(spec_header_err);
        let ghost s = self.remaining(data@);
        if self.pos == self.end {
            return Err(DerError::TruncatedInput);
        }
        let b0: u8 = *vstd::slice::slice_index_get(data, self.pos);
        assert(s[0] == b0);
        let t = match Tag::from_octet(b0) {
            Ok(t) => t,
            Err(e) => {
                return Err(e);
            },
        };
        proof {
            assert(data@.subrange(self.pos + 1, self.end as int) =~= s.skip(1));
        }
        let (l, c) = match read_len_octets(data, self.pos + 1, self.end) {
            Ok(x) => x,
            Err(e) => {
                return Err(e);
            },
        };
        proof {
            lemma_parse_len_bound(s.skip(1));
        }
        let rem_after: usize = (self.end - self.pos) - (1 + c);
        if l > rem_after {
            proof {
                assert(1 + c as int + l > s.len());
            }
            return Err(DerError::TruncatedInput);
        }
        self.pos = self.pos + 1 + c;
        Ok(Header { tag: t, length: l })
    }

    /// Read one full TLV unit (header and content, nested content included)
    /// as a single contiguous byte span, without interpreting its payload.
    pub fn tlv_bytes<'a>(&mut self, data: &'a [u8]) -> (r: Result<&'a [u8], DerError>)
        requires
            old(self).wf(data@),
        ensures
            final(self).wf(data@),
            final(self).end == old(self).end,
            r is Ok <==> spec_tlv_size(old(self).remaining(data@)) is Some,
            r is Ok ==> ({
                let n = spec_tlv_size(old(self).remaining(data@))->Some_0;
                &&& final(self).pos == old(self).pos + n
                &&& r->Ok_0@ == old(self).remaining(data@).take(n)
                &&& r->Ok_0@ == data@.subrange(old(self).pos as int, old(self).pos + n)
            }),
            r is Err ==> r->Err_0 == spec_header_err(old(self).remaining(data@))
                && *final(self) == *old(self),
    {
        reveal(spec_tlv_size);
        let start = self.pos;
        let mut probe = *self;
        match probe.read_header(data) {
            Ok(h) => {
                proof {
                    lemma_header_at_bounds(old(self).remaining(data@));
                }
                let stop = probe.pos + h.length;
                self.pos = stop;
                let r = vstd::slice::slice_subrange(data, start, stop);
                proof {
                    let n = spec_tlv_size(old(self).remaining(data@))->Some_0;
                    assert(data@.subrange(start as int, stop as int)
                        =~= old(self).remaining(data@).take(n));
                }
                Ok(r)
            },
            Err(e) => Err(e),
        }
    }

    /// Restrict the cursor to the next `len` bytes, handing back the outer
    /// scope end for the matching `exit_nested`.
    pub fn enter_nested(&mut self, len: usize) -> (saved: usize)
        requires
            len <= old(self).end - old(self).pos,
        ensures
            final(self).pos == old(self).pos,
            final(self).end == old(self).pos + len,
            saved == old(self).end,
    {
        let saved = self.end;
        self.end = self.pos + len;
        saved
    }

    /// Leave a nested scope: fails with trailing data unless the cursor
    /// consumed the entire window, then restores the outer scope end.
    pub fn exit_nested(&mut self, saved: usize) -> (r: Result<(), DerError>)
        requires
            old(self).pos <= old(self).end <= saved,
        ensures
            final(self).pos == old(self).pos,
            final(self).end == saved,
            r is Ok <==> old(self).pos == old(self).end,
            r is Err ==> r->Err_0 == DerError::TrailingData,
    {
        let done = self.pos == self.end;
        self.end = saved;
        if done {
            Ok(())
        } else {
            Err(DerError::TrailingData)
        }
    }

    /// Fails with trailing data unless the cursor reached its scope end.
    pub fn finish(&self) -> (r: Result<(), DerError>)
        ensures
            r is Ok <==> self.pos == self.end,
            r is Err ==> r->Err_0 == DerError::TrailingData,
    {
        if self.pos == self.end {
            Ok(())
        } else {
            Err(DerError::TrailingData)
        }
    }

    /// Read exactly `len` content bytes, known from a header to fit the
    /// current scope.
    pub fn read_value<'a>(&mut self, data: &'a [u8], len: usize) -> (r: &'a [u8])
        requires
            old(self).wf(data@),
            len <= old(self).end - old(self).pos,
        ensures
            final(self).pos == old(self).pos + len,
            final(self).end == old(self).end,
            final(self).wf(data@),
            r@ == old(self).remaining(data@).take(len as int),
            r@ == data@.subrange(old(self).pos as int, old(self).pos + len),
    {
        let start = self.pos;
        self.pos = self.pos + len;
        let r = vstd::slice::slice_subrange(data, start, self.pos);
        proof {
            assert(data@.subrange(start as int, start + len)
                =~= old(self).remaining(data@).take(len as int));
        }
        r
    }
}

} // verus!

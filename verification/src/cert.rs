//! Deferred-decode record builders.
//!
//! Each record is built by one pass over a SEQUENCE scope: cheap fixed-size
//! fields (the version number, the optional unique identifiers) are decoded
//! eagerly, every other field is captured as the raw bytes of its entire
//! TLV unit, self-describing and ready to be fed to a fresh cursor later.

use vstd::prelude::*;
use crate::bitstring::{BitStringRef, is_valid_bitstring_content};
use crate::errors::DerError;
use crate::reader::{TlvReader, spec_header_at, spec_header_err, spec_tlv_size};
use crate::tag::Tag;
use crate::uint::{UintRef, spec_uint_der, spec_uint_der_err, stripped};

verus! {

/// Deferred decoding of the Certificate SEQUENCE: three opaque spans in
/// fixed order, none decoded eagerly.
#[derive(Clone, Copy, Debug)]
pub struct DeferDecodeCertificate<'a> {
    /// The tbsCertificate field, as one complete TLV unit.
    pub tbs_certificate: &'a [u8],
    /// The signatureAlgorithm field, as one complete TLV unit.
    pub signature_algorithm: &'a [u8],
    /// The signature bit string, as one complete TLV unit.
    pub signature: &'a [u8],
}

/// The three spans of a well-formed Certificate: `b` must be exactly one
/// SEQUENCE whose content is exactly three TLV units.
pub open spec fn spec_cert_fields(b: Seq<u8>) -> Option<(Seq<u8>, Seq<u8>, Seq<u8>)> {
    match spec_header_at(b) {
        Option::None => None,
        Option::Some(tlh) => {
            if tlh.0 != Tag::Sequence || tlh.2 + tlh.1 != b.len() {
                None
            } else {
                let content = b.subrange(tlh.2, tlh.2 + tlh.1);
                match spec_tlv_size(content) {
                    Option::None => None,
                    Option::Some(n1) => {
                        let r1 = content.skip(n1);
                        match spec_tlv_size(r1) {
                            Option::None => None,
                            Option::Some(n2) => {
                                let r2 = r1.skip(n2);
                                match spec_tlv_size(r2) {
                                    Option::None => None,
                                    Option::Some(n3) => {
                                        if n1 + n2 + n3 == tlh.1 {
                                            Some((content.take(n1), r1.take(n2), r2.take(n3)))
                                        } else {
                                            None
                                        }
                                    },
                                }
                            },
                        }
                    },
                }
            }
        },
    }
}

/// The error a failed Certificate decode raises, in the order the decoder
/// meets the faults.  Only consulted where `spec_cert_fields` is `None`.
pub open spec fn spec_cert_err(b: Seq<u8>) -> DerError {
    match spec_header_at(b) {
        Option::None => spec_header_err(b),
        Option::Some(tlh) => {
            if tlh.0 != Tag::Sequence {
                DerError::UnexpectedTag
            } else {
                let content = b.subrange(tlh.2, tlh.2 + tlh.1);
                match spec_tlv_size(content) {
                    Option::None => spec_header_err(content),
                    Option::Some(n1) => {
                        let r1 = content.skip(n1);
                        match spec_tlv_size(r1) {
                            Option::None => spec_header_err(r1),
                            Option::Some(n2) => {
                                let r2 = r1.skip(n2);
                                match spec_tlv_size(r2) {
                                    Option::None => spec_header_err(r2),
                                    Option::Some(n3) => DerError::TrailingData,
                                }
                            },
                        }
                    },
                }
            }
        },
    }
}

/// Decode a Certificate TLV into its three opaque spans.  Succeeds exactly
/// when `bytes` is one SEQUENCE holding exactly three TLV units; a scope
/// that ends early or late is trailing data or truncation, never repaired.
pub fn decode_certificate<'a>(bytes: &'a [u8]) -> (r: Result<
    DeferDecodeCertificate<'a>,
    DerError,
>)
    ensures
        r is Ok <==> spec_cert_fields(bytes@) is Some,
        r is Ok ==> ({
            let f = spec_cert_fields(bytes@)->Some_0;
            &&& r->Ok_0.tbs_certificate@ == f.0
            &&& r->Ok_0.signature_algorithm@ == f.1
            &&& r->Ok_0.signature@ == f.2
        }),
        r is Err ==> r->Err_0 == spec_cert_err(bytes@),
{
    let mut rd = TlvReader::new(bytes);
    proof {
        assert(rd.remaining(bytes@) =~= bytes@);
    }
    let h = match rd.read_header(bytes) {
        Ok(h) => h,
        Err(e) => {
            return Err(e);
        },
    };
    if !matches!(h.tag, Tag::Sequence) {
        return Err(DerError::UnexpectedTag);
    }
    let ghost tlh = spec_header_at(bytes@)->Some_0;
    let ghost content = bytes@.subrange(tlh.2, tlh.2 + tlh.1);
    let saved = rd.enter_nested(h.length);
    proof {
        assert(rd.remaining(bytes@) =~= content);
    }
    let tbs = match rd.tlv_bytes(bytes) {
        Ok(x) => x,
        Err(e) => {
            return Err(e);
        },
    };
    proof {
        crate::reader::lemma_tlv_size_bounds(content);
        assert(rd.remaining(bytes@) =~= content.skip(spec_tlv_size(content)->Some_0));
    }
    let ghost r1 = content.skip(spec_tlv_size(content)->Some_0);
    let alg = match rd.tlv_bytes(bytes) {
        Ok(x) => x,
        Err(e) => {
            return Err(e);
        },
    };
    proof {
        crate::reader::lemma_tlv_size_bounds(r1);
        assert(rd.remaining(bytes@) =~= r1.skip(spec_tlv_size(r1)->Some_0));
    }
    let ghost r2 = r1.skip(spec_tlv_size(r1)->Some_0);
    let sig = match rd.tlv_bytes(bytes) {
        Ok(x) => x,
        Err(e) => {
            return Err(e);
        },
    };
    match rd.exit_nested(saved) {
        Ok(()) => {},
        Err(e) => {
            return Err(e);
        },
    }
    match rd.finish() {
        Ok(()) => {},
        Err(e) => {
            return Err(e);
        },
    }
    Ok(DeferDecodeCertificate { tbs_certificate: tbs, signature_algorithm: alg, signature: sig })
}

/// Concatenating the SEQUENCE header with the three captured spans gives
/// the original certificate bytes back.
pub proof fn lemma_cert_reconstruction(b: Seq<u8>)
    requires
        spec_cert_fields(b) is Some,
    ensures
        ({
            let f = spec_cert_fields(b)->Some_0;
            let hsize = spec_header_at(b)->Some_0.2;
            b == b.take(hsize) + f.0 + f.1 + f.2
        }),
{
    let tlh = spec_header_at(b)->Some_0;
    crate::reader::lemma_header_at_bounds(b);
    let content = b.subrange(tlh.2, tlh.2 + tlh.1);
    let n1 = spec_tlv_size(content)->Some_0;
    crate::reader::lemma_tlv_size_bounds(content);
    let r1 = content.skip(n1);
    let n2 = spec_tlv_size(r1)->Some_0;
    crate::reader::lemma_tlv_size_bounds(r1);
    let r2 = r1.skip(n2);
    let n3 = spec_tlv_size(r2)->Some_0;
    crate::reader::lemma_tlv_size_bounds(r2);
    assert(b =~= b.take(tlh.2) + content.take(n1) + r1.take(n2) + r2.take(n3));
}

/// A certificate SEQUENCE whose three children end before its declared
/// length fails, and with trailing data: a scope left with unconsumed bytes
/// is never passed over.
pub proof fn lemma_cert_scope_trailing(b: Seq<u8>)
    requires
        spec_header_at(b) is Some,
        ({
            let tlh = spec_header_at(b)->Some_0;
            let content = b.subrange(tlh.2, tlh.2 + tlh.1);
            &&& tlh.0 == Tag::Sequence
            &&& tlh.2 + tlh.1 == b.len()
            &&& spec_tlv_size(content) is Some
            &&& ({
                let n1 = spec_tlv_size(content)->Some_0;
                let r1 = content.skip(n1);
                &&& spec_tlv_size(r1) is Some
                &&& ({
                    let n2 = spec_tlv_size(r1)->Some_0;
                    let r2 = r1.skip(n2);
                    &&& spec_tlv_size(r2) is Some
                    &&& n1 + n2 + spec_tlv_size(r2)->Some_0 < tlh.1
                })
            })
        }),
    ensures
        spec_cert_fields(b) is None,
        spec_cert_err(b) == DerError::TrailingData,
{
}

/// The version field at the start of `s`: the version value and the octets
/// consumed.  When no explicit `[0]` tag leads `s`, the defined default
/// version 0 with nothing consumed; otherwise the tag's window must hold
/// exactly one canonical INTEGER whose stored form is a single byte.
pub open spec fn spec_version_at(s: Seq<u8>) -> Option<(u8, int)> {
    if s.len() == 0 || s[0] != 0xA0 {
        Some((0u8, 0int))
    } else {
        match spec_header_at(s) {
            Option::None => None,
            Option::Some(tlh) => {
                let inner = s.subrange(tlh.2, tlh.2 + tlh.1);
                match spec_uint_der(inner) {
                    Option::None => None,
                    Option::Some(c) => {
                        if stripped(c).len() == 1 {
                            Some((stripped(c)[0], tlh.2 + tlh.1))
                        } else {
                            None
                        }
                    },
                }
            },
        }
    }
}

/// The error a failed version read raises: the wrapper's header fault, the
/// inner INTEGER's fault, or a length error for a value wider than the
/// 8-bit version field.  Only consulted where `spec_version_at` is `None`.
pub open spec fn spec_version_err(s: Seq<u8>) -> DerError {
    match spec_header_at(s) {
        Option::None => spec_header_err(s),
        Option::Some(tlh) => {
            let inner = s.subrange(tlh.2, tlh.2 + tlh.1);
            match spec_uint_der(inner) {
                Option::None => spec_uint_der_err(inner),
                Option::Some(c) => DerError::Length,
            }
        },
    }
}

/// Read the optional explicit version field; see [`spec_version_at`].
fn read_version(rd: &mut TlvReader, data: &[u8]) -> (r: Result<u8, DerError>)
    requires
        old(rd).wf(data@),
    ensures
        final(rd).wf(data@),
        final(rd).end == old(rd).end,
        r is Ok <==> spec_version_at(old(rd).remaining(data@)) is Some,
        r is Ok ==> ({
            let vc = spec_version_at(old(rd).remaining(data@))->Some_0;
            r->Ok_0 == vc.0 && final(rd).pos == old(rd).pos + vc.1
        }),
        r is Err ==> r->Err_0 == spec_version_err(old(rd).remaining(data@))
            && *final(rd) == *old(rd),
{
    let ghost s = rd.remaining(data@);
    let lead = rd.peek_octet(data);
    let has_version = match lead {
        Some(b) => b == 0xA0,
        None => false,
    };
    if !has_version {
        return Ok(0);
    }
    let mut probe = *rd;
    let h = match probe.read_header(data) {
        Ok(h) => h,
        Err(e) => {
            return Err(e);
        },
    };
    let ghost tlh = spec_header_at(s)->Some_0;
    let inner = probe.read_value(data, h.length);
    proof {
        crate::reader::lemma_header_at_bounds(s);
        assert(inner@ =~= s.subrange(tlh.2, tlh.2 + tlh.1));
    }
    let v = match UintRef::from_der(inner) {
        Ok(v) => v,
        Err(e) => {
            return Err(e);
        },
    };
    if v.len() != 1 {
        return Err(DerError::Length);
    }
    let vb = *vstd::slice::slice_index_get(v.as_bytes(), 0);
    *rd = probe;
    Ok(vb)
}

/// The optional bit-string field with context tag octet `octet` at the
/// start of `s`: the decoded unused-bit count and bit bytes (or `None` when
/// the tag is absent) and the octets consumed.
pub open spec fn spec_opt_bitstring_at(s: Seq<u8>, octet: u8) -> Option<(
    Option<(u8, Seq<u8>)>,
    int,
)> {
    if s.len() == 0 || s[0] != octet {
        Some((Option::<(u8, Seq<u8>)>::None, 0int))
    } else {
        match spec_header_at(s) {
            Option::None => None,
            Option::Some(tlh) => {
                let c = s.subrange(tlh.2, tlh.2 + tlh.1);
                if is_valid_bitstring_content(c) {
                    Some((Some((c[0], c.skip(1))), tlh.2 + tlh.1))
                } else {
                    None
                }
            },
        }
    }
}

/// The error a failed optional bit-string read raises: the header's fault,
/// or a length error for content the bit-string format does not allow.
/// Only consulted where `spec_opt_bitstring_at` is `None`.
pub open spec fn spec_opt_bitstring_err(s: Seq<u8>) -> DerError {
    match spec_header_at(s) {
        Option::None => spec_header_err(s),
        Option::Some(tlh) => DerError::Length,
    }
}

/// What the version field consumes stays inside `s`.
pub proof fn lemma_version_at_bounds(s: Seq<u8>)
    requires
        spec_version_at(s) is Some,
    ensures
        0 <= spec_version_at(s)->Some_0.1 <= s.len(),
{
    if s.len() == 0 || s[0] != 0xA0 {
    } else {
        crate::reader::lemma_header_at_bounds(s);
    }
}

/// What an optional bit-string field consumes stays inside `s`.
pub proof fn lemma_opt_bitstring_bounds(s: Seq<u8>, octet: u8)
    requires
        spec_opt_bitstring_at(s, octet) is Some,
    ensures
        0 <= spec_opt_bitstring_at(s, octet)->Some_0.1 <= s.len(),
{
    if s.len() == 0 || s[0] != octet {
    } else {
        crate::reader::lemma_header_at_bounds(s);
    }
}

/// Read an optional bit-string field; see [`spec_opt_bitstring_at`].
fn read_opt_bitstring<'a>(rd: &mut TlvReader, data: &'a [u8], octet: u8) -> (r: Result<
    Option<BitStringRef<'a>>,
    DerError,
>)
    requires
        old(rd).wf(data@),
    ensures
        final(rd).wf(data@),
        final(rd).end == old(rd).end,
        r is Ok <==> spec_opt_bitstring_at(old(rd).remaining(data@), octet) is Some,
        r is Ok ==> ({
            let fc = spec_opt_bitstring_at(old(rd).remaining(data@), octet)->Some_0;
            &&& final(rd).pos == old(rd).pos + fc.1
            &&& (r->Ok_0 is Some <==> fc.0 is Some)
            &&& (r->Ok_0 is Some ==> r->Ok_0->Some_0.unused_bits == fc.0->Some_0.0
                && r->Ok_0->Some_0.bits@ == fc.0->Some_0.1 && r->Ok_0->Some_0.wf())
        }),
        r is Err ==> r->Err_0 == spec_opt_bitstring_err(old(rd).remaining(data@))
            && *final(rd) == *old(rd),
{
    let ghost s = rd.remaining(data@);
    let lead = rd.peek_octet(data);
    let present = match lead {
        Some(b) => b == octet,
        None => false,
    };
    if !present {
        return Ok(None);
    }
    let mut probe = *rd;
    let h = match probe.read_header(data) {
        Ok(h) => h,
        Err(e) => {
            return Err(e);
        },
    };
    let ghost tlh = spec_header_at(s)->Some_0;
    let payload = probe.read_value(data, h.length);
    proof {
        crate::reader::lemma_header_at_bounds(s);
        assert(payload@ =~= s.subrange(tlh.2, tlh.2 + tlh.1));
    }
    let bs = match BitStringRef::decode_value(payload) {
        Ok(b) => b,
        Err(e) => {
            return Err(e);
        },
    };
    *rd = probe;
    Ok(Some(bs))
}

/// Deferred decoding of the TBSCertificate SEQUENCE: the version and the
/// optional unique identifiers decoded eagerly, every other field captured
/// as one complete TLV unit in fixed order.
#[derive(Clone, Copy, Debug)]
pub struct DeferDecodeTbsCertificate<'a> {
    /// The version number; 0 when the explicit `[0]` tag is absent.
    pub version: u8,
    /// The serialNumber field, as one complete TLV unit.
    pub serial_number: &'a [u8],
    /// The signature algorithm field, as one complete TLV unit.
    pub signature: &'a [u8],
    /// The issuer name, as one complete TLV unit.
    pub issuer: &'a [u8],
    /// The validity period, as one complete TLV unit.
    pub validity: &'a [u8],
    /// The subject name, as one complete TLV unit.
    pub subject: &'a [u8],
    /// The subjectPublicKeyInfo field, as one complete TLV unit.
    pub subject_public_key_info: &'a [u8],
    /// The optional issuerUniqueID, eagerly decoded when its `[1]` tag is
    /// present.
    pub issuer_unique_id: Option<BitStringRef<'a>>,
    /// The optional subjectUniqueID, eagerly decoded when its `[2]` tag is
    /// present.
    pub subject_unique_id: Option<BitStringRef<'a>>,
    /// The extensions field, as one complete TLV unit.
    pub extensions: &'a [u8],
}


/// The six mandatory opaque spans at the start of `s`, with the octets they
/// consume together.
pub open spec fn spec_six_spans(s: Seq<u8>) -> Option<(
    (Seq<u8>, Seq<u8>, Seq<u8>, Seq<u8>, Seq<u8>, Seq<u8>),
    int,
)> {
    match spec_tlv_size(s) {
        Option::None => None,
        Option::Some(n1) => {
            let s2 = s.skip(n1);
            match spec_tlv_size(s2) {
                Option::None => None,
                Option::Some(n2) => {
                    let s3 = s2.skip(n2);
                    match spec_tlv_size(s3) {
                        Option::None => None,
                        Option::Some(n3) => {
                            let s4 = s3.skip(n3);
                            match spec_tlv_size(s4) {
                                Option::None => None,
                                Option::Some(n4) => {
                                    let s5 = s4.skip(n4);
                                    match spec_tlv_size(s5) {
                                        Option::None => None,
                                        Option::Some(n5) => {
                                            let s6 = s5.skip(n5);
                                            match spec_tlv_size(s6) {
                                                Option::None => None,
                                                Option::Some(n6) => Some((
                                                    (s.take(n1), s2.take(n2), s3.take(n3),
                                                     s4.take(n4), s5.take(n5), s6.take(n6)),
                                                    n1 + n2 + n3 + n4 + n5 + n6,
                                                )),
                                            }
                                        },
                                    }
                                },
                            }
                        },
                    }
                },
            }
        },
    }
}

/// The error a failed run of the six mandatory spans raises.  Only
/// consulted where `spec_six_spans` is `None`.
pub open spec fn spec_six_spans_err(s: Seq<u8>) -> DerError {
    match spec_tlv_size(s) {
        Option::None => spec_header_err(s),
        Option::Some(n1) => {
            let s2 = s.skip(n1);
            match spec_tlv_size(s2) {
                Option::None => spec_header_err(s2),
                Option::Some(n2) => {
                    let s3 = s2.skip(n2);
                    match spec_tlv_size(s3) {
                        Option::None => spec_header_err(s3),
                        Option::Some(n3) => {
                            let s4 = s3.skip(n3);
                            match spec_tlv_size(s4) {
                                Option::None => spec_header_err(s4),
                                Option::Some(n4) => {
                                    let s5 = s4.skip(n4);
                                    match spec_tlv_size(s5) {
                                        Option::None => spec_header_err(s5),
                                        Option::Some(n5) => {
                                            let s6 = s5.skip(n5);
                                            spec_header_err(s6)
                                        },
                                    }
                                },
                            }
                        },
                    }
                },
            }
        },
    }
}

/// What the six mandatory spans consume together stays inside `s`.
pub proof fn lemma_six_spans_bounds(s: Seq<u8>)
    requires
        spec_six_spans(s) is Some,
    ensures
        0 <= spec_six_spans(s)->Some_0.1 <= s.len(),
{
    crate::reader::lemma_tlv_size_bounds(s);
    let s2 = s.skip(spec_tlv_size(s)->Some_0);
    crate::reader::lemma_tlv_size_bounds(s2);
    let s3 = s2.skip(spec_tlv_size(s2)->Some_0);
    crate::reader::lemma_tlv_size_bounds(s3);
    let s4 = s3.skip(spec_tlv_size(s3)->Some_0);
    crate::reader::lemma_tlv_size_bounds(s4);
    let s5 = s4.skip(spec_tlv_size(s4)->Some_0);
    crate::reader::lemma_tlv_size_bounds(s5);
    let s6 = s5.skip(spec_tlv_size(s5)->Some_0);
    crate::reader::lemma_tlv_size_bounds(s6);
}

/// Read the six mandatory TBSCertificate spans in order; see
/// [`spec_six_spans`].
fn read_six_spans<'a>(rd: &mut TlvReader, data: &'a [u8]) -> (r: Result<
    (&'a [u8], &'a [u8], &'a [u8], &'a [u8], &'a [u8], &'a [u8]),
    DerError,
>)
    requires
        old(rd).wf(data@),
    ensures
        final(rd).wf(data@),
        final(rd).end == old(rd).end,
        r is Ok <==> spec_six_spans(old(rd).remaining(data@)) is Some,
        r is Ok ==> ({
            let sp = spec_six_spans(old(rd).remaining(data@))->Some_0;
            &&& final(rd).pos == old(rd).pos + sp.1
            &&& r->Ok_0.0@ == sp.0.0
            &&& r->Ok_0.1@ == sp.0.1
            &&& r->Ok_0.2@ == sp.0.2
            &&& r->Ok_0.3@ == sp.0.3
            &&& r->Ok_0.4@ == sp.0.4
            &&& r->Ok_0.5@ == sp.0.5
        }),
        r is Err ==> r->Err_0 == spec_six_spans_err(old(rd).remaining(data@)),
{
    let ghost s = rd.remaining(data@);
    let a = match rd.tlv_bytes(data) {
        Ok(x) => x,
        Err(e) => {
            return Err(e);
        },
    };
    let ghost s2 = s.skip(spec_tlv_size(s)->Some_0);
    proof {
        crate::reader::lemma_tlv_size_bounds(s);
        assert(rd.remaining(data@) =~= s2);
    }
    let b = match rd.tlv_bytes(data) {
        Ok(x) => x,
        Err(e) => {
            return Err(e);
        },
    };
    let ghost s3 = s2.skip(spec_tlv_size(s2)->Some_0);
    proof {
        crate::reader::lemma_tlv_size_bounds(s2);
        assert(rd.remaining(data@) =~= s3);
    }
    let c = match rd.tlv_bytes(data) {
        Ok(x) => x,
        Err(e) => {
            return Err(e);
        },
    };
    let ghost s4 = s3.skip(spec_tlv_size(s3)->Some_0);
    proof {
        crate::reader::lemma_tlv_size_bounds(s3);
        assert(rd.remaining(data@) =~= s4);
    }
    let d = match rd.tlv_bytes(data) {
        Ok(x) => x,
        Err(e) => {
            return Err(e);
        },
    };
    let ghost s5 = s4.skip(spec_tlv_size(s4)->Some_0);
    proof {
        crate::reader::lemma_tlv_size_bounds(s4);
        assert(rd.remaining(data@) =~= s5);
    }
    let e5 = match rd.tlv_bytes(data) {
        Ok(x) => x,
        Err(e) => {
            return Err(e);
        },
    };
    let ghost s6 = s5.skip(spec_tlv_size(s5)->Some_0);
    proof {
        crate::reader::lemma_tlv_size_bounds(s5);
        assert(rd.remaining(data@) =~= s6);
    }
    let f = match rd.tlv_bytes(data) {
        Ok(x) => x,
        Err(e) => {
            return Err(e);
        },
    };
    Ok((a, b, c, d, e5, f))
}

/// The TBSCertificate tail at the start of `s`: the two optional
/// bit-string fields and the extensions span, with the octets they consume
/// together.
pub open spec fn spec_tbs_tail(s: Seq<u8>) -> Option<(
    (Option<(u8, Seq<u8>)>, Option<(u8, Seq<u8>)>, Seq<u8>),
    int,
)> {
    match spec_opt_bitstring_at(s, 0x81) {
        Option::None => None,
        Option::Some(ic) => {
            let s8 = s.skip(ic.1);
            match spec_opt_bitstring_at(s8, 0x82) {
                Option::None => None,
                Option::Some(sc) => {
                    let s9 = s8.skip(sc.1);
                    match spec_tlv_size(s9) {
                        Option::None => None,
                        Option::Some(n7) => Some((
                            (ic.0, sc.0, s9.take(n7)),
                            ic.1 + sc.1 + n7,
                        )),
                    }
                },
            }
        },
    }
}

/// The error a failed TBSCertificate tail raises.  Only consulted where
/// `spec_tbs_tail` is `None`.
pub open spec fn spec_tbs_tail_err(s: Seq<u8>) -> DerError {
    match spec_opt_bitstring_at(s, 0x81) {
        Option::None => spec_opt_bitstring_err(s),
        Option::Some(ic) => {
            let s8 = s.skip(ic.1);
            match spec_opt_bitstring_at(s8, 0x82) {
                Option::None => spec_opt_bitstring_err(s8),
                Option::Some(sc) => {
                    let s9 = s8.skip(sc.1);
                    spec_header_err(s9)
                },
            }
        },
    }
}

/// What the TBSCertificate tail consumes stays inside `s`.
pub proof fn lemma_tbs_tail_bounds(s: Seq<u8>)
    requires
        spec_tbs_tail(s) is Some,
    ensures
        0 <= spec_tbs_tail(s)->Some_0.1 <= s.len(),
{
    lemma_opt_bitstring_bounds(s, 0x81);
    let s8 = s.skip(spec_opt_bitstring_at(s, 0x81)->Some_0.1);
    lemma_opt_bitstring_bounds(s8, 0x82);
    let s9 = s8.skip(spec_opt_bitstring_at(s8, 0x82)->Some_0.1);
    crate::reader::lemma_tlv_size_bounds(s9);
}

/// Read the TBSCertificate tail: the optional unique identifiers and the
/// extensions span; see [`spec_tbs_tail`].
fn read_tbs_tail<'a>(rd: &mut TlvReader, data: &'a [u8]) -> (r: Result<
    (Option<BitStringRef<'a>>, Option<BitStringRef<'a>>, &'a [u8]),
    DerError,
>)
    requires
        old(rd).wf(data@),
    ensures
        final(rd).wf(data@),
        final(rd).end == old(rd).end,
        r is Ok <==> spec_tbs_tail(old(rd).remaining(data@)) is Some,
        r is Ok ==> ({
            let tl = spec_tbs_tail(old(rd).remaining(data@))->Some_0;
            &&& final(rd).pos == old(rd).pos + tl.1
            &&& (r->Ok_0.0 is Some <==> tl.0.0 is Some)
            &&& (r->Ok_0.0 is Some ==> r->Ok_0.0->Some_0.unused_bits == tl.0.0->Some_0.0
                && r->Ok_0.0->Some_0.bits@ == tl.0.0->Some_0.1)
            &&& (r->Ok_0.1 is Some <==> tl.0.1 is Some)
            &&& (r->Ok_0.1 is Some ==> r->Ok_0.1->Some_0.unused_bits == tl.0.1->Some_0.0
                && r->Ok_0.1->Some_0.bits@ == tl.0.1->Some_0.1)
            &&& r->Ok_0.2@ == tl.0.2
        }),
        r is Err ==> r->Err_0 == spec_tbs_tail_err(old(rd).remaining(data@)),
{
    let ghost s = rd.remaining(data@);
    let issuer_uid = match read_opt_bitstring(rd, data, 0x81) {
        Ok(x) => x,
        Err(e) => {
            return Err(e);
        },
    };
    let ghost s8 = s.skip(spec_opt_bitstring_at(s, 0x81)->Some_0.1);
    proof {
        lemma_opt_bitstring_bounds(s, 0x81);
        assert(rd.remaining(data@) =~= s8);
    }
    let subject_uid = match read_opt_bitstring(rd, data, 0x82) {
        Ok(x) => x,
        Err(e) => {
            return Err(e);
        },
    };
    let ghost s9 = s8.skip(spec_opt_bitstring_at(s8, 0x82)->Some_0.1);
    proof {
        lemma_opt_bitstring_bounds(s8, 0x82);
        assert(rd.remaining(data@) =~= s9);
    }
    let exts = match rd.tlv_bytes(data) {
        Ok(x) => x,
        Err(e) => {
            return Err(e);
        },
    };
    Ok((issuer_uid, subject_uid, exts))
}

/// The fields of a well-formed TBSCertificate: the version, the six
/// mandatory opaque spans, the two optional bit strings, the extensions
/// span.  `b` must be exactly one SEQUENCE holding exactly these fields in
/// fixed order.
pub open spec fn spec_tbs_fields(b: Seq<u8>) -> Option<(
    u8,
    (Seq<u8>, Seq<u8>, Seq<u8>, Seq<u8>, Seq<u8>, Seq<u8>),
    (Option<(u8, Seq<u8>)>, Option<(u8, Seq<u8>)>, Seq<u8>),
)> {
    match spec_header_at(b) {
        Option::None => None,
        Option::Some(tlh) => {
            if tlh.0 != Tag::Sequence || tlh.2 + tlh.1 != b.len() {
                None
            } else {
                let content = b.subrange(tlh.2, tlh.2 + tlh.1);
                match spec_version_at(content) {
                    Option::None => None,
                    Option::Some(vc) => {
                        match spec_six_spans(content.skip(vc.1)) {
                            Option::None => None,
                            Option::Some(sp) => {
                                match spec_tbs_tail(content.skip(vc.1 + sp.1)) {
                                    Option::None => None,
                                    Option::Some(tl) => {
                                        if vc.1 + sp.1 + tl.1 == tlh.1 {
                                            Some((vc.0, sp.0, tl.0))
                                        } else {
                                            None
                                        }
                                    },
                                }
                            },
                        }
                    },
                }
            }
        },
    }
}

/// The error a failed TBSCertificate decode raises, in the order the
/// decoder meets the faults.  Only consulted where `spec_tbs_fields` is
/// `None`.
pub open spec fn spec_tbs_err(b: Seq<u8>) -> DerError {
    match spec_header_at(b) {
        Option::None => spec_header_err(b),
        Option::Some(tlh) => {
            if tlh.0 != Tag::Sequence {
                DerError::UnexpectedTag
            } else {
                let content = b.subrange(tlh.2, tlh.2 + tlh.1);
                match spec_version_at(content) {
                    Option::None => spec_version_err(content),
                    Option::Some(vc) => {
                        match spec_six_spans(content.skip(vc.1)) {
                            Option::None => spec_six_spans_err(content.skip(vc.1)),
                            Option::Some(sp) => {
                                match spec_tbs_tail(content.skip(vc.1 + sp.1)) {
                                    Option::None => spec_tbs_tail_err(content.skip(vc.1 + sp.1)),
                                    Option::Some(tl) => DerError::TrailingData,
                                }
                            },
                        }
                    },
                }
            }
        },
    }
}

/// Decode a TBSCertificate TLV.  Succeeds exactly when `bytes` is one
/// SEQUENCE holding, in fixed order: an optional explicit version, six
/// mandatory TLV units, two optional context-tagged bit strings, and one
/// extensions TLV unit, together filling the scope exactly.
pub fn decode_tbs_certificate<'a>(bytes: &'a [u8]) -> (r: Result<
    DeferDecodeTbsCertificate<'a>,
    DerError,
>)
    ensures
        r is Ok <==> spec_tbs_fields(bytes@) is Some,
        r is Ok ==> ({
            let f = spec_tbs_fields(bytes@)->Some_0;
            &&& r->Ok_0.version == f.0
            &&& r->Ok_0.serial_number@ == f.1.0
            &&& r->Ok_0.signature@ == f.1.1
            &&& r->Ok_0.issuer@ == f.1.2
            &&& r->Ok_0.validity@ == f.1.3
            &&& r->Ok_0.subject@ == f.1.4
            &&& r->Ok_0.subject_public_key_info@ == f.1.5
            &&& (r->Ok_0.issuer_unique_id is Some <==> f.2.0 is Some)
            &&& (r->Ok_0.issuer_unique_id is Some ==>
                r->Ok_0.issuer_unique_id->Some_0.unused_bits == f.2.0->Some_0.0
                && r->Ok_0.issuer_unique_id->Some_0.bits@ == f.2.0->Some_0.1)
            &&& (r->Ok_0.subject_unique_id is Some <==> f.2.1 is Some)
            &&& (r->Ok_0.subject_unique_id is Some ==>
                r->Ok_0.subject_unique_id->Some_0.unused_bits == f.2.1->Some_0.0
                && r->Ok_0.subject_unique_id->Some_0.bits@ == f.2.1->Some_0.1)
            &&& r->Ok_0.extensions@ == f.2.2
        }),
        r is Err ==> r->Err_0 == spec_tbs_err(bytes@),
{
    let mut rd = TlvReader::new(bytes);
    proof {
        assert(rd.remaining(bytes@) =~= bytes@);
    }
    let h = match rd.read_header(bytes) {
        Ok(h) => h,
        Err(e) => {
            return Err(e);
        },
    };
    if !matches!(h.tag, Tag::Sequence) {
        return Err(DerError::UnexpectedTag);
    }
    let ghost tlh = spec_header_at(bytes@)->Some_0;
    let ghost content = bytes@.subrange(tlh.2, tlh.2 + tlh.1);
    let saved = rd.enter_nested(h.length);
    proof {
        assert(rd.remaining(bytes@) =~= content);
    }
    let version = match read_version(&mut rd, bytes) {
        Ok(v) => v,
        Err(e) => {
            return Err(e);
        },
    };
    let ghost s1 = content.skip(spec_version_at(content)->Some_0.1);
    proof {
        lemma_version_at_bounds(content);
        assert(rd.remaining(bytes@) =~= s1);
    }
    let spans = match read_six_spans(&mut rd, bytes) {
        Ok(x) => x,
        Err(e) => {
            return Err(e);
        },
    };
    let ghost s7 = s1.skip(spec_six_spans(s1)->Some_0.1);
    proof {
        lemma_version_at_bounds(content);
        lemma_six_spans_bounds(s1);
        assert(rd.remaining(bytes@) =~= s7);
        assert(s7 =~= content.skip(
            spec_version_at(content)->Some_0.1 + spec_six_spans(s1)->Some_0.1));
    }
    let tail = match read_tbs_tail(&mut rd, bytes) {
        Ok(x) => x,
        Err(e) => {
            return Err(e);
        },
    };
    match rd.exit_nested(saved) {
        Ok(()) => {},
        Err(e) => {
            return Err(e);
        },
    }
    match rd.finish() {
        Ok(()) => {},
        Err(e) => {
            return Err(e);
        },
    }
    Ok(DeferDecodeTbsCertificate {
        version,
        serial_number: spans.0,
        signature: spans.1,
        issuer: spans.2,
        validity: spans.3,
        subject: spans.4,
        subject_public_key_info: spans.5,
        issuer_unique_id: tail.0,
        subject_unique_id: tail.1,
        extensions: tail.2,
    })
}

/// A TBSCertificate whose content does not open with the explicit `[0]`
/// version tag decodes with the default version 0.
pub proof fn lemma_tbs_default_version(b: Seq<u8>)
    requires
        spec_tbs_fields(b) is Some,
        ({
            let tlh = spec_header_at(b)->Some_0;
            let content = b.subrange(tlh.2, tlh.2 + tlh.1);
            content.len() == 0 || content[0] != 0xA0
        }),
    ensures
        spec_tbs_fields(b)->Some_0.0 == 0,
{
}

} // verus!

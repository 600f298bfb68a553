//! Tests of the TLV cursor and the deferred-decode record builders.

use der_codec::bitstring::BitStringRef;
use der_codec::cert::{decode_certificate, decode_tbs_certificate};
use der_codec::errors::DerError;
use der_codec::reader::TlvReader;
use der_codec::region::ByteRegion;
use der_codec::tag::Tag;

const TBS_UNIT: &[u8] = &[0x30, 0x03, 0x02, 0x01, 0x05];
const ALG_UNIT: &[u8] = &[0x30, 0x02, 0x05, 0x00];
const SIG_UNIT: &[u8] = &[0x03, 0x01, 0x00];

fn sample_certificate() -> Vec<u8> {
    let mut cert: Vec<u8> = vec![0x30, 0x0C];
    cert.extend_from_slice(TBS_UNIT);
    cert.extend_from_slice(ALG_UNIT);
    cert.extend_from_slice(SIG_UNIT);
    cert
}

#[test]
fn certificate_three_spans() {
    let cert = sample_certificate();
    let record = decode_certificate(&cert).unwrap();
    assert_eq!(record.tbs_certificate, TBS_UNIT);
    assert_eq!(record.signature_algorithm, ALG_UNIT);
    assert_eq!(record.signature, SIG_UNIT);

    // the header plus the three spans reconstruct the input
    let mut rebuilt: Vec<u8> = vec![0x30, 0x0C];
    rebuilt.extend_from_slice(record.tbs_certificate);
    rebuilt.extend_from_slice(record.signature_algorithm);
    rebuilt.extend_from_slice(record.signature);
    assert_eq!(rebuilt, cert);

    // each captured span is a self-describing unit a fresh cursor can walk
    let inner = decode_uint_from_span(record.tbs_certificate);
    assert_eq!(inner, &[0x05]);
}

fn decode_uint_from_span(span: &[u8]) -> &[u8] {
    let mut rd = TlvReader::new(span);
    let h = rd.read_header(span).unwrap();
    assert_eq!(h.tag, Tag::Sequence);
    let inner = rd.tlv_bytes(span).unwrap();
    rd.finish().unwrap();
    der_codec::uint::decode_uint(inner).unwrap().as_bytes()
}

#[test]
fn certificate_rejects_wrong_tag() {
    let mut cert = sample_certificate();
    cert[0] = 0x02;
    assert_eq!(decode_certificate(&cert).err().unwrap(), DerError::UnexpectedTag);
}

#[test]
fn certificate_scope_too_long_is_trailing() {
    // one spare byte inside the declared scope after the three units
    let mut cert: Vec<u8> = vec![0x30, 0x0D];
    cert.extend_from_slice(TBS_UNIT);
    cert.extend_from_slice(ALG_UNIT);
    cert.extend_from_slice(SIG_UNIT);
    cert.push(0x00);
    assert_eq!(decode_certificate(&cert).err().unwrap(), DerError::TrailingData);
}

#[test]
fn certificate_scope_too_short_is_truncated() {
    // the declared scope cuts the third unit off after its tag octet
    let mut cert: Vec<u8> = vec![0x30, 0x0A];
    cert.extend_from_slice(TBS_UNIT);
    cert.extend_from_slice(ALG_UNIT);
    cert.push(SIG_UNIT[0]);
    assert_eq!(
        decode_certificate(&cert).err().unwrap(),
        DerError::TruncatedInput
    );
}

#[test]
fn certificate_trailing_after_unit() {
    let mut cert = sample_certificate();
    cert.push(0x00);
    assert_eq!(decode_certificate(&cert).err().unwrap(), DerError::TrailingData);
}

const TBS_FIELDS: &[&[u8]] = &[
    &[0x02, 0x01, 0x01],  // serialNumber
    &[0x30, 0x00],        // signature
    &[0x30, 0x00],        // issuer
    &[0x30, 0x00],        // validity
    &[0x30, 0x00],        // subject
    &[0x30, 0x00],        // subjectPublicKeyInfo
];
const EXT_UNIT: &[u8] = &[0xA3, 0x00];

fn tbs_without_version() -> Vec<u8> {
    let mut content: Vec<u8> = Vec::new();
    for field in TBS_FIELDS {
        content.extend_from_slice(field);
    }
    content.extend_from_slice(EXT_UNIT);
    let mut tbs: Vec<u8> = vec![0x30, content.len() as u8];
    tbs.extend_from_slice(&content);
    tbs
}

#[test]
fn tbs_default_version_is_zero() {
    let tbs = tbs_without_version();
    let record = decode_tbs_certificate(&tbs).unwrap();
    assert_eq!(record.version, 0);
    assert_eq!(record.serial_number, TBS_FIELDS[0]);
    assert_eq!(record.signature, TBS_FIELDS[1]);
    assert_eq!(record.issuer, TBS_FIELDS[2]);
    assert_eq!(record.validity, TBS_FIELDS[3]);
    assert_eq!(record.subject, TBS_FIELDS[4]);
    assert_eq!(record.subject_public_key_info, TBS_FIELDS[5]);
    assert!(record.issuer_unique_id.is_none());
    assert!(record.subject_unique_id.is_none());
    assert_eq!(record.extensions, EXT_UNIT);
}

#[test]
fn tbs_explicit_version() {
    let mut content: Vec<u8> = vec![0xA0, 0x03, 0x02, 0x01, 0x02];
    for field in TBS_FIELDS {
        content.extend_from_slice(field);
    }
    content.extend_from_slice(EXT_UNIT);
    let mut tbs: Vec<u8> = vec![0x30, content.len() as u8];
    tbs.extend_from_slice(&content);

    let record = decode_tbs_certificate(&tbs).unwrap();
    assert_eq!(record.version, 2);
    assert_eq!(record.serial_number, TBS_FIELDS[0]);
    assert_eq!(record.extensions, EXT_UNIT);
}

#[test]
fn tbs_unique_ids_present() {
    let mut content: Vec<u8> = Vec::new();
    for field in TBS_FIELDS {
        content.extend_from_slice(field);
    }
    content.extend_from_slice(&[0x81, 0x02, 0x00, 0xAA]);
    content.extend_from_slice(&[0x82, 0x02, 0x04, 0xB0]);
    content.extend_from_slice(EXT_UNIT);
    let mut tbs: Vec<u8> = vec![0x30, content.len() as u8];
    tbs.extend_from_slice(&content);

    let record = decode_tbs_certificate(&tbs).unwrap();
    assert_eq!(record.version, 0);
    let issuer_uid = record.issuer_unique_id.unwrap();
    assert_eq!(issuer_uid.unused_bits, 0);
    assert_eq!(issuer_uid.bits, &[0xAA]);
    let subject_uid = record.subject_unique_id.unwrap();
    assert_eq!(subject_uid.unused_bits, 4);
    assert_eq!(subject_uid.bits, &[0xB0]);
}

#[test]
fn tbs_oversized_version_is_length_error() {
    let mut content: Vec<u8> = vec![0xA0, 0x04, 0x02, 0x02, 0x01, 0x00];
    for field in TBS_FIELDS {
        content.extend_from_slice(field);
    }
    content.extend_from_slice(EXT_UNIT);
    let mut tbs: Vec<u8> = vec![0x30, content.len() as u8];
    tbs.extend_from_slice(&content);

    assert_eq!(decode_tbs_certificate(&tbs).err().unwrap(), DerError::Length);
}

#[test]
fn reader_header_forms() {
    // short form
    let data: &[u8] = &[0x02, 0x01, 0x07];
    let mut rd = TlvReader::new(data);
    let h = rd.read_header(data).unwrap();
    assert_eq!(h.tag, Tag::Integer);
    assert_eq!(h.length, 1);

    // minimal two-octet long form
    let mut long: Vec<u8> = vec![0x30, 0x81, 0x80];
    long.extend(std::iter::repeat(0x00).take(0x80));
    let mut rd = TlvReader::new(&long);
    let h = rd.read_header(&long).unwrap();
    assert_eq!(h.tag, Tag::Sequence);
    assert_eq!(h.length, 0x80);

    // non-minimal long form is a length error
    let bad: &[u8] = &[0x30, 0x81, 0x7F];
    let mut rd = TlvReader::new(bad);
    assert_eq!(rd.read_header(bad).err().unwrap(), DerError::Length);

    // high-tag-number form is unsupported
    let high: &[u8] = &[0x1F, 0x01, 0x00];
    let mut rd = TlvReader::new(high);
    assert_eq!(rd.read_header(high).err().unwrap(), DerError::UnexpectedTag);

    // empty input is truncated
    let empty: &[u8] = &[];
    let mut rd = TlvReader::new(empty);
    assert_eq!(rd.read_header(empty).err().unwrap(), DerError::TruncatedInput);
}

#[test]
fn bitstring_content_rules() {
    let ok = BitStringRef::decode_value(&[0x00]).unwrap();
    assert_eq!(ok.unused_bits, 0);
    assert_eq!(ok.bits, &[] as &[u8]);

    let ok = BitStringRef::decode_value(&[0x07, 0x80]).unwrap();
    assert_eq!(ok.unused_bits, 7);
    assert_eq!(ok.bits, &[0x80]);

    assert_eq!(BitStringRef::decode_value(&[]).err().unwrap(), DerError::Length);
    assert_eq!(BitStringRef::decode_value(&[0x08, 0x00]).err().unwrap(), DerError::Length);
    assert_eq!(BitStringRef::decode_value(&[0x01]).err().unwrap(), DerError::Length);
    assert_eq!(BitStringRef::new(3, &[0xF8]).unwrap().unused_bits, 3);
    assert_eq!(BitStringRef::new(8, &[0xF8]).err().unwrap(), DerError::Length);
}

#[test]
fn byte_region_basics() {
    let region = ByteRegion::new(vec![1, 2, 3]).unwrap();
    assert_eq!(region.len(), 3);
    assert!(!region.is_empty());
    assert_eq!(region.as_slice(), &[1, 2, 3]);

    let empty = ByteRegion::new(Vec::new()).unwrap();
    assert!(empty.is_empty());
    assert_eq!(empty.len(), 0);
}

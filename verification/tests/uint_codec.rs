//! Tests of the canonical unsigned INTEGER codec.

use der_codec::errors::DerError;
use der_codec::reader::Header;
use der_codec::tag::Tag;
use der_codec::uint::{decode_uint, encode_uint, Uint, UintRef};

const I0_BYTES: &[u8] = &[0x02, 0x01, 0x00];
const I127_BYTES: &[u8] = &[0x02, 0x01, 0x7F];
const I128_BYTES: &[u8] = &[0x02, 0x02, 0x00, 0x80];
const I255_BYTES: &[u8] = &[0x02, 0x02, 0x00, 0xFF];
const I256_BYTES: &[u8] = &[0x02, 0x02, 0x01, 0x00];
const I32767_BYTES: &[u8] = &[0x02, 0x02, 0x7F, 0xFF];

#[test]
fn decode_uint_bytes() {
    assert_eq!(&[0], UintRef::from_der(I0_BYTES).unwrap().as_bytes());
    assert_eq!(&[127], UintRef::from_der(I127_BYTES).unwrap().as_bytes());
    assert_eq!(&[128], UintRef::from_der(I128_BYTES).unwrap().as_bytes());
    assert_eq!(&[255], UintRef::from_der(I255_BYTES).unwrap().as_bytes());

    assert_eq!(
        &[0x01, 0x00],
        UintRef::from_der(I256_BYTES).unwrap().as_bytes()
    );

    assert_eq!(
        &[0x7F, 0xFF],
        UintRef::from_der(I32767_BYTES).unwrap().as_bytes()
    );
}

#[test]
fn encode_uint_bytes() {
    for &example in &[
        I0_BYTES,
        I127_BYTES,
        I128_BYTES,
        I255_BYTES,
        I256_BYTES,
        I32767_BYTES,
    ] {
        let uint = UintRef::from_der(example).unwrap();

        let mut buf: Vec<u8> = Vec::new();
        uint.encode(&mut buf).unwrap();

        assert_eq!(example, buf.as_slice());
    }
}

#[test]
fn reject_oversize_without_extra_zero() {
    let header = Header { tag: Tag::Integer, length: 1 };
    let err = UintRef::decode_value(&header, &[0x81]).err().unwrap();

    assert_eq!(err, DerError::NonCanonicalEncoding);
}

#[test]
fn decode_value_boundaries() {
    let h1 = Header { tag: Tag::Integer, length: 1 };
    let zero = UintRef::decode_value(&h1, &[0x00]).unwrap();
    assert_eq!(zero.as_bytes(), &[0x00]);
    assert_eq!(zero.len(), 1);
    assert!(!zero.is_empty());

    let v127 = UintRef::decode_value(&h1, &[0x7F]).unwrap();
    assert_eq!(v127.as_bytes(), &[0x7F]);

    let h2 = Header { tag: Tag::Integer, length: 2 };
    let v128 = UintRef::decode_value(&h2, &[0x00, 0x80]).unwrap();
    assert_eq!(v128.as_bytes(), &[0x80]);
    assert_eq!(v128.len(), 1);
    assert_eq!(v128.value_len().unwrap(), 2);
    let mut out: Vec<u8> = Vec::new();
    v128.encode_value(&mut out).unwrap();
    assert_eq!(out.as_slice(), &[0x00, 0x80]);
}

#[test]
fn decode_value_rejects_padding() {
    let h2 = Header { tag: Tag::Integer, length: 2 };
    let err = UintRef::decode_value(&h2, &[0x00, 0x05]).err().unwrap();
    assert_eq!(err, DerError::NonCanonicalEncoding);

    let h3 = Header { tag: Tag::Integer, length: 3 };
    let err = UintRef::decode_value(&h3, &[0x00, 0x00, 0x80]).err().unwrap();
    assert_eq!(err, DerError::NonCanonicalEncoding);

    let h0 = Header { tag: Tag::Integer, length: 0 };
    let err = UintRef::decode_value(&h0, &[]).err().unwrap();
    assert_eq!(err, DerError::NonCanonicalEncoding);
}

#[test]
fn content_round_trip() {
    let cases: &[&[u8]] = &[
        &[0x00],
        &[0x7F],
        &[0x00, 0x80],
        &[0x00, 0xFF],
        &[0x01, 0x00],
        &[0x7F, 0xFF],
        &[0x01, 0x02, 0x03],
    ];
    for &content in cases {
        let header = Header { tag: Tag::Integer, length: content.len() };
        let v = UintRef::decode_value(&header, content).unwrap();
        let mut out: Vec<u8> = Vec::new();
        v.encode_value(&mut out).unwrap();
        assert_eq!(out.as_slice(), content);
    }
}

#[test]
fn new_strips_leading_zeroes() {
    let v = UintRef::new(&[0x00, 0x00, 0x01, 0x02]).unwrap();
    assert_eq!(v.as_bytes(), &[0x01, 0x02]);

    let z = UintRef::new(&[0x00, 0x00, 0x00]).unwrap();
    assert_eq!(z.as_bytes(), &[0x00]);

    let e = UintRef::new(&[]).unwrap();
    assert!(e.is_empty());
    assert_eq!(e.len(), 0);
}

#[test]
fn owned_uint_matches_borrowed() {
    let v = Uint::from_der(I256_BYTES).unwrap();
    assert_eq!(v.as_bytes(), &[0x01, 0x00]);
    assert_eq!(v.len(), 2);
    assert!(!v.is_empty());
    assert_eq!(v.value_len().unwrap(), 2);

    let r = v.to_ref();
    assert_eq!(r.as_bytes(), &[0x01, 0x00]);
    let back = r.to_owned().unwrap();
    assert_eq!(back.as_bytes(), v.as_bytes());

    let constructed = Uint::new(&[0x00, 0x80]).unwrap();
    assert_eq!(constructed.as_bytes(), &[0x80]);

    let mut out: Vec<u8> = Vec::new();
    v.encode(&mut out).unwrap();
    assert_eq!(out.as_slice(), I256_BYTES);
    let mut out2: Vec<u8> = Vec::new();
    constructed.encode_value(&mut out2).unwrap();
    assert_eq!(out2.as_slice(), &[0x00, 0x80]);
}

#[test]
fn free_functions_match_methods() {
    let v = decode_uint(I32767_BYTES).unwrap();
    assert_eq!(v.as_bytes(), &[0x7F, 0xFF]);
    let mut out: Vec<u8> = Vec::new();
    encode_uint(&v, &mut out).unwrap();
    assert_eq!(out.as_slice(), I32767_BYTES);
}

#[test]
fn from_der_error_kinds() {
    // wrong tag
    assert_eq!(
        UintRef::from_der(&[0x30, 0x01, 0x00]).err().unwrap(),
        DerError::UnexpectedTag
    );
    // indefinite length form
    assert_eq!(
        UintRef::from_der(&[0x02, 0x80, 0x00]).err().unwrap(),
        DerError::Length
    );
    // non-minimal long length form
    assert_eq!(
        UintRef::from_der(&[0x02, 0x81, 0x01, 0x00]).err().unwrap(),
        DerError::Length
    );
    // declared length past the buffer
    assert_eq!(
        UintRef::from_der(&[0x02, 0x05, 0x00]).err().unwrap(),
        DerError::TruncatedInput
    );
    // bytes after the unit
    assert_eq!(
        UintRef::from_der(&[0x02, 0x01, 0x00, 0xFF]).err().unwrap(),
        DerError::TrailingData
    );
    // negative-looking content without the leading zero
    assert_eq!(
        UintRef::from_der(&[0x02, 0x01, 0x81]).err().unwrap(),
        DerError::NonCanonicalEncoding
    );
}

#[test]
fn long_form_length_round_trip() {
    // 0x81 content bytes force the two-octet long length form
    let mut content: Vec<u8> = vec![0x01];
    content.extend(std::iter::repeat(0xAB).take(0x80));
    let mut input: Vec<u8> = vec![0x02, 0x81, 0x81];
    input.extend_from_slice(&content);

    let v = UintRef::from_der(&input).unwrap();
    assert_eq!(v.as_bytes(), content.as_slice());
    let mut out: Vec<u8> = Vec::new();
    v.encode(&mut out).unwrap();
    assert_eq!(out, input);
}

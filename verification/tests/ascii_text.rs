//! Tests of the printable-ASCII text decoding.

use der_codec::ascii::decimals_to_string;

#[test]
fn printable_bytes_become_text() {
    assert_eq!(decimals_to_string(&[72, 105, 33]).unwrap(), "Hi!");
    assert_eq!(decimals_to_string(&[32]).unwrap(), " ");
    assert_eq!(decimals_to_string(&[126]).unwrap(), "~");
    assert_eq!(decimals_to_string(&[]).unwrap(), "");
}

#[test]
fn out_of_range_bytes_are_rejected() {
    assert_eq!(
        decimals_to_string(&[72, 31]).err().unwrap(),
        "the number is outside the ascii range"
    );
    assert_eq!(
        decimals_to_string(&[127]).err().unwrap(),
        "the number is outside the ascii range"
    );
    assert_eq!(
        decimals_to_string(&[200]).err().unwrap(),
        "the number is outside the ascii range"
    );
}

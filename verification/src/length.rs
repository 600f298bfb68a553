//! Length octets: short form for lengths under 128, minimal long form with
//! up to four length octets otherwise.  The indefinite form and non-minimal
//! long forms are rejected.

use vstd::prelude::*;
use crate::errors::DerError;
use crate::region::MAX_REGION_LEN;

verus! {

/// The big-endian value of a byte string.
pub open spec fn be_value(s: Seq<u8>) -> int
    decreases s.len(),
{
    if s.len() == 0 {
        0
    } else {
        be_value(s.drop_last()) * 256 + s.last()
    }
}

/// `be_value` is non-negative and bounded by 256 to the byte count.
pub proof fn lemma_be_value_bound(s: Seq<u8>)
    ensures
        0 <= be_value(s) < vstd::arithmetic::power::pow(256, s.len()),
    decreases s.len(),
{
    vstd::arithmetic::power::lemma_pow_positive(256, s.len());
    if s.len() > 0 {
        lemma_be_value_bound(s.drop_last());
        assert(vstd::arithmetic::power::pow(256, s.len()) ==
            256 * vstd::arithmetic::power::pow(256, (s.len() - 1) as nat)) by {
            reveal(vstd::arithmetic::power::pow);
        }
        assert(be_value(s.drop_last()) * 256 + s.last() <
            vstd::arithmetic::power::pow(256, s.len())) by (nonlinear_arith)
            requires
                0 <= be_value(s.drop_last()),
                be_value(s.drop_last()) <= vstd::arithmetic::power::pow(256, (s.len() - 1) as nat) - 1,
                s.last() < 256,
                vstd::arithmetic::power::pow(256, s.len()) ==
                    256 * vstd::arithmetic::power::pow(256, (s.len() - 1) as nat);
    }
}

/// At most four bytes stay under the four-octet ceiling.
pub proof fn lemma_be_value_bound4(s: Seq<u8>)
    requires
        s.len() <= 4,
    ensures
        0 <= be_value(s) < 0x100000000,
{
    lemma_be_value_bound(s);
    reveal_with_fuel(vstd::arithmetic::power::pow, 5);
    assert(vstd::arithmetic::power::pow(256, 0) == 1);
    assert(vstd::arithmetic::power::pow(256, 1) == 0x100);
    assert(vstd::arithmetic::power::pow(256, 2) == 0x10000);
    assert(vstd::arithmetic::power::pow(256, 3) == 0x1000000);
    assert(vstd::arithmetic::power::pow(256, 4) == 0x100000000);
}

/// The canonical encoding of a length value `0 <= n <= MAX_REGION_LEN`.
pub open spec fn len_encoding(n: int) -> Seq<u8> {
    if n < 0x80 {
        seq![n as u8]
    } else if n < 0x100 {
        seq![0x81u8, n as u8]
    } else if n < 0x10000 {
        seq![0x82u8, (n / 0x100) as u8, (n % 0x100) as u8]
    } else if n < 0x1000000 {
        seq![0x83u8, (n / 0x10000) as u8, ((n / 0x100) % 0x100) as u8, (n % 0x100) as u8]
    } else {
        seq![
            0x84u8,
            (n / 0x1000000) as u8,
            ((n / 0x10000) % 0x100) as u8,
            ((n / 0x100) % 0x100) as u8,
            (n % 0x100) as u8,
        ]
    }
}

/// Append the canonical encoding of the length value `n` to `out`.
pub fn write_len(out: &mut Vec<u8>, n: usize)
    requires
        n <= MAX_REGION_LEN,
    ensures
        final(out)@ == old(out)@ + len_encoding(n as int),
{
    if n < 0x80 {
        out.push(n as u8);
    } else if n < 0x100 {
        out.push(0x81);
        out.push(n as u8);
    } else if n < 0x10000 {
        out.push(0x82);
        out.push((n / 0x100) as u8);
        out.push((n % 0x100) as u8);
    } else if n < 0x1000000 {
        out.push(0x83);
        out.push((n / 0x10000) as u8);
        out.push(((n / 0x100) % 0x100) as u8);
        out.push((n % 0x100) as u8);
    } else {
        out.push(0x84);
        out.push((n / 0x1000000) as u8);
        out.push(((n / 0x10000) % 0x100) as u8);
        out.push(((n / 0x100) % 0x100) as u8);
        out.push((n % 0x100) as u8);
    }
    proof {
        assert(out@ =~= old(out)@ + len_encoding(n as int));
    }
}

/// Parse the length octets at the start of `s`: the length value and the
/// number of octets it took.  `None` when `s` is too short, the form is
/// indefinite or longer than four length octets, or the form is not minimal.
pub open spec fn parse_len(s: Seq<u8>) -> Option<(int, int)> {
    if s.len() < 1 {
        None
    } else if s[0] < 0x80 {
        Some((s[0] as int, 1))
    } else {
        let n = s[0] as int - 0x80;
        if n < 1 || n > 4 {
            None
        } else if s.len() < 1 + n {
            None
        } else {
            let v = be_value(s.subrange(1, 1 + n));
            if s[1] == 0 {
                None
            } else if v < 0x80 {
                None
            } else {
                Some((v, 1 + n))
            }
        }
    }
}

/// The error a failed length parse raises: truncation when octets are
/// missing, a length error for every malformed form.  Only consulted where
/// `parse_len` is `None`.
pub open spec fn parse_len_err(s: Seq<u8>) -> DerError {
    if s.len() < 1 {
        DerError::TruncatedInput
    } else if s[0] < 0x80 {
        DerError::Length
    } else {
        let n = s[0] as int - 0x80;
        if n < 1 || n > 4 {
            DerError::Length
        } else if s.len() < 1 + n {
            DerError::TruncatedInput
        } else {
            DerError::Length
        }
    }
}

/// The big-endian value of up to four bytes, written as a weighted sum.
proof fn lemma_be_value_unfold4(d: Seq<u8>)
    requires
        1 <= d.len() <= 4,
    ensures
        d.len() == 1 ==> be_value(d) == d[0],
        d.len() == 2 ==> be_value(d) == d[0] * 0x100 + d[1],
        d.len() == 3 ==> be_value(d) == d[0] * 0x10000 + d[1] * 0x100 + d[2],
        d.len() == 4 ==> be_value(d) == d[0] * 0x1000000 + d[1] * 0x10000 + d[2] * 0x100 + d[3],
{
    reveal_with_fuel(be_value, 5);
}

/// Each length octet of a value is recovered by dividing it back out.
proof fn lemma_digits_of_value(d0: int, d1: int, d2: int, d3: int)
    requires
        0 <= d0 < 0x100,
        0 <= d1 < 0x100,
        0 <= d2 < 0x100,
        0 <= d3 < 0x100,
    ensures
        ({
            let v = d0 * 0x1000000 + d1 * 0x10000 + d2 * 0x100 + d3;
            &&& v / 0x1000000 == d0
            &&& (v / 0x10000) % 0x100 == d1
            &&& (v / 0x100) % 0x100 == d2
            &&& v % 0x100 == d3
        }),
{
    let v = d0 * 0x1000000 + d1 * 0x10000 + d2 * 0x100 + d3;
    vstd::arithmetic::div_mod::lemma_fundamental_div_mod_converse(
        v, 0x1000000, d0, d1 * 0x10000 + d2 * 0x100 + d3);
    vstd::arithmetic::div_mod::lemma_fundamental_div_mod_converse(
        v, 0x10000, d0 * 0x100 + d1, d2 * 0x100 + d3);
    vstd::arithmetic::div_mod::lemma_fundamental_div_mod_converse(
        v, 0x100, d0 * 0x10000 + d1 * 0x100 + d2, d3);
    vstd::arithmetic::div_mod::lemma_fundamental_div_mod_converse(
        d0 * 0x100 + d1, 0x100, d0, d1);
    vstd::arithmetic::div_mod::lemma_fundamental_div_mod_converse(
        d0 * 0x10000 + d1 * 0x100 + d2, 0x100, d0 * 0x100 + d1, d2);
}

/// A parsed length is in canonical form: the octets consumed are exactly
/// the canonical encoding of the value read, so length encodings are
/// unique.
pub proof fn lemma_parse_len_canonical(s: Seq<u8>)
    requires
        parse_len(s) is Some,
    ensures
        ({
            let vc = parse_len(s)->Some_0;
            s.take(vc.1) == len_encoding(vc.0)
        }),
{
    let vc = parse_len(s)->Some_0;
    if s[0] < 0x80 {
        assert(s.take(1) =~= seq![s[0]]);
    } else {
        let n = s[0] as int - 0x80;
        let digits = s.subrange(1, 1 + n);
        let v = be_value(digits);
        lemma_be_value_unfold4(digits);
        if n == 1 {
            lemma_digits_of_value(0, 0, 0, digits[0] as int);
            assert(s.take(2) =~= seq![0x81u8, v as u8]);
        } else if n == 2 {
            lemma_digits_of_value(0, 0, digits[0] as int, digits[1] as int);
            assert(v >= 0x100) by {
                assert(digits[0] >= 1);
            }
            assert(s.take(3) =~= seq![0x82u8, (v / 0x100) as u8, (v % 0x100) as u8]);
        } else if n == 3 {
            lemma_digits_of_value(0, digits[0] as int, digits[1] as int, digits[2] as int);
            assert(v >= 0x10000) by {
                assert(digits[0] >= 1);
            }
            assert(s.take(4) =~= seq![
                0x83u8,
                (v / 0x10000) as u8,
                ((v / 0x100) % 0x100) as u8,
                (v % 0x100) as u8,
            ]);
        } else {
            lemma_digits_of_value(
                digits[0] as int, digits[1] as int, digits[2] as int, digits[3] as int);
            assert(v >= 0x1000000) by {
                assert(digits[0] >= 1);
            }
            assert(s.take(5) =~= seq![
                0x84u8,
                (v / 0x1000000) as u8,
                ((v / 0x10000) % 0x100) as u8,
                ((v / 0x100) % 0x100) as u8,
                (v % 0x100) as u8,
            ]);
        }
    }
}

/// A parsed length value always fits the region ceiling.
pub proof fn lemma_parse_len_bound(s: Seq<u8>)
    requires
        parse_len(s) is Some,
    ensures
        0 <= parse_len(s)->Some_0.0 <= MAX_REGION_LEN,
        1 <= parse_len(s)->Some_0.1 <= 5,
        parse_len(s)->Some_0.1 <= s.len(),
{
    if s[0] >= 0x80 {
        let n = s[0] as int - 0x80;
        let digits = s.subrange(1, 1 + n);
        lemma_be_value_bound(digits);
        reveal_with_fuel(vstd::arithmetic::power::pow, 5);
        assert(vstd::arithmetic::power::pow(256, 4) == 0x100000000);
        assert(vstd::arithmetic::power::pow(256, digits.len()) <= 0x100000000);
    }
}

} // verus!

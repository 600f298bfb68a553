//! Decoding byte values into printable ASCII text.

use vstd::prelude::*;
use vstd::string::StringExecFns;

verus! {

/// Relies on `String::push`: appends exactly the one character.
#[verifier::external_body]
fn push_char(s: &mut String, c: char)
    ensures
        final(s)@ == old(s)@ + seq![c],
{
    s.push(c);
}

/// Turn a byte sequence into text, one character per byte.  Succeeds
/// exactly when every byte is printable ASCII (32 through 126); any other
/// byte rejects the whole input.
pub fn decimals_to_string(dec_vec: &[u8]) -> (r: Result<String, String>)
    ensures
        r is Ok <==> (forall|i: int|
            0 <= i < dec_vec@.len() ==> 32 <= #[trigger] dec_vec@[i] <= 126),
        r is Ok ==> r->Ok_0@ == dec_vec@.map_values(|b: u8| b as char),
        r is Err ==> r->Err_0@ == "the number is outside the ascii range"@,
{
    let mut text = String::new();
    let mut i: usize = 0;
    proof {
        assert(dec_vec@.take(0).map_values(|b: u8| b as char) =~= text@);
    }
    while i < dec_vec.len()
        invariant
            i <= dec_vec@.len(),
            forall|j: int| 0 <= j < i ==> 32 <= #[trigger] dec_vec@[j] <= 126,
            text@ == dec_vec@.take(i as int).map_values(|b: u8| b as char),
        decreases dec_vec@.len() - i,
    {
        let d = *vstd::slice::slice_index_get(dec_vec, i);
        if !(d >= 32 && d <= 126) {
            return Err(String::from_str("the number is outside the ascii range"));
        }
        push_char(&mut text, d as char);
        proof {
            assert(dec_vec@.take(i as int + 1).map_values(|b: u8| b as char)
                =~= dec_vec@.take(i as int).map_values(|b: u8| b as char)
                    + seq![dec_vec@[i as int] as char]);
        }
        i += 1;
    }
    proof {
        assert(dec_vec@.take(dec_vec@.len() as int) =~= dec_vec@);
    }
    Ok(text)
}

} // verus!

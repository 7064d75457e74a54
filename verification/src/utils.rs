//! Small arithmetic helpers shared by the encoder and the decoder.

use vstd::prelude::*;

verus! {

/// Returns the quotient and the remainder of the Euclidean division of
/// `dividend` by `divisor`.
#[inline]
pub fn div_rem(dividend: usize, divisor: usize) -> (r: (usize, usize))
    requires
        divisor > 0,
    ensures
        r.0 == dividend as int / divisor as int,
        r.1 == dividend as int % divisor as int,
{
    (dividend / divisor, dividend % divisor)
}

/// Returns whether a byte slice and a byte vector hold the same bytes.
pub fn slice_eq_vec(a: &[u8], b: &Vec<u8>) -> (r: bool)
    ensures
        r == (a@ == b@),
{
    if a.len() != b.len() {
        proof {
            assert(a@ != b@);
        }
        return false;
    }
    let n: usize = a.len();
    let mut i: usize = 0;
    while i < n
        invariant
            i <= n,
            n == a@.len() == b@.len(),
            forall|j: int| 0 <= j < i ==> a@[j] == b@[j],
        decreases n - i,
    {
        if a[i] != b[i] {
            proof {
                assert(a@[i as int] != b@[i as int]);
            }
            return false;
        }
        i = i + 1;
    }
    proof {
        assert(a@ =~= b@);
    }
    true
}

/// Relies on `String::from_utf8`: for valid UTF-8 input (here guaranteed by
/// the bytes being ASCII) it returns the string holding exactly those bytes,
/// whose characters are those byte values.
#[verifier::external_body]
pub(crate) fn ascii_to_string(bytes: Vec<u8>) -> (r: String)
    requires
        forall|i: int| 0 <= i < bytes@.len() ==> bytes@[i] < 128,
    ensures
        r@ == bytes@.map_values(|b: u8| b as char),
        vstd::utf8::encode_utf8(r@) == bytes@,
{
    match String::from_utf8(bytes) {
        Ok(s) => s,
        Err(_) => String::new(),
    }
}

} // verus!

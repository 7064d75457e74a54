//! Detection of G60 strings whose characters are correct but whose length
//! is structurally impossible.

use vstd::prelude::*;
use vstd::string::StringSliceAdditionalSpecFns;

use crate::constants::{decode_symbol, is_symbol_byte};
use crate::decoding::{
    first_invalid_from, lemma_first_invalid_char, spec_char_valid, spec_length_valid,
};
use crate::errors::VerificationError;

verus! {

/// Verifies that `content` is an incorrect G60 encoded string, i.e. the
/// characters are correct but the length is invalid.
///
/// # Errors
/// An error will arise if `content` contains a byte outside the G60
/// alphabet.
pub fn verify_incorrect(content: &str) -> (r: Result<bool, VerificationError>)
    ensures
        ({
            let s = content.spec_bytes();
            &&& (r is Ok <==> spec_char_valid(s))
            &&& (spec_char_valid(s) ==> r == Ok::<bool, VerificationError>(
                !spec_length_valid(s.len() as int),
            ))
            &&& (!spec_char_valid(s) ==> r == Err::<bool, VerificationError>(
                VerificationError::InvalidByte {
                    index: first_invalid_from(s, 0) as usize,
                    byte: s[first_invalid_from(s, 0)],
                },
            ))
        }),
{
    let bytes: &[u8] = content.as_bytes();
    let ghost s = content.spec_bytes();
    let n: usize = bytes.len();

    // Check chars.
    let mut index: usize = 0;
    while index < n
        invariant
            bytes@ == s,
            s == content.spec_bytes(),
            n == s.len(),
            index <= n,
            forall|j: int| 0 <= j < index ==> is_symbol_byte(s[j]),
        decreases n - index,
    {
        if decode_symbol(bytes[index]) == 255 {
            proof {
                lemma_first_invalid_char(s, 0, index as int);
            }
            return Err(VerificationError::InvalidByte { index, byte: bytes[index] });
        }
        index = index + 1;
    }

    // Check length.
    let remaining_bytes: usize = n % 11;
    Ok(remaining_bytes == 1 || remaining_bytes == 4 || remaining_bytes == 8)
}

} // verus!

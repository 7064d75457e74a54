//! A typed wrapper around a naive G60 string.

use vstd::prelude::*;
use vstd::string::{StringExecFns, StringSliceAdditionalSpecFns};

use crate::decoding::{first_invalid_from, spec_char_valid, spec_length_valid};
use crate::encoding::spec_encode;
use crate::errors::VerificationError;
use crate::laws::{lemma_encode_verifies, lemma_verify_ok_wf};

verus! {

/// A G60 encoded string.
///
/// This type is different from `G60String` in that this does not imply
/// correctness, i.e. that the content is decodable: only the characters
/// are known to come from the G60 alphabet.
#[derive(Debug, Clone, PartialEq, Eq)]
pub struct NaiveG60String {
    value: String,
}

impl NaiveG60String {
    /// The symbol bytes of the string.
    pub closed spec fn encoded_bytes(&self) -> Seq<u8> {
        vstd::utf8::encode_utf8(self.value@)
    }

    /// Whether every byte of the content is an alphabet character: the
    /// invariant that every constructor establishes.
    pub open spec fn chars_valid(&self) -> bool {
        spec_char_valid(self.encoded_bytes())
    }

    // CONSTRUCTORS -----------------------------------------------------------

    /// Creates a new `NaiveG60String` from an already G60 encoded string.
    pub fn new(string: String) -> (r: Result<NaiveG60String, VerificationError>)
        ensures
            ({
                let s = vstd::utf8::encode_utf8(string@);
                &&& (r is Ok <==> spec_char_valid(s))
                &&& (r matches Ok(g) ==> g.encoded_bytes() == s && g.chars_valid())
                &&& (!spec_char_valid(s) ==> r == Err::<NaiveG60String, VerificationError>(
                    VerificationError::InvalidByte {
                        index: first_invalid_from(s, 0) as usize,
                        byte: s[first_invalid_from(s, 0)],
                    },
                ))
            }),
    {
        match Self::verify(string.as_str()) {
            Ok(_) => Ok(NaiveG60String { value: string }),
            Err(e) => Err(e),
        }
    }

    /// Creates a new `NaiveG60String` from an already G60 encoded string,
    /// without checking it; the caller vouches for the characters being in
    /// the alphabet.
    pub fn new_unchecked(string: String) -> (r: NaiveG60String)
        requires
            spec_char_valid(vstd::utf8::encode_utf8(string@)),
        ensures
            r.encoded_bytes() == vstd::utf8::encode_utf8(string@),
            r.chars_valid(),
    {
        NaiveG60String { value: string }
    }

    /// Creates a new `NaiveG60String` from an already G60 encoded string.
    pub fn new_str(string: &str) -> (r: Result<NaiveG60String, VerificationError>)
        ensures
            ({
                let s = string.spec_bytes();
                &&& (r is Ok <==> spec_char_valid(s))
                &&& (r matches Ok(g) ==> g.encoded_bytes() == s && g.chars_valid())
                &&& (!spec_char_valid(s) ==> r == Err::<NaiveG60String, VerificationError>(
                    VerificationError::InvalidByte {
                        index: first_invalid_from(s, 0) as usize,
                        byte: s[first_invalid_from(s, 0)],
                    },
                ))
            }),
    {
        Self::new(String::from_str(string))
    }

    /// Creates a new `NaiveG60String` from an already G60 encoded string,
    /// without checking it; the caller vouches for the characters being in
    /// the alphabet.
    pub fn new_str_unchecked(string: &str) -> (r: NaiveG60String)
        requires
            spec_char_valid(string.spec_bytes()),
        ensures
            r.encoded_bytes() == string.spec_bytes(),
            r.chars_valid(),
    {
        NaiveG60String { value: String::from_str(string) }
    }

    /// Encodes a list of bytes into a `NaiveG60String`.
    pub fn encode(content: &[u8]) -> (r: NaiveG60String)
        requires
            crate::encoding::spec_encoded_size(content@.len() as int) <= usize::MAX,
        ensures
            r.encoded_bytes() == spec_encode(content@),
            r.chars_valid(),
    {
        let value = crate::encoding::encode(content);
        proof {
            lemma_encode_verifies(content@);
            lemma_verify_ok_wf(spec_encode(content@));
        }
        NaiveG60String { value }
    }

    /// Generates a random `NaiveG60String` of exactly `length` characters
    /// using a non-deterministic PRNG.
    /// Note: depending on the length it can result in a valid G60 encoded
    /// string or not.
    pub fn random(length: usize) -> (r: String)
        ensures
            vstd::utf8::encode_utf8(r@).len() == length,
            spec_char_valid(vstd::utf8::encode_utf8(r@)),
    {
        crate::naive::exactly_random(length)
    }

    /// Generates a random `NaiveG60String` of exactly `length` characters
    /// using a basic but faster random generator.
    /// Note: depending on the length it can result in a valid G60 encoded
    /// string or not.
    pub fn unsecure_random(length: usize) -> (r: String)
        ensures
            vstd::utf8::encode_utf8(r@).len() == length,
            spec_char_valid(vstd::utf8::encode_utf8(r@)),
    {
        crate::naive::exactly_unsecure_random(length)
    }

    /// Generates a `NaiveG60String` of exactly `length` characters from
    /// caller-supplied random bytes, by rejection: bytes below sixty become
    /// their alphabet characters, in order, and the rest are discarded.
    /// `random` must keep at least `length` symbols.
    /// Note: depending on the length it can result in a valid G60 encoded
    /// string or not.
    pub fn custom_random(length: usize, random: &[u8]) -> (r: String)
        requires
            crate::naive::spec_kept_symbols(random@).len() >= length,
        ensures
            vstd::utf8::encode_utf8(r@) == crate::naive::spec_kept_symbols(random@).take(
                length as int,
            ),
            vstd::utf8::encode_utf8(r@).len() == length,
            spec_char_valid(vstd::utf8::encode_utf8(r@)),
    {
        crate::naive::exactly_custom_random(length, random)
    }

    // GETTERS ----------------------------------------------------------------

    /// The textual representation of the `NaiveG60String`.
    pub fn as_str(&self) -> (r: &str)
        ensures
            r.spec_bytes() == self.encoded_bytes(),
    {
        self.value.as_str()
    }

    // METHODS ----------------------------------------------------------------

    /// Unwraps the inner content.
    pub fn unwrap_string(self) -> (r: String)
        ensures
            vstd::utf8::encode_utf8(r@) == self.encoded_bytes(),
    {
        self.value
    }

    // STATIC METHODS ---------------------------------------------------------

    /// Verifies whether `encoded` is a valid naive G60 encoded string or
    /// not: the characters must come from the alphabet, and the returned
    /// flag says whether the length is structurally impossible.
    ///
    /// # Errors
    /// An error will be thrown if `encoded` contains a byte outside the
    /// G60 alphabet.
    pub fn verify(encoded: &str) -> (r: Result<bool, VerificationError>)
        ensures
            ({
                let s = encoded.spec_bytes();
                &&& (r is Ok <==> spec_char_valid(s))
                &&& (spec_char_valid(s) ==> r == Ok::<bool, VerificationError>(
                    !spec_length_valid(s.len() as int),
                ))
                &&& (!spec_char_valid(s) ==> r == Err::<bool, VerificationError>(
                    VerificationError::InvalidByte {
                        index: first_invalid_from(s, 0) as usize,
                        byte: s[first_invalid_from(s, 0)],
                    },
                ))
            }),
    {
        crate::naive::verification::verify(encoded)
    }
}

} // verus!

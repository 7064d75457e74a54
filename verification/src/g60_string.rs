//! A typed wrapper around a G60 encoded string.

use vstd::pervasive::VecAdditionalExecFns;
use vstd::prelude::*;
use vstd::string::{StringExecFns, StringSliceAdditionalSpecFns};

use crate::canonical::{spec_canonicalize, spec_is_canonical};
use crate::decoding::{
    spec_char_valid, spec_decode_lenient, spec_decoded_size, spec_length_valid, spec_verify,
    spec_verify_ok,
};
use crate::encoding::{spec_encode, spec_encoded_size};
use crate::errors::{DecodingError, VerificationError};
use crate::laws::{
    lemma_canonical_fixed_point, lemma_canonicalize_projection, lemma_encode_canonical,
    lemma_encode_verifies, lemma_verify_ok_wf,
};
use crate::random::spec_adjusted_length;

verus! {

/// A well-formed G60 encoded string.
///
/// The correctness of this type implies that its content has a decodable
/// string: every byte is an alphabet character and the length is
/// structurally possible.
#[derive(Debug, Clone, PartialEq, Eq)]
pub struct G60String {
    value: String,
}

impl G60String {
    /// The symbol bytes of the encoded string.
    pub closed spec fn encoded_bytes(&self) -> Seq<u8> {
        vstd::utf8::encode_utf8(self.value@)
    }

    /// Whether the content is well-formed: the invariant that every
    /// constructor establishes and every method preserves.
    pub open spec fn well_formed(&self) -> bool {
        spec_length_valid(self.encoded_bytes().len() as int) && spec_char_valid(
            self.encoded_bytes(),
        )
    }

    // CONSTRUCTORS -----------------------------------------------------------

    /// Creates a new `G60String` from an already G60 encoded string.
    pub fn new(string: String) -> (r: Result<G60String, VerificationError>)
        ensures
            ({
                let s = vstd::utf8::encode_utf8(string@);
                &&& (r is Ok <==> spec_verify_ok(s))
                &&& (r matches Ok(g) ==> g.encoded_bytes() == s && g.well_formed())
                &&& (r matches Err(e) ==> spec_verify(s) == Err::<(), VerificationError>(e))
            }),
    {
        match Self::verify(string.as_str()) {
            Ok(_) => {
                proof {
                    lemma_verify_ok_wf(vstd::utf8::encode_utf8(string@));
                }
                Ok(G60String { value: string })
            },
            Err(e) => Err(e),
        }
    }

    /// Creates a new `G60String` from an already G60 encoded string,
    /// without running the verifier; the caller vouches for the content
    /// being well-formed.
    pub fn new_unchecked(string: String) -> (r: G60String)
        requires
            spec_length_valid(vstd::utf8::encode_utf8(string@).len() as int),
            spec_char_valid(vstd::utf8::encode_utf8(string@)),
        ensures
            r.encoded_bytes() == vstd::utf8::encode_utf8(string@),
            r.well_formed(),
    {
        G60String { value: string }
    }

    /// Creates a new `G60String` from an already G60 encoded string.
    pub fn new_str(string: &str) -> (r: Result<G60String, VerificationError>)
        ensures
            ({
                let s = string.spec_bytes();
                &&& (r is Ok <==> spec_verify_ok(s))
                &&& (r matches Ok(g) ==> g.encoded_bytes() == s && g.well_formed())
                &&& (r matches Err(e) ==> spec_verify(s) == Err::<(), VerificationError>(e))
            }),
    {
        Self::new(String::from_str(string))
    }

    /// Creates a new `G60String` from an already G60 encoded string,
    /// without running the verifier; the caller vouches for the content
    /// being well-formed.
    pub fn new_str_unchecked(string: &str) -> (r: G60String)
        requires
            spec_length_valid(string.spec_bytes().len() as int),
            spec_char_valid(string.spec_bytes()),
        ensures
            r.encoded_bytes() == string.spec_bytes(),
            r.well_formed(),
    {
        G60String { value: String::from_str(string) }
    }

    /// Encodes a list of bytes into a `G60String`.
    pub fn encode(content: &[u8]) -> (r: G60String)
        requires
            spec_encoded_size(content@.len() as int) <= usize::MAX,
        ensures
            r.encoded_bytes() == spec_encode(content@),
            r.well_formed(),
            spec_is_canonical(r.encoded_bytes()),
            spec_verify_ok(r.encoded_bytes()),
    {
        let value = crate::encoding::encode(content);
        proof {
            lemma_encode_verifies(content@);
            lemma_encode_canonical(content@);
            lemma_verify_ok_wf(spec_encode(content@));
        }
        G60String { value }
    }

    /// Generates a random G60 string of `bytes` length using a
    /// non-deterministic PRNG. This method generates a canonical G60 string.
    pub fn random_bytes(bytes: usize) -> (r: String)
        requires
            spec_encoded_size(bytes as int) <= usize::MAX,
        ensures
            exists|b: Seq<u8>|
                b.len() == bytes && vstd::utf8::encode_utf8(r@) == spec_encode(b),
            vstd::utf8::encode_utf8(r@).len() == spec_encoded_size(bytes as int),
            spec_verify_ok(vstd::utf8::encode_utf8(r@)),
    {
        crate::random::random_bytes(bytes)
    }

    /// Generates a random G60 string of `bytes` length using a basic but
    /// faster random generator. This method generates a canonical G60
    /// string.
    pub fn unsecure_random_bytes(bytes: usize) -> (r: String)
        requires
            spec_encoded_size(bytes as int) <= usize::MAX,
        ensures
            exists|b: Seq<u8>|
                b.len() == bytes && vstd::utf8::encode_utf8(r@) == spec_encode(b),
            vstd::utf8::encode_utf8(r@).len() == spec_encoded_size(bytes as int),
            spec_verify_ok(vstd::utf8::encode_utf8(r@)),
    {
        crate::random::unsecure_random_bytes(bytes)
    }

    /// Generates a G60 string of `bytes` length from caller-supplied random
    /// bytes. This method generates a canonical G60 string.
    pub fn custom_random_bytes(bytes: usize, random: &[u8]) -> (r: String)
        requires
            spec_encoded_size(bytes as int) <= usize::MAX,
            random@.len() >= bytes,
        ensures
            vstd::utf8::encode_utf8(r@) == spec_encode(random@.take(bytes as int)),
            spec_verify_ok(vstd::utf8::encode_utf8(r@)),
    {
        crate::random::custom_random_bytes(bytes, random)
    }

    /// Generates a random G60 string of at most `length` characters using a
    /// non-deterministic PRNG. This method generates a canonical G60 string.
    ///
    /// Note that if `length` is not valid for a G60 string, a string with
    /// `length - 1` will be generated instead.
    pub fn random(length: usize) -> (r: String)
        ensures
            vstd::utf8::encode_utf8(r@).len() == spec_adjusted_length(length as int),
            spec_verify_ok(vstd::utf8::encode_utf8(r@)),
    {
        crate::random::random_str(length)
    }

    /// Generates a random G60 string of at most `length` characters using a
    /// basic but faster random generator. This method generates a canonical
    /// G60 string.
    ///
    /// Note that if `length` is not valid for a G60 string, a string with
    /// `length - 1` will be generated instead.
    pub fn unsecure_random(length: usize) -> (r: String)
        ensures
            vstd::utf8::encode_utf8(r@).len() == spec_adjusted_length(length as int),
            spec_verify_ok(vstd::utf8::encode_utf8(r@)),
    {
        crate::random::unsecure_random_str(length)
    }

    /// Generates a G60 string of at most `length` characters from
    /// caller-supplied random bytes. This method generates a canonical G60
    /// string.
    ///
    /// Note that if `length` is not valid for a G60 string, a string with
    /// `length - 1` will be generated instead.
    pub fn custom_random(length: usize, random: &[u8]) -> (r: String)
        requires
            random@.len() >= spec_decoded_size(length as int),
        ensures
            vstd::utf8::encode_utf8(r@).len() == spec_adjusted_length(length as int),
            spec_verify_ok(vstd::utf8::encode_utf8(r@)),
    {
        crate::random::custom_random_str(length, random)
    }

    // GETTERS ----------------------------------------------------------------

    /// The textual representation of the `G60String`.
    pub fn as_str(&self) -> (r: &str)
        ensures
            r.spec_bytes() == self.encoded_bytes(),
    {
        self.value.as_str()
    }

    /// Whether the `G60String` is in the canonical form or not.
    pub fn is_canonical(&self) -> (r: bool)
        ensures
            r == spec_is_canonical(self.encoded_bytes()),
    {
        crate::canonical::is_canonical(self.value.as_str())
    }

    // METHODS ----------------------------------------------------------------

    /// Unwraps the inner content.
    pub fn unwrap_string(self) -> (r: String)
        ensures
            vstd::utf8::encode_utf8(r@) == self.encoded_bytes(),
    {
        self.value
    }

    /// An alias for `decode`.
    pub fn to_bytes(&self) -> (r: Vec<u8>)
        requires
            self.well_formed(),
        ensures
            r@ == spec_decode_lenient(self.encoded_bytes()),
    {
        self.decode()
    }

    /// Decodes the G60 string into a list of bytes, without checking
    /// canonicality: the meaningful byte prefix of every group is returned.
    pub fn decode(&self) -> (r: Vec<u8>)
        requires
            self.well_formed(),
        ensures
            r@ == spec_decode_lenient(self.encoded_bytes()),
    {
        let mut slice: Vec<u8> = Vec::new();
        let _ = crate::decoding::decode_lenient_in_writer(self.value.as_str(), &mut slice);
        slice
    }

    /// Decodes the `G60String` into a slice of bytes, without checking
    /// canonicality. The result is placed into the first bytes of `slice`
    /// and the number of written elements is returned.
    ///
    /// # Errors
    /// An error will be thrown in the following cases:
    /// - if `slice` does not have at least `floor(8 * encoded.len() / 11)`
    ///   of size.
    pub fn decode_in_slice(&self, slice: &mut Vec<u8>) -> (r: Result<usize, DecodingError>)
        requires
            self.well_formed(),
        ensures
            final(slice)@.len() == old(slice)@.len(),
            ({
                let required = spec_decoded_size(self.encoded_bytes().len() as int);
                if old(slice)@.len() < required {
                    r == Err::<usize, DecodingError>(
                        DecodingError::NotEnoughSpaceInSlice {
                            actual: old(slice)@.len() as usize,
                            required: required as usize,
                        },
                    ) && final(slice)@ == old(slice)@
                } else {
                    r == Ok::<usize, DecodingError>(required as usize) && final(slice)@
                        == spec_decode_lenient(self.encoded_bytes()) + old(slice)@.skip(required)
                }
            }),
    {
        let required_slice_size: usize = crate::decoding::compute_decoded_size(
            self.value.as_str().as_bytes().len(),
        );

        if slice.len() < required_slice_size {
            return Err(
                DecodingError::NotEnoughSpaceInSlice {
                    actual: slice.len(),
                    required: required_slice_size,
                },
            );
        }

        let mut decoded: Vec<u8> = Vec::new();
        let count = crate::decoding::decode_lenient_in_writer(self.value.as_str(), &mut decoded);

        let ghost s = self.encoded_bytes();
        let mut i: usize = 0;
        while i < required_slice_size
            invariant
                i <= required_slice_size,
                required_slice_size == spec_decoded_size(s.len() as int),
                decoded@ == spec_decode_lenient(s),
                decoded@.len() == required_slice_size,
                slice@.len() == old(slice)@.len() >= required_slice_size,
                forall|k: int| 0 <= k < i ==> slice@[k] == decoded@[k],
                forall|k: int| i <= k < slice@.len() ==> slice@[k] == old(slice)@[k],
            decreases required_slice_size - i,
        {
            let v = decoded[i];
            slice.set(i, v);
            i = i + 1;
        }
        proof {
            assert(slice@ =~= spec_decode_lenient(s) + old(slice)@.skip(
                required_slice_size as int,
            ));
        }
        Ok(count)
    }

    /// Decodes the `G60String` into a list of bytes, without checking
    /// canonicality. The result is appended to `writer` and the number of
    /// written elements is returned.
    pub fn decode_in_writer(&self, writer: &mut Vec<u8>) -> (r: Result<usize, DecodingError>)
        requires
            self.well_formed(),
        ensures
            r == Ok::<usize, DecodingError>(
                spec_decoded_size(self.encoded_bytes().len() as int) as usize,
            ),
            final(writer)@ == old(writer)@ + spec_decode_lenient(self.encoded_bytes()),
    {
        Ok(crate::decoding::decode_lenient_in_writer(self.value.as_str(), writer))
    }

    /// Get the canonical form of the `G60String` as a new value, leaving
    /// this one untouched.
    pub fn canonicalize(&self) -> (r: G60String)
        requires
            self.well_formed(),
        ensures
            r.encoded_bytes() == spec_canonicalize(self.encoded_bytes()),
            r.well_formed(),
            spec_is_canonical(r.encoded_bytes()),
            spec_verify_ok(r.encoded_bytes()),
    {
        proof {
            lemma_canonicalize_projection(self.encoded_bytes());
            lemma_verify_ok_wf(spec_canonicalize(self.encoded_bytes()));
        }
        if crate::canonical::is_canonical(self.value.as_str()) {
            proof {
                lemma_canonical_fixed_point(self.encoded_bytes());
            }
            G60String { value: self.value.clone() }
        } else {
            let mut encoded = self.value.clone();
            crate::canonical::canonicalize_in_place(&mut encoded);

            G60String { value: encoded }
        }
    }

    /// Get the canonical form of the `G60String` replacing its current
    /// content.
    pub fn canonicalize_in_place(&mut self)
        requires
            old(self).well_formed(),
        ensures
            final(self).encoded_bytes() == spec_canonicalize(old(self).encoded_bytes()),
            final(self).well_formed(),
            spec_is_canonical(final(self).encoded_bytes()),
    {
        proof {
            lemma_canonicalize_projection(self.encoded_bytes());
            lemma_verify_ok_wf(spec_canonicalize(self.encoded_bytes()));
        }
        crate::canonical::canonicalize_in_place(&mut self.value)
    }

    // STATIC METHODS ---------------------------------------------------------

    /// Verifies whether `encoded` is a valid G60 encoded string or not.
    ///
    /// # Errors
    /// An error will be thrown in the following cases:
    /// - if `encoded` has an incorrect length.
    /// - if `encoded` contains an invalid G60 character.
    /// - if `encoded` is not canonical.
    pub fn verify(encoded: &str) -> (r: Result<(), VerificationError>)
        ensures
            r == spec_verify(encoded.spec_bytes()),
    {
        crate::verification::verify(encoded)
    }
}

} // verus!

//! Generation of random canonical G60 strings: random bytes are drawn from
//! a generator and encoded, so the result is always a valid encoding.

use vstd::prelude::*;

use rand::rngs::{SmallRng, StdRng};
use rand::{Rng, SeedableRng};

use crate::decoding::{spec_decoded_size, spec_length_valid, spec_verify_ok};
use crate::encoding::{encode, spec_encode, spec_encoded_size};
use crate::laws::{lemma_decoded_size_monotone, lemma_encode_verifies};

verus! {

#[verifier::external_type_specification]
#[verifier::external_body]
pub struct ExStdRng(StdRng);

#[verifier::external_type_specification]
#[verifier::external_body]
pub struct ExSmallRng(SmallRng);

/// Relies on `StdRng::from_entropy`: it returns a generator seeded from the
/// operating system, and aborts the process if no entropy can be had.
#[verifier::external_body]
pub(crate) fn std_rng_from_entropy() -> StdRng {
    StdRng::from_entropy()
}

/// Relies on `SmallRng::from_entropy`: it returns a generator seeded from
/// the operating system, and aborts the process if no entropy can be had.
#[verifier::external_body]
pub(crate) fn small_rng_from_entropy() -> SmallRng {
    SmallRng::from_entropy()
}

/// Relies on `Rng::fill` for byte slices: it overwrites the slice with
/// generated bytes and leaves its length unchanged.
#[verifier::external_body]
pub(crate) fn fill_std(rng: &mut StdRng, buf: &mut Vec<u8>)
    ensures
        final(buf)@.len() == old(buf)@.len(),
{
    rng.fill(buf.as_mut_slice());
}

/// Relies on `Rng::fill` for byte slices: it overwrites the slice with
/// generated bytes and leaves its length unchanged.
#[verifier::external_body]
pub(crate) fn fill_small(rng: &mut SmallRng, buf: &mut Vec<u8>)
    ensures
        final(buf)@.len() == old(buf)@.len(),
{
    rng.fill(buf.as_mut_slice());
}

/// Relies on `Rng::gen_range` over `0..60`: it returns a value drawn from
/// that range, and the range is not empty, so it does not panic.
#[verifier::external_body]
pub(crate) fn random_symbol_std(rng: &mut StdRng) -> (r: u8)
    ensures
        r < 60,
{
    rng.gen_range(0..60)
}

/// Relies on `Rng::gen_range` over `0..60`: it returns a value drawn from
/// that range, and the range is not empty, so it does not panic.
#[verifier::external_body]
pub(crate) fn random_symbol_small(rng: &mut SmallRng) -> (r: u8)
    ensures
        r < 60,
{
    rng.gen_range(0..60)
}

/// The length that the string generators aim for: a structurally
/// impossible request is shortened by one symbol.
pub open spec fn spec_adjusted_length(n: int) -> int {
    if n % 11 == 1 || n % 11 == 4 || n % 11 == 8 {
        n - 1
    } else {
        n
    }
}

/// Generates a random G60 string of `bytes` length using a
/// non-deterministic PRNG.
pub fn random_bytes(bytes: usize) -> (r: String)
    requires
        spec_encoded_size(bytes as int) <= usize::MAX,
    ensures
        exists|b: Seq<u8>|
            b.len() == bytes && vstd::utf8::encode_utf8(r@) == spec_encode(b),
        vstd::utf8::encode_utf8(r@).len() == spec_encoded_size(bytes as int),
        spec_verify_ok(vstd::utf8::encode_utf8(r@)),
{
    let mut rng = std_rng_from_entropy();
    let mut buf: Vec<u8> = vec![0; bytes];
    fill_std(&mut rng, &mut buf);
    let r = encode(buf.as_slice());
    proof {
        lemma_encode_verifies(buf@);
        assert(buf@.len() == bytes && vstd::utf8::encode_utf8(r@) == spec_encode(buf@));
    }
    r
}

/// Generates a random G60 string of `bytes` length using a basic but
/// faster random generator.
pub fn unsecure_random_bytes(bytes: usize) -> (r: String)
    requires
        spec_encoded_size(bytes as int) <= usize::MAX,
    ensures
        exists|b: Seq<u8>|
            b.len() == bytes && vstd::utf8::encode_utf8(r@) == spec_encode(b),
        vstd::utf8::encode_utf8(r@).len() == spec_encoded_size(bytes as int),
        spec_verify_ok(vstd::utf8::encode_utf8(r@)),
{
    let mut rng = small_rng_from_entropy();
    let mut buf: Vec<u8> = vec![0; bytes];
    fill_small(&mut rng, &mut buf);
    let r = encode(buf.as_slice());
    proof {
        lemma_encode_verifies(buf@);
        assert(buf@.len() == bytes && vstd::utf8::encode_utf8(r@) == spec_encode(buf@));
    }
    r
}

/// Generates a G60 string of `bytes` length from caller-supplied random
/// bytes: the first `bytes` of `random` are encoded.
pub fn custom_random_bytes(bytes: usize, random: &[u8]) -> (r: String)
    requires
        spec_encoded_size(bytes as int) <= usize::MAX,
        random@.len() >= bytes,
    ensures
        vstd::utf8::encode_utf8(r@) == spec_encode(random@.take(bytes as int)),
        vstd::utf8::encode_utf8(r@).len() == spec_encoded_size(bytes as int),
        spec_verify_ok(vstd::utf8::encode_utf8(r@)),
{
    let source = &random[0..bytes];
    let r = encode(source);
    proof {
        assert(source@ == random@.take(bytes as int));
        lemma_encode_verifies(source@);
    }
    r
}

/// Generates a random G60 string of at most `length` characters using a
/// non-deterministic PRNG.
///
/// Note that if `length` is not valid for a G60 string, a string with
/// `length - 1` will be generated instead.
pub fn random_str(length: usize) -> (r: String)
    ensures
        exists|b: Seq<u8>|
            b.len() == spec_decoded_size(spec_adjusted_length(length as int))
                && vstd::utf8::encode_utf8(r@) == spec_encode(b),
        vstd::utf8::encode_utf8(r@).len() == spec_adjusted_length(length as int),
        spec_verify_ok(vstd::utf8::encode_utf8(r@)),
{
    let bytes = adjusted_decoded_size(length);
    random_bytes(bytes)
}

/// Generates a random G60 string of at most `length` characters using a
/// basic but faster random generator.
///
/// Note that if `length` is not valid for a G60 string, a string with
/// `length - 1` will be generated instead.
pub fn unsecure_random_str(length: usize) -> (r: String)
    ensures
        exists|b: Seq<u8>|
            b.len() == spec_decoded_size(spec_adjusted_length(length as int))
                && vstd::utf8::encode_utf8(r@) == spec_encode(b),
        vstd::utf8::encode_utf8(r@).len() == spec_adjusted_length(length as int),
        spec_verify_ok(vstd::utf8::encode_utf8(r@)),
{
    let bytes = adjusted_decoded_size(length);
    unsecure_random_bytes(bytes)
}

/// Generates a G60 string of at most `length` characters from
/// caller-supplied random bytes.
///
/// Note that if `length` is not valid for a G60 string, a string with
/// `length - 1` will be generated instead.
pub fn custom_random_str(length: usize, random: &[u8]) -> (r: String)
    requires
        random@.len() >= spec_decoded_size(length as int),
    ensures
        vstd::utf8::encode_utf8(r@) == spec_encode(
            random@.take(spec_decoded_size(spec_adjusted_length(length as int))),
        ),
        vstd::utf8::encode_utf8(r@).len() == spec_adjusted_length(length as int),
        spec_verify_ok(vstd::utf8::encode_utf8(r@)),
{
    let bytes = adjusted_decoded_size(length);
    proof {
        lemma_decoded_size_monotone(spec_adjusted_length(length as int), length as int);
    }
    custom_random_bytes(bytes, random)
}

/// The byte count whose encoding is exactly the adjusted length: shortens
/// a structurally impossible request by one symbol first.
fn adjusted_decoded_size(length: usize) -> (r: usize)
    ensures
        r == spec_decoded_size(spec_adjusted_length(length as int)),
        spec_encoded_size(r as int) == spec_adjusted_length(length as int),
        spec_encoded_size(r as int) <= usize::MAX,
{
    let mut length = length;
    let remaining_bytes: usize = length % 11;
    if remaining_bytes == 1 || remaining_bytes == 4 || remaining_bytes == 8 {
        length = length - 1;
    }
    proof {
        assert(spec_length_valid(length as int)) by {
            vstd::arithmetic::div_mod::lemma_fundamental_div_mod(
                (length + 1) as int,
                11,
            );
            vstd::arithmetic::div_mod::lemma_fundamental_div_mod(length as int, 11);
        }
        crate::laws::lemma_size_inverse(length as int);
    }
    crate::decoding::compute_decoded_size(length)
}

} // verus!

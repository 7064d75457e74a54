//! Generation of random strings over the G60 alphabet of an exact length,
//! whether or not that length is structurally possible.
//!
//! Random bytes are taken by rejection: a byte below sixty is a digit value
//! and becomes its alphabet character, any other byte is discarded.

use vstd::prelude::*;

use crate::constants::{encode_symbol, is_symbol_byte, symbol_char};
use crate::decoding::spec_char_valid;
use crate::random::{
    random_symbol_small, random_symbol_std, small_rng_from_entropy, std_rng_from_entropy,
};
use crate::utils::ascii_to_string;

verus! {

/// The alphabet characters of the bytes of `bytes` that are digit values:
/// a byte below sixty is kept and mapped to its character, the rest are
/// discarded.
pub open spec fn spec_kept_symbols(bytes: Seq<u8>) -> Seq<u8>
    decreases bytes.len(),
{
    if bytes.len() == 0 {
        Seq::empty()
    } else if bytes.last() < 60 {
        spec_kept_symbols(bytes.drop_last()).push(symbol_char(bytes.last()))
    } else {
        spec_kept_symbols(bytes.drop_last())
    }
}

/// What a prefix keeps is a prefix of what the whole sequence keeps.
pub proof fn lemma_kept_symbols_prefix(bytes: Seq<u8>, i: int)
    requires
        0 <= i <= bytes.len(),
    ensures
        spec_kept_symbols(bytes.take(i)).len() <= spec_kept_symbols(bytes).len(),
        spec_kept_symbols(bytes.take(i)) == spec_kept_symbols(bytes).take(
            spec_kept_symbols(bytes.take(i)).len() as int,
        ),
    decreases bytes.len() - i,
{
    let whole = spec_kept_symbols(bytes);
    if i == bytes.len() {
        assert(bytes.take(i) =~= bytes);
        assert(whole.take(whole.len() as int) =~= whole);
    } else {
        lemma_kept_symbols_prefix(bytes, i + 1);
        assert(bytes.take(i + 1).drop_last() =~= bytes.take(i));
        assert(bytes.take(i + 1).last() == bytes[i]);
        let ki = spec_kept_symbols(bytes.take(i));
        let ki1 = spec_kept_symbols(bytes.take(i + 1));
        if bytes[i] < 60 {
            assert(ki1 == ki.push(symbol_char(bytes[i])));
            assert(ki =~= whole.take(ki.len() as int));
        } else {
            assert(ki1 == ki);
        }
    }
}

/// Counts the bytes of `random` that are digit values: how many symbols a
/// rejection pass over `random` would keep.
pub fn kept_symbol_count(random: &[u8]) -> (r: usize)
    ensures
        r == spec_kept_symbols(random@).len(),
{
    let n: usize = random.len();
    let mut count: usize = 0;
    let mut i: usize = 0;
    while i < n
        invariant
            i <= n,
            n == random@.len(),
            count == spec_kept_symbols(random@.take(i as int)).len(),
            count <= i,
        decreases n - i,
    {
        proof {
            assert(random@.take(i + 1).drop_last() =~= random@.take(i as int));
            assert(random@.take(i + 1).last() == random@[i as int]);
        }
        if random[i] < 60 {
            count = count + 1;
        }
        i = i + 1;
    }
    proof {
        assert(random@.take(n as int) =~= random@);
    }
    count
}

/// Generates a random G60 string of exactly `length` characters using a
/// non-deterministic PRNG.
/// Note: depending on the length it can result in a valid G60 encoded
/// string or not.
pub fn exactly_random(length: usize) -> (r: String)
    ensures
        vstd::utf8::encode_utf8(r@).len() == length,
        spec_char_valid(vstd::utf8::encode_utf8(r@)),
{
    let mut rng = std_rng_from_entropy();
    let mut result: Vec<u8> = Vec::new();

    let mut i: usize = 0;
    while i < length
        invariant
            i <= length,
            result@.len() == i,
            forall|j: int|
                0 <= j < result@.len() ==> result@[j] < 128 && is_symbol_byte(result@[j]),
        decreases length - i,
    {
        let value = random_symbol_std(&mut rng);
        proof {
            crate::constants::lemma_symbol_char_roundtrip(value);
        }
        result.push(encode_symbol(value));
        i = i + 1;
    }

    ascii_to_string(result)
}

/// Generates a random G60 string of exactly `length` characters using a
/// basic but faster random generator.
/// Note: depending on the length it can result in a valid G60 encoded
/// string or not.
pub fn exactly_unsecure_random(length: usize) -> (r: String)
    ensures
        vstd::utf8::encode_utf8(r@).len() == length,
        spec_char_valid(vstd::utf8::encode_utf8(r@)),
{
    let mut rng = small_rng_from_entropy();
    let mut result: Vec<u8> = Vec::new();

    let mut i: usize = 0;
    while i < length
        invariant
            i <= length,
            result@.len() == i,
            forall|j: int|
                0 <= j < result@.len() ==> result@[j] < 128 && is_symbol_byte(result@[j]),
        decreases length - i,
    {
        let value = random_symbol_small(&mut rng);
        proof {
            crate::constants::lemma_symbol_char_roundtrip(value);
        }
        result.push(encode_symbol(value));
        i = i + 1;
    }

    ascii_to_string(result)
}

/// Generates a G60 string of exactly `length` characters from
/// caller-supplied random bytes, by rejection: bytes below sixty become
/// their alphabet characters, in order, and the rest are discarded.
/// `random` must keep at least `length` symbols.
/// Note: depending on the length it can result in a valid G60 encoded
/// string or not.
pub fn exactly_custom_random(length: usize, random: &[u8]) -> (r: String)
    requires
        spec_kept_symbols(random@).len() >= length,
    ensures
        vstd::utf8::encode_utf8(r@) == spec_kept_symbols(random@).take(length as int),
        vstd::utf8::encode_utf8(r@).len() == length,
        spec_char_valid(vstd::utf8::encode_utf8(r@)),
{
    let ghost whole = spec_kept_symbols(random@);
    let n: usize = random.len();
    let mut result: Vec<u8> = Vec::new();

    let mut i: usize = 0;
    while result.len() < length
        invariant
            i <= n,
            n == random@.len(),
            whole == spec_kept_symbols(random@),
            whole.len() >= length,
            result@ == spec_kept_symbols(random@.take(i as int)),
            result@.len() <= length,
        decreases n - i,
    {
        proof {
            lemma_kept_symbols_prefix(random@, i as int);
            if i == n {
                assert(random@.take(i as int) =~= random@);
                assert(false);
            }
            assert(random@.take(i + 1).drop_last() =~= random@.take(i as int));
            assert(random@.take(i + 1).last() == random@[i as int]);
        }
        let byte = random[i];
        if byte < 60 {
            result.push(encode_symbol(byte));
        }
        i = i + 1;
    }

    proof {
        lemma_kept_symbols_prefix(random@, i as int);
        assert(result@ == whole.take(length as int));
        assert forall|j: int| 0 <= j < result@.len() implies result@[j] < 128
            && is_symbol_byte(result@[j]) by {
            lemma_kept_symbols_bounds(random@.take(i as int), j);
        }
    }
    ascii_to_string(result)
}

/// Every kept symbol is an alphabet character.
proof fn lemma_kept_symbols_bounds(bytes: Seq<u8>, j: int)
    requires
        0 <= j < spec_kept_symbols(bytes).len(),
    ensures
        spec_kept_symbols(bytes)[j] < 128,
        is_symbol_byte(spec_kept_symbols(bytes)[j]),
    decreases bytes.len(),
{
    if bytes.len() > 0 {
        let rest = spec_kept_symbols(bytes.drop_last());
        if bytes.last() < 60 && j == rest.len() {
            crate::constants::lemma_symbol_char_roundtrip(bytes.last());
        } else {
            lemma_kept_symbols_bounds(bytes.drop_last(), j);
        }
    }
}

} // verus!

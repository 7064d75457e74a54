//! Canonical form of G60 encoded strings.
//!
//! A well-formed string is canonical when re-encoding what each of its
//! groups decodes to reproduces the group unchanged; the canonicalizer
//! rewrites every group that way.

use vstd::arithmetic::div_mod::{lemma_fundamental_div_mod, lemma_fundamental_div_mod_converse};
use vstd::prelude::*;
use vstd::string::StringSliceAdditionalSpecFns;

use crate::constants::{is_symbol_byte, symbol_char};
use crate::decoding::{
    compute_chunk_lenient, compute_decoded_size, dec_group, group_len, pad11, raw_byte,
    spec_char_valid, spec_decoded_size, spec_length_valid,
};
use crate::encoding::{chunk_digit, compute_chunk, pad8};
use crate::utils::ascii_to_string;

verus! {

/// The bytes that group `g` of `s` decodes to, canonicality ignored: the
/// meaningful prefix of the group's inverse transform.
pub open spec fn kept_bytes(s: Seq<u8>, g: int) -> Seq<u8> {
    Seq::new(
        spec_decoded_size(group_len(s.len() as int, g)) as nat,
        |i: int| (raw_byte(dec_group(s, g), i) % 256) as u8,
    )
}

/// The canonical form of a well-formed string: every group is replaced by
/// the re-encoding of what it decodes to. The length never changes.
pub open spec fn spec_canonicalize(s: Seq<u8>) -> Seq<u8> {
    Seq::new(
        s.len(),
        |j: int| symbol_char(chunk_digit(pad8(kept_bytes(s, j / 11)), j % 11) as u8),
    )
}

/// Whether `s` is a canonical G60 encoded string: well-formed, and a fixed
/// point of the canonicalizer.
pub open spec fn spec_is_canonical(s: Seq<u8>) -> bool {
    spec_length_valid(s.len() as int) && spec_char_valid(s) && spec_canonicalize(s) == s
}

/// Rewrites `encoded` into its canonical form. This method assumes
/// `encoded` is well-formed: every byte an alphabet character and the
/// length structurally possible.
pub fn canonicalize_in_place(encoded: &mut String)
    requires
        spec_length_valid(vstd::utf8::encode_utf8(old(encoded)@).len() as int),
        spec_char_valid(vstd::utf8::encode_utf8(old(encoded)@)),
    ensures
        vstd::utf8::encode_utf8(final(encoded)@) == spec_canonicalize(
            vstd::utf8::encode_utf8(old(encoded)@),
        ),
{
    let rewritten = canonical_bytes(encoded.as_str());
    proof {
        assert forall|i: int| 0 <= i < rewritten@.len() implies rewritten@[i] < 128 by {
            crate::encoding::lemma_chunk_digit_bounds(
                pad8(kept_bytes(vstd::utf8::encode_utf8(encoded@), i / 11)),
                i % 11,
            );
            crate::constants::lemma_symbol_char_roundtrip(
                chunk_digit(pad8(kept_bytes(vstd::utf8::encode_utf8(encoded@), i / 11)), i % 11)
                    as u8,
            );
        }
    }
    *encoded = ascii_to_string(rewritten);
}

/// Whether `encoded` is a canonical G60 encoded string: rewriting each
/// group through decode and re-encode must leave it unchanged.
pub fn is_canonical(encoded: &str) -> (r: bool)
    ensures
        r == spec_is_canonical(encoded.spec_bytes()),
{
    let bytes: &[u8] = encoded.as_bytes();
    let ghost s = encoded.spec_bytes();
    let n: usize = bytes.len();

    let last_group_length: usize = n % 11;
    if last_group_length == 1 || last_group_length == 4 || last_group_length == 8 {
        return false;
    }

    let mut i: usize = 0;
    while i < n
        invariant
            bytes@ == s,
            s == encoded.spec_bytes(),
            n == s.len(),
            i <= n,
            forall|j: int| 0 <= j < i ==> is_symbol_byte(s[j]),
        decreases n - i,
    {
        if crate::constants::decode_symbol(bytes[i]) == 255 {
            return false;
        }
        i = i + 1;
    }

    let rewritten = canonical_bytes(encoded);

    crate::utils::slice_eq_vec(bytes, &rewritten)
}

/// Rewrites each group of a well-formed encoded string through decode and
/// re-encode, returning the canonical symbol bytes.
fn canonical_bytes(encoded: &str) -> (r: Vec<u8>)
    requires
        spec_length_valid(encoded.spec_bytes().len() as int),
        spec_char_valid(encoded.spec_bytes()),
    ensures
        r@ == spec_canonicalize(encoded.spec_bytes()),
{
    let bytes: &[u8] = encoded.as_bytes();
    let ghost s = encoded.spec_bytes();
    let n: usize = bytes.len();
    let full_groups: usize = n / 11;
    let last_group_length: usize = n % 11;
    let mut result: Vec<u8> = Vec::new();

    proof {
        lemma_fundamental_div_mod(n as int, 11);
    }

    let mut g: usize = 0;
    while g < full_groups
        invariant
            bytes@ == s,
            s == encoded.spec_bytes(),
            n == s.len(),
            g <= full_groups,
            full_groups == n as int / 11,
            last_group_length == n as int % 11,
            spec_length_valid(n as int),
            spec_char_valid(s),
            result@ == spec_canonicalize(s).take(11 * g),
        decreases full_groups - g,
    {
        proof {
            lemma_fundamental_div_mod(n as int, 11);
            assert(11 * (g + 1) <= n);
        }
        let chunk = &bytes[g * 11..g * 11 + 11];
        write_canonical_group(chunk, Ghost(s), g, &mut result);
        g = g + 1;
    }

    if last_group_length != 0 {
        let chunk = &bytes[n - last_group_length..n];
        write_canonical_group(chunk, Ghost(s), full_groups, &mut result);
    }

    proof {
        assert(result@ == spec_canonicalize(s).take(11 * full_groups + last_group_length));
        assert(spec_canonicalize(s).take(n as int) =~= spec_canonicalize(s));
    }
    result
}

/// Decodes one well-formed group leniently, re-encodes the meaningful byte
/// prefix, and appends the group's symbol count of canonical symbols.
fn write_canonical_group(chunk: &[u8], Ghost(s): Ghost<Seq<u8>>, g: usize, result: &mut Vec<u8>)
    requires
        spec_char_valid(s),
        spec_length_valid(s.len() as int),
        chunk@ == s.subrange(11 * g, 11 * g + group_len(s.len() as int, g as int)),
        1 <= chunk@.len() <= 11,
        11 * g + chunk@.len() <= s.len(),
        chunk@.len() == group_len(s.len() as int, g as int),
        old(result)@ == spec_canonicalize(s).take(11 * g),
    ensures
        final(result)@ == spec_canonicalize(s).take(11 * g + chunk@.len()),
{
    let len: usize = chunk.len();
    proof {
        assert(spec_char_valid(chunk@)) by {
            assert forall|i: int| 0 <= i < chunk@.len() implies is_symbol_byte(chunk@[i]) by {
                assert(chunk@[i] == s[11 * g + i]);
            }
        }
        assert(pad11(chunk@) =~= dec_group(s, g as int));
    }
    let decoded = compute_chunk_lenient(chunk);
    let elements_to_write: usize = compute_decoded_size(len);
    proof {
        assert(1 <= elements_to_write <= 8) by {
            assert(spec_decoded_size(2) == 1 && spec_decoded_size(3) == 2);
            assert(spec_decoded_size(5) == 3 && spec_decoded_size(6) == 4);
            assert(spec_decoded_size(7) == 5 && spec_decoded_size(9) == 6);
            assert(spec_decoded_size(10) == 7 && spec_decoded_size(11) == 8);
        }
    }
    let prefix = &decoded[0..elements_to_write];
    proof {
        assert(prefix@ =~= kept_bytes(s, g as int));
        assert(pad8(prefix@) =~= pad8(kept_bytes(s, g as int)));
    }
    let encoded_symbols = compute_chunk(prefix);

    let mut p: usize = 0;
    while p < len
        invariant
            p <= len,
            len == chunk@.len(),
            chunk@.len() == group_len(s.len() as int, g as int),
            11 * g + chunk@.len() <= s.len(),
            result@ == spec_canonicalize(s).take(11 * g + p),
            forall|j: int|
                0 <= j < 11 ==> encoded_symbols@[j] == symbol_char(
                    chunk_digit(pad8(kept_bytes(s, g as int)), j) as u8,
                ),
        decreases len - p,
    {
        proof {
            let jj = 11 * g + p;
            lemma_fundamental_div_mod_converse(jj as int, 11, g as int, p as int);
            assert(spec_canonicalize(s)[jj as int] == encoded_symbols@[p as int]);
            assert(spec_canonicalize(s).take(jj + 1) =~= spec_canonicalize(s).take(
                jj as int,
            ).push(encoded_symbols@[p as int]));
        }
        result.push(encoded_symbols[p]);
        p = p + 1;
    }
}

} // verus!

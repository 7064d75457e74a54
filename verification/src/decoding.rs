//! Decoding of G60 symbol strings back into byte sequences.
//!
//! Eleven symbols form one group and become eight bytes; the final group may
//! be shorter and is padded with zero digits before the inverse transform,
//! after which only a prefix of the eight bytes is meaningful and the rest
//! must be zero for the string to be canonical.

use vstd::arithmetic::div_mod::{lemma_fundamental_div_mod, lemma_fundamental_div_mod_converse};
use vstd::pervasive::VecAdditionalExecFns;
use vstd::string::StringSliceAdditionalSpecFns;
use vstd::prelude::*;

use crate::constants::{decode_symbol, is_symbol_byte, symbol_value};
use crate::errors::{DecodingError, VerificationError};
use crate::utils::div_rem;

verus! {

/// The digit value of the symbol of `s` at position `i`: zero beyond the end
/// of `s` (the padding of a final partial group) and zero for a byte outside
/// the alphabet (such a group is reported as invalid instead).
pub open spec fn padded_digit(s: Seq<u8>, i: int) -> u8 {
    if 0 <= i < s.len() && is_symbol_byte(s[i]) {
        symbol_value(s[i])
    } else {
        0
    }
}

/// The group of eleven (zero-padded) digit values with index `g`.
pub open spec fn dec_group(s: Seq<u8>, g: int) -> Seq<u8> {
    Seq::new(11, |i: int| padded_digit(s, 11 * g + i))
}

/// `digits` brought to length eleven with zero padding at the end.
pub open spec fn pad11(digits: Seq<u8>) -> Seq<u8> {
    Seq::new(11, |i: int| padded_digit(digits, i))
}

/// Byte `k` of the inverse transform of the eleven-digit group `d`, as an
/// unbounded integer: the transform is only meaningful when the value is at
/// most 255, and a greater value marks the group as not canonical.
#[verifier::opaque]
pub open spec fn raw_byte(d: Seq<u8>, k: int) -> int
    recommends
        d.len() == 11,
        0 <= k < 8,
{
    let y1 = 60 * d[0] + d[1];
    let aux = 3 * d[3] + d[4] / 20;
    let y4 = 60 * (d[4] % 20) + d[5];
    let y6 = 60 * d[7] + d[8];
    if k == 0 {
        y1 / 14
    } else if k == 1 {
        (y1 % 14) * 20 + d[2] / 3
    } else if k == 2 {
        (d[2] % 3) * 90 + aux / 2
    } else if k == 3 {
        128 * (aux % 2) + y4 / 9
    } else if k == 4 {
        (y4 % 9) * 30 + d[6] / 2
    } else if k == 5 {
        (d[6] % 2) * 150 + y6 / 24
    } else if k == 6 {
        (y6 % 24) * 12 + d[9] / 5
    } else {
        (d[9] % 5) * 60 + d[10]
    }
}

/// The number of bytes encoded by `m` symbols: `floor(8 * m / 11)`.
pub open spec fn spec_decoded_size(m: int) -> int {
    8 * m / 11
}

/// A string length is possible for a G60 encoding exactly when its remainder
/// modulo eleven is none of 1, 4 and 8: no byte count produces those.
pub open spec fn spec_length_valid(n: int) -> bool {
    n % 11 != 1 && n % 11 != 4 && n % 11 != 8
}

/// The number of (possibly partial) symbol groups of a string of `n` bytes.
pub open spec fn num_groups(n: int) -> int {
    (n + 10) / 11
}

/// The symbol count of group `g`: eleven for every group but possibly the
/// last one.
pub open spec fn group_len(n: int, g: int) -> int {
    if 11 * (g + 1) <= n {
        11
    } else {
        n - 11 * g
    }
}

/// Whether every symbol of group `g` is an alphabet character.
pub open spec fn group_chars_valid(s: Seq<u8>, g: int) -> bool {
    forall|i: int| 11 * g <= i < 11 * g + group_len(s.len() as int, g) ==> is_symbol_byte(s[i])
}

/// Whether every symbol of `s` is an alphabet character.
pub open spec fn spec_char_valid(s: Seq<u8>) -> bool {
    forall|i: int| 0 <= i < s.len() ==> is_symbol_byte(s[i])
}

/// Whether the inverse transform of group `g` stays within byte range.
pub open spec fn group_decodable(s: Seq<u8>, g: int) -> bool {
    forall|k: int| 0 <= k < 8 ==> raw_byte(dec_group(s, g), k) <= 255
}

/// Whether the padding positions of group `g` decode to zero bytes: real
/// byte sequences leave them zero, so nonzero padding bits mean the string
/// is not the canonical encoding of any byte sequence.
pub open spec fn group_canonical(s: Seq<u8>, g: int) -> bool {
    forall|k: int|
        spec_decoded_size(group_len(s.len() as int, g)) <= k < 8 ==> raw_byte(
            dec_group(s, g),
            k,
        ) == 0
}

/// Whether group `g` passes every per-group check.
pub open spec fn group_ok(s: Seq<u8>, g: int) -> bool {
    group_chars_valid(s, g) && group_decodable(s, g) && group_canonical(s, g)
}

/// The first position at or after `i` whose byte is not an alphabet
/// character, or the length of `s` when there is none.
pub open spec fn first_invalid_from(s: Seq<u8>, i: int) -> int
    decreases s.len() - i when 0 <= i <= s.len()
{
    if i < 0 || i >= s.len() {
        s.len() as int
    } else if !is_symbol_byte(s[i]) {
        i
    } else {
        first_invalid_from(s, i + 1)
    }
}

/// The verification verdict over the groups `g` and beyond: the first group
/// that fails decides, an invalid character before nonzero padding, and an
/// earlier group before a later one.
pub open spec fn spec_check_from(s: Seq<u8>, g: int) -> Result<(), VerificationError>
    decreases num_groups(s.len() as int) - g when 0 <= g
{
    if g < 0 || g >= num_groups(s.len() as int) {
        Ok(())
    } else if !group_chars_valid(s, g) {
        Err(
            VerificationError::InvalidByte {
                index: first_invalid_from(s, 11 * g) as usize,
                byte: s[first_invalid_from(s, 11 * g)],
            },
        )
    } else if !(group_decodable(s, g) && group_canonical(s, g)) {
        Err(VerificationError::NotCanonical)
    } else {
        spec_check_from(s, g + 1)
    }
}

/// The verification verdict over the whole byte sequence `s` of a candidate
/// encoded string: the length check comes before everything else.
pub open spec fn spec_verify(s: Seq<u8>) -> Result<(), VerificationError> {
    if !spec_length_valid(s.len() as int) {
        Err(VerificationError::InvalidLength)
    } else {
        spec_check_from(s, 0)
    }
}

/// Whether `s` is a valid, canonical G60 encoded string.
pub open spec fn spec_verify_ok(s: Seq<u8>) -> bool {
    spec_verify(s) is Ok
}

/// The bytes that a valid encoded string decodes to.
pub open spec fn spec_decode(s: Seq<u8>) -> Seq<u8> {
    Seq::new(
        spec_decoded_size(s.len() as int) as nat,
        |i: int| raw_byte(dec_group(s, i / 8), i % 8) as u8,
    )
}

/// The bytes that a well-formed (character- and length-valid) string decodes
/// to when canonicality is ignored: each raw value is truncated to a byte.
pub open spec fn spec_decode_lenient(s: Seq<u8>) -> Seq<u8> {
    Seq::new(
        spec_decoded_size(s.len() as int) as nat,
        |i: int| (raw_byte(dec_group(s, i / 8), i % 8) % 256) as u8,
    )
}

/// The group check passes from `g` on exactly when every group from `g` on
/// passes.
pub proof fn lemma_check_from_ok(s: Seq<u8>, g: int)
    requires
        0 <= g,
    ensures
        spec_check_from(s, g) is Ok <==> (forall|h: int|
            g <= h < num_groups(s.len() as int) ==> group_ok(s, h)),
    decreases num_groups(s.len() as int) - g,
{
    let n = num_groups(s.len() as int);
    if g < n {
        lemma_check_from_ok(s, g + 1);
        if spec_check_from(s, g) is Ok {
            assert(group_ok(s, g));
        }
        if forall|h: int| g <= h < n ==> group_ok(s, h) {
            assert(group_ok(s, g));
            assert(spec_check_from(s, g) == spec_check_from(s, g + 1));
        }
    }
}

/// A valid string is one with a valid length whose groups all pass.
pub proof fn lemma_verify_ok(s: Seq<u8>)
    ensures
        spec_verify_ok(s) <==> (spec_length_valid(s.len() as int) && forall|h: int|
            0 <= h < num_groups(s.len() as int) ==> group_ok(s, h)),
{
    lemma_check_from_ok(s, 0);
}

/// Splitting `n = 11 * q + r` splits the decoded size along group
/// boundaries.
pub proof fn lemma_decoded_size_decompose(n: int)
    requires
        n >= 0,
    ensures
        spec_decoded_size(n) == 8 * (n / 11) + spec_decoded_size(n % 11),
        0 <= spec_decoded_size(n % 11) <= 8,
{
    let q = n / 11;
    let r = n % 11;
    lemma_fundamental_div_mod(n, 11);
    let s = 8 * r;
    lemma_fundamental_div_mod(s, 11);
    assert(8 * n == 11 * (8 * q + s / 11) + s % 11) by {
        assert(8 * n == 88 * q + 8 * r);
    }
    lemma_fundamental_div_mod_converse(8 * n, 11, 8 * q + s / 11, s % 11);
}

/// If every byte before `i` is an alphabet character and the byte at `i` is
/// not, then `i` is the first invalid position at or after `a`.
pub proof fn lemma_first_invalid_char(s: Seq<u8>, a: int, i: int)
    requires
        0 <= a <= i < s.len(),
        !is_symbol_byte(s[i]),
        forall|j: int| a <= j < i ==> is_symbol_byte(s[j]),
    ensures
        first_invalid_from(s, a) == i,
    decreases i - a,
{
    if a < i {
        lemma_first_invalid_char(s, a + 1, i);
    }
}

/// Computes `floor(8 * encoded_length / 11)` using only integers, split at
/// the group boundary so that no intermediate product overflows.
#[inline(always)]
pub fn compute_decoded_size(encoded_length: usize) -> (r: usize)
    ensures
        r == spec_decoded_size(encoded_length as int),
{
    proof {
        lemma_decoded_size_decompose(encoded_length as int);
        vstd::arithmetic::div_mod::lemma_fundamental_div_mod(8 * encoded_length, 11);
    }
    let q: usize = encoded_length / 11;
    let rem: usize = encoded_length % 11;
    8 * q + (rem * 8) / 11
}

/// Maps the symbol at position `index` of `chunk` to its digit value, zero
/// when the position lies beyond the end, or reports the invalid byte.
#[inline]
pub(crate) fn map_utf8_to_encoded(chunk_index: usize, index: usize, chunk: &[u8]) -> (r: Result<
    usize,
    VerificationError,
>)
    requires
        chunk_index + chunk@.len() <= usize::MAX,
    ensures
        index < chunk@.len() && is_symbol_byte(chunk@[index as int]) ==> r == Ok::<
            usize,
            VerificationError,
        >(symbol_value(chunk@[index as int]) as usize),
        index >= chunk@.len() ==> r == Ok::<usize, VerificationError>(0usize),
        index < chunk@.len() && !is_symbol_byte(chunk@[index as int]) ==> r == Err::<
            usize,
            VerificationError,
        >(
            VerificationError::InvalidByte {
                index: (chunk_index + index) as usize,
                byte: chunk@[index as int],
            },
        ),
        r matches Ok(v) ==> v == padded_digit(chunk@, index as int) && v < 60,
{
    match chunk.get(index) {
        Some(v) => {
            let encoded = decode_symbol(*v);
            if encoded == 255 {
                Err(VerificationError::InvalidByte { index: chunk_index + index, byte: *v })
            } else {
                Ok(encoded as usize)
            }
        },
        None => Ok(0),
    }
}

/// Decodes one group of one to eleven symbols into eight bytes, reporting
/// the first invalid character or a value that no byte group produces.
#[inline]
#[verifier::rlimit(100)]
pub(crate) fn compute_chunk(chunk_index: usize, chunk: &[u8]) -> (r: Result<
    [u8; 8],
    VerificationError,
>)
    requires
        1 <= chunk@.len() <= 11,
        chunk_index + chunk@.len() <= usize::MAX,
    ensures
        ({
            let d = pad11(chunk@);
            let chars_ok = spec_char_valid(chunk@);
            let decodable = forall|k: int| 0 <= k < 8 ==> raw_byte(d, k) <= 255;
            &&& (chars_ok && decodable <==> r is Ok)
            &&& (r matches Ok(bytes) ==> forall|k: int|
                0 <= k < 8 ==> bytes@[k] == raw_byte(d, k))
            &&& (!chars_ok ==> r == Err::<[u8; 8], VerificationError>(
                VerificationError::InvalidByte {
                    index: (chunk_index + first_invalid_from(chunk@, 0)) as usize,
                    byte: chunk@[first_invalid_from(chunk@, 0)],
                },
            ))
            &&& (chars_ok && !decodable ==> r == Err::<[u8; 8], VerificationError>(
                VerificationError::NotCanonical,
            ))
        }),
{
    let c0 = match map_utf8_to_encoded(chunk_index, 0, chunk) {
        Ok(v) => v,
        Err(e) => {
            proof {
                lemma_first_invalid_char(chunk@, 0, 0);
            }
            return Err(e);
        },
    };
    let c1 = match map_utf8_to_encoded(chunk_index, 1, chunk) {
        Ok(v) => v,
        Err(e) => {
            proof {
                lemma_first_invalid_char(chunk@, 0, 1);
            }
            return Err(e);
        },
    };
    let c2 = match map_utf8_to_encoded(chunk_index, 2, chunk) {
        Ok(v) => v,
        Err(e) => {
            proof {
                lemma_first_invalid_char(chunk@, 0, 2);
            }
            return Err(e);
        },
    };
    let c3 = match map_utf8_to_encoded(chunk_index, 3, chunk) {
        Ok(v) => v,
        Err(e) => {
            proof {
                lemma_first_invalid_char(chunk@, 0, 3);
            }
            return Err(e);
        },
    };
    let c4 = match map_utf8_to_encoded(chunk_index, 4, chunk) {
        Ok(v) => v,
        Err(e) => {
            proof {
                lemma_first_invalid_char(chunk@, 0, 4);
            }
            return Err(e);
        },
    };
    let c5 = match map_utf8_to_encoded(chunk_index, 5, chunk) {
        Ok(v) => v,
        Err(e) => {
            proof {
                lemma_first_invalid_char(chunk@, 0, 5);
            }
            return Err(e);
        },
    };
    let c6 = match map_utf8_to_encoded(chunk_index, 6, chunk) {
        Ok(v) => v,
        Err(e) => {
            proof {
                lemma_first_invalid_char(chunk@, 0, 6);
            }
            return Err(e);
        },
    };
    let c7 = match map_utf8_to_encoded(chunk_index, 7, chunk) {
        Ok(v) => v,
        Err(e) => {
            proof {
                lemma_first_invalid_char(chunk@, 0, 7);
            }
            return Err(e);
        },
    };
    let c8 = match map_utf8_to_encoded(chunk_index, 8, chunk) {
        Ok(v) => v,
        Err(e) => {
            proof {
                lemma_first_invalid_char(chunk@, 0, 8);
            }
            return Err(e);
        },
    };
    let c9 = match map_utf8_to_encoded(chunk_index, 9, chunk) {
        Ok(v) => v,
        Err(e) => {
            proof {
                lemma_first_invalid_char(chunk@, 0, 9);
            }
            return Err(e);
        },
    };
    let c10 = match map_utf8_to_encoded(chunk_index, 10, chunk) {
        Ok(v) => v,
        Err(e) => {
            proof {
                lemma_first_invalid_char(chunk@, 0, 10);
            }
            return Err(e);
        },
    };

    proof {
        let d = pad11(chunk@);
        assert(d[0] as int == c0 as int && d[1] as int == c1 as int);
        assert(d[2] as int == c2 as int && d[3] as int == c3 as int);
        assert(d[4] as int == c4 as int && d[5] as int == c5 as int);
        assert(d[6] as int == c6 as int && d[7] as int == c7 as int);
        assert(d[8] as int == c8 as int && d[9] as int == c9 as int);
        assert(d[10] as int == c10 as int);
    }

    let (b1, r1): (usize, usize) = div_rem(60 * c0 + c1, 14);
    let (b2, r2): (usize, usize) = div_rem(c2, 3);
    let (b3, r3): (usize, usize) = div_rem(c4, 20);
    let aux: usize = 3 * c3 + b3;
    let b3_bis: usize = aux / 2;
    let r3_bis: usize = aux % 2;
    let (b4, r4): (usize, usize) = div_rem(60 * r3 + c5, 9);
    let b5: usize = c6 / 2;
    let r5: usize = c6 % 2;
    let (b6, r6): (usize, usize) = div_rem(60 * c7 + c8, 24);
    let (b7, r7): (usize, usize) = div_rem(c9, 5);

    let c_a: usize = b1;
    let c_b: usize = r1 * 20 + b2;
    let c_c: usize = r2 * 90 + b3_bis;
    let c_d: usize = 128 * r3_bis + b4;
    let c_e: usize = r4 * 30 + b5;
    let c_f: usize = r5 * 150 + b6;
    let c_g: usize = r6 * 12 + b7;
    let c_h: usize = 60 * r7 + c10;

    proof {
        reveal(raw_byte);
        let d = pad11(chunk@);
        assert(spec_char_valid(chunk@));
        assert(raw_byte(d, 0) == c_a as int);
        assert(raw_byte(d, 1) == c_b as int);
        assert(raw_byte(d, 2) == c_c as int);
        assert(raw_byte(d, 3) == c_d as int);
        assert(raw_byte(d, 4) == c_e as int);
        assert(raw_byte(d, 5) == c_f as int);
        assert(raw_byte(d, 6) == c_g as int);
        assert(raw_byte(d, 7) == c_h as int);
    }

    if c_a > 255 || c_b > 255 || c_c > 255 || c_d > 255 || c_e > 255 || c_f > 255 || c_g > 255
        || c_h > 255 {
        return Err(VerificationError::NotCanonical);
    }

    Ok(
        [
            c_a as u8,
            c_b as u8,
            c_c as u8,
            c_d as u8,
            c_e as u8,
            c_f as u8,
            c_g as u8,
            c_h as u8,
        ],
    )
}

/// Decodes one group of one to eleven valid symbols into eight bytes,
/// truncating each raw value to a byte instead of failing: the
/// canonicalizer repairs groups through this transform.
#[inline]
pub(crate) fn compute_chunk_lenient(chunk: &[u8]) -> (r: [u8; 8])
    requires
        1 <= chunk@.len() <= 11,
        spec_char_valid(chunk@),
    ensures
        forall|k: int| 0 <= k < 8 ==> r@[k] == (raw_byte(pad11(chunk@), k) % 256) as u8,
{
    let c0 = symbol_at(chunk, 0);
    let c1 = symbol_at(chunk, 1);
    let c2 = symbol_at(chunk, 2);
    let c3 = symbol_at(chunk, 3);
    let c4 = symbol_at(chunk, 4);
    let c5 = symbol_at(chunk, 5);
    let c6 = symbol_at(chunk, 6);
    let c7 = symbol_at(chunk, 7);
    let c8 = symbol_at(chunk, 8);
    let c9 = symbol_at(chunk, 9);
    let c10 = symbol_at(chunk, 10);

    proof {
        let d = pad11(chunk@);
        assert(d[0] as int == c0 as int && d[1] as int == c1 as int);
        assert(d[2] as int == c2 as int && d[3] as int == c3 as int);
        assert(d[4] as int == c4 as int && d[5] as int == c5 as int);
        assert(d[6] as int == c6 as int && d[7] as int == c7 as int);
        assert(d[8] as int == c8 as int && d[9] as int == c9 as int);
        assert(d[10] as int == c10 as int);
    }

    let (b1, r1): (usize, usize) = div_rem(60 * c0 + c1, 14);
    let (b2, r2): (usize, usize) = div_rem(c2, 3);
    let (b3, r3): (usize, usize) = div_rem(c4, 20);
    let aux: usize = 3 * c3 + b3;
    let b3_bis: usize = aux / 2;
    let r3_bis: usize = aux % 2;
    let (b4, r4): (usize, usize) = div_rem(60 * r3 + c5, 9);
    let b5: usize = c6 / 2;
    let r5: usize = c6 % 2;
    let (b6, r6): (usize, usize) = div_rem(60 * c7 + c8, 24);
    let (b7, r7): (usize, usize) = div_rem(c9, 5);

    proof {
        reveal(raw_byte);
    }
    [
        (b1 % 256) as u8,
        ((r1 * 20 + b2) % 256) as u8,
        ((r2 * 90 + b3_bis) % 256) as u8,
        ((128 * r3_bis + b4) % 256) as u8,
        ((r4 * 30 + b5) % 256) as u8,
        ((r5 * 150 + b6) % 256) as u8,
        ((r6 * 12 + b7) % 256) as u8,
        ((60 * r7 + c10) % 256) as u8,
    ]
}

/// Everything before the first invalid position is valid, and the first
/// invalid position is invalid unless there is none.
pub proof fn lemma_first_invalid_props(s: Seq<u8>, a: int)
    requires
        0 <= a <= s.len(),
    ensures
        a <= first_invalid_from(s, a) <= s.len(),
        forall|j: int| a <= j < first_invalid_from(s, a) ==> is_symbol_byte(s[j]),
        first_invalid_from(s, a) < s.len() ==> !is_symbol_byte(s[first_invalid_from(s, a)]),
    decreases s.len() - a,
{
    if a < s.len() && is_symbol_byte(s[a]) {
        lemma_first_invalid_props(s, a + 1);
    }
}

/// Groups that pass do not change the verdict.
pub proof fn lemma_check_from_prefix(s: Seq<u8>, g: int)
    requires
        0 <= g,
        forall|h: int| 0 <= h < g ==> group_ok(s, h),
    ensures
        spec_check_from(s, 0) == spec_check_from(s, g),
    decreases g,
{
    if g > 0 {
        lemma_check_from_prefix(s, g - 1);
        assert(group_ok(s, g - 1));
        assert(spec_check_from(s, g - 1) == spec_check_from(s, g));
    }
}

/// The group count of a string of `n` symbols, split as `n = 11 * q + r`.
pub proof fn lemma_num_groups(n: int)
    requires
        n >= 0,
    ensures
        n % 11 == 0 ==> num_groups(n) == n / 11,
        n % 11 != 0 ==> num_groups(n) == n / 11 + 1,
{
    let q = n / 11;
    let r = n % 11;
    lemma_fundamental_div_mod(n, 11);
    if r == 0 {
        lemma_fundamental_div_mod_converse(n + 10, 11, q, 10);
    } else {
        lemma_fundamental_div_mod_converse(n + 10, 11, q + 1, r - 1);
    }
}

/// Relates the error of a failing group to the verdict over the whole
/// string: the group's characters and digits are those of the string.
pub proof fn lemma_group_err(s: Seq<u8>, g: int, chunk: Seq<u8>, e: VerificationError)
    requires
        0 <= g < num_groups(s.len() as int),
        chunk == s.subrange(11 * g, 11 * g + group_len(s.len() as int, g)),
        1 <= chunk.len() <= 11,
        forall|h: int| 0 <= h < g ==> group_ok(s, h),
        spec_length_valid(s.len() as int),
        ({
            let chars_ok = spec_char_valid(chunk);
            let decodable = forall|k: int| 0 <= k < 8 ==> raw_byte(pad11(chunk), k) <= 255;
            &&& (!chars_ok ==> e == VerificationError::InvalidByte {
                index: (11 * g + first_invalid_from(chunk, 0)) as usize,
                byte: chunk[first_invalid_from(chunk, 0)],
            })
            &&& (chars_ok && !decodable ==> e == VerificationError::NotCanonical)
            &&& !(chars_ok && decodable)
        }),
    ensures
        spec_verify(s) == Err::<(), VerificationError>(e),
{
    let n = s.len() as int;
    let len = group_len(n, g);
    assert(pad11(chunk) =~= dec_group(s, g));
    lemma_check_from_prefix(s, g);
    if !spec_char_valid(chunk) {
        let t = first_invalid_from(chunk, 0);
        lemma_first_invalid_props(chunk, 0);
        assert(t < len) by {
            assert(exists|i: int| 0 <= i < chunk.len() && !is_symbol_byte(chunk[i]));
        }
        assert(!group_chars_valid(s, g)) by {
            assert(s[11 * g + t] == chunk[t]);
        }
        assert forall|j: int| 11 * g <= j < 11 * g + t implies is_symbol_byte(s[j]) by {
            assert(s[j] == chunk[j - 11 * g]);
            assert(is_symbol_byte(chunk[j - 11 * g]));
        }
        lemma_first_invalid_char(s, 11 * g, 11 * g + t);
        assert(spec_check_from(s, g) == Err::<(), VerificationError>(e));
    } else {
        assert forall|j: int| 11 * g <= j < 11 * g + len implies is_symbol_byte(s[j]) by {
            assert(s[j] == chunk[j - 11 * g]);
            assert(is_symbol_byte(chunk[j - 11 * g]));
        }
        assert(group_chars_valid(s, g));
        assert(!group_decodable(s, g));
        assert(spec_check_from(s, g) == Err::<(), VerificationError>(e));
    }
}

/// Decodes a G60 encoded string.
/// The result is written in `writer`.
///
/// # Errors
/// An error will be thrown if `encoded` is not a valid, canonical G60
/// encoded string.
pub fn decode_in_writer(encoded: &str, writer: &mut Vec<u8>) -> (r: Result<usize, DecodingError>)
    ensures
        ({
            let s = encoded.spec_bytes();
            &&& (r is Ok <==> spec_verify_ok(s))
            &&& (spec_verify_ok(s) ==> r == Ok::<usize, DecodingError>(
                spec_decoded_size(s.len() as int) as usize,
            ) && final(writer)@ == old(writer)@ + spec_decode(s))
            &&& (!spec_verify_ok(s) ==> r == Err::<usize, DecodingError>(
                DecodingError::Verification(spec_verify(s)->Err_0),
            ) && (exists|t: int|
                0 <= t <= spec_decoded_size(s.len() as int) && final(writer)@ == old(writer)@
                    + spec_decode(s).take(t)))
        }),
{
    let ghost init = writer@;
    let bytes: &[u8] = encoded.as_bytes();
    let ghost s = encoded.spec_bytes();
    let n: usize = bytes.len();
    let required_slice_size: usize = compute_decoded_size(n);

    // Check length.
    let last_group_length: usize = n % 11;
    if last_group_length == 1 || last_group_length == 4 || last_group_length == 8 {
        proof {
            assert(spec_decoded_size(n as int) >= 0) by {
                lemma_fundamental_div_mod(8 * n as int, 11);
            }
            assert(writer@ == init + spec_decode(s).take(0)) by {
                assert(spec_decode(s).take(0) =~= Seq::<u8>::empty());
            }
        }
        return Err(DecodingError::Verification(VerificationError::InvalidLength));
    }
    let full_groups: usize = n / 11;
    proof {
        lemma_decoded_size_decompose(n as int);
        lemma_num_groups(n as int);
    }

    // Complete groups.
    let mut chunk_index: usize = 0;
    let mut g: usize = 0;
    while g < full_groups
        invariant
            bytes@ == s,
            s == encoded.spec_bytes(),
            n == s.len(),
            g <= full_groups,
            full_groups == n as int / 11,
            chunk_index == 11 * g,
            spec_length_valid(n as int),
            full_groups <= num_groups(n as int),
            spec_decoded_size(n as int) >= 8 * full_groups,
            forall|h: int| 0 <= h < g ==> group_ok(s, h),
            init == old(writer)@,
            writer@ == init + spec_decode(s).take(8 * g),
        decreases full_groups - g,
    {
        proof {
            lemma_fundamental_div_mod(n as int, 11);
        }
        let chunk = &bytes[chunk_index..chunk_index + 11];
        proof {
            assert(chunk@ =~= s.subrange(11 * g, 11 * g + group_len(n as int, g as int)));
            assert(pad11(chunk@) =~= dec_group(s, g as int));
        }
        match compute_chunk(chunk_index, chunk) {
            Ok(decoded) => {
                proof {
                    assert forall|i: int|
                        11 * g <= i < 11 * g + group_len(n as int, g as int) implies is_symbol_byte(
                        s[i],
                    ) by {
                        assert(s[i] == chunk@[i - 11 * g]);
                        assert(is_symbol_byte(chunk@[i - 11 * g]));
                    }
                    assert(group_chars_valid(s, g as int));
                    assert(group_decodable(s, g as int));
                    assert(group_canonical(s, g as int));
                }
                let mut k: usize = 0;
                while k < 8
                    invariant
                        k <= 8,
                        g < full_groups,
                        full_groups == n as int / 11,
                        n == s.len(),
                        writer@ == init + spec_decode(s).take(8 * g + k),
                        spec_decoded_size(n as int) >= 8 * full_groups,
                        forall|kk: int|
                            0 <= kk < 8 ==> decoded@[kk] == raw_byte(dec_group(s, g as int), kk),
                    decreases 8 - k,
                {
                    proof {
                        let ii = 8 * g + k;
                        lemma_fundamental_div_mod_converse(ii as int, 8, g as int, k as int);
                        assert(spec_decode(s)[ii as int] == decoded@[k as int]);
                        assert(spec_decode(s).take(ii + 1) =~= spec_decode(s).take(
                            ii as int,
                        ).push(decoded@[k as int]));
                    }
                    writer.push(decoded[k]);
                    k = k + 1;
                }
            },
            Err(e) => {
                proof {
                    lemma_group_err(s, g as int, chunk@, e);
                    assert(writer@ == init + spec_decode(s).take(8 * g));
                }
                return Err(DecodingError::Verification(e));
            },
        }
        chunk_index = chunk_index + 11;
        g = g + 1;
    }

    // Last incomplete group.
    proof {
        lemma_fundamental_div_mod(n as int, 11);
    }
    if last_group_length != 0 {
        let chunk = &bytes[chunk_index..n];
        proof {
            assert(group_len(n as int, full_groups as int) == last_group_length);
            assert(chunk@ =~= s.subrange(
                11 * full_groups,
                11 * full_groups + group_len(n as int, full_groups as int),
            ));
            assert(pad11(chunk@) =~= dec_group(s, full_groups as int));
        }
        match compute_chunk(chunk_index, chunk) {
            Ok(decoded) => {
                proof {
                    assert forall|i: int|
                        11 * full_groups <= i < 11 * full_groups + group_len(
                            n as int,
                            full_groups as int,
                        ) implies is_symbol_byte(s[i]) by {
                        assert(s[i] == chunk@[i - 11 * full_groups]);
                        assert(is_symbol_byte(chunk@[i - 11 * full_groups]));
                    }
                    assert(group_chars_valid(s, full_groups as int));
                    assert(group_decodable(s, full_groups as int));
                }
                let elements_to_write: usize = compute_decoded_size(last_group_length);

                let mut k: usize = elements_to_write;
                while k < 8
                    invariant
                        elements_to_write <= k <= 8,
                        elements_to_write == spec_decoded_size(last_group_length as int),
                        last_group_length == group_len(n as int, full_groups as int),
                        n == s.len(),
                        s == encoded.spec_bytes(),
                        spec_length_valid(n as int),
                        full_groups < num_groups(n as int),
                        group_chars_valid(s, full_groups as int),
                        group_decodable(s, full_groups as int),
                        forall|h: int| 0 <= h < full_groups ==> group_ok(s, h),
                        spec_decoded_size(n as int) >= 8 * full_groups,
                        init == old(writer)@,
                        writer@ == init + spec_decode(s).take(8 * full_groups),
                        forall|kk: int|
                            0 <= kk < 8 ==> decoded@[kk] == raw_byte(
                                dec_group(s, full_groups as int),
                                kk,
                            ),
                        forall|kk: int|
                            elements_to_write <= kk < k ==> raw_byte(
                                dec_group(s, full_groups as int),
                                kk,
                            ) == 0,
                    decreases 8 - k,
                {
                    if decoded[k] != 0 {
                        proof {
                            assert(raw_byte(dec_group(s, full_groups as int), k as int) != 0);
                            assert(!group_canonical(s, full_groups as int));
                            lemma_check_from_prefix(s, full_groups as int);
                            assert(spec_check_from(s, full_groups as int) == Err::<
                                (),
                                VerificationError,
                            >(VerificationError::NotCanonical));
                        }
                        return Err(DecodingError::Verification(VerificationError::NotCanonical));
                    }
                    k = k + 1;
                }
                proof {
                    assert(group_canonical(s, full_groups as int));
                    assert(group_ok(s, full_groups as int));
                    lemma_check_from_ok(s, 0);
                    assert(spec_verify_ok(s));
                }

                let mut t: usize = 0;
                while t < elements_to_write
                    invariant
                        t <= elements_to_write,
                        elements_to_write == spec_decoded_size(last_group_length as int),
                        last_group_length == n as int % 11,
                        last_group_length != 0,
                        full_groups == n as int / 11,
                        n == s.len(),
                        spec_decoded_size(n as int) == 8 * full_groups + elements_to_write,
                        writer@ == init + spec_decode(s).take(8 * full_groups + t),
                        forall|kk: int|
                            0 <= kk < 8 ==> decoded@[kk] == raw_byte(
                                dec_group(s, full_groups as int),
                                kk,
                            ),
                    decreases elements_to_write - t,
                {
                    proof {
                        let ii = 8 * full_groups + t;
                        lemma_fundamental_div_mod_converse(
                            ii as int,
                            8,
                            full_groups as int,
                            t as int,
                        );
                        assert(spec_decode(s)[ii as int] == decoded@[t as int]);
                        assert(spec_decode(s).take(ii + 1) =~= spec_decode(s).take(
                            ii as int,
                        ).push(decoded@[t as int]));
                    }
                    writer.push(decoded[t]);
                    t = t + 1;
                }
                proof {
                    assert(writer@ == init + spec_decode(s).take(
                        spec_decoded_size(n as int),
                    ));
                    assert(spec_decode(s).take(spec_decoded_size(n as int)) =~= spec_decode(s));
                }
            },
            Err(e) => {
                proof {
                    lemma_group_err(s, full_groups as int, chunk@, e);
                    assert(writer@ == init + spec_decode(s).take(8 * full_groups));
                }
                return Err(DecodingError::Verification(e));
            },
        }
    } else {
        proof {
            assert(forall|h: int| 0 <= h < num_groups(n as int) ==> group_ok(s, h));
            lemma_check_from_ok(s, 0);
            assert(spec_verify_ok(s));
            assert(writer@ == init + spec_decode(s).take(spec_decoded_size(n as int)));
            assert(spec_decode(s).take(spec_decoded_size(n as int)) =~= spec_decode(s));
        }
    }

    Ok(required_slice_size)
}

/// Decodes a G60 encoded string.
pub fn decode(encoded: &str) -> (r: Result<Vec<u8>, DecodingError>)
    ensures
        ({
            let s = encoded.spec_bytes();
            &&& (r is Ok <==> spec_verify_ok(s))
            &&& (r matches Ok(v) ==> v@ == spec_decode(s))
            &&& (!spec_verify_ok(s) ==> r == Err::<Vec<u8>, DecodingError>(
                DecodingError::Verification(spec_verify(s)->Err_0),
            ))
        }),
{
    let mut slice: Vec<u8> = Vec::new();

    match decode_in_writer(encoded, &mut slice) {
        Ok(_) => Ok(slice),
        Err(e) => Err(e),
    }
}

/// Decodes a G60 encoded string.
/// The result is placed into the first bytes of `slice` and the number of
/// written elements is returned; the remainder of `slice` is left untouched.
///
/// # Errors
/// An error will be thrown in the following cases:
/// - if `slice` does not have enough space to store the decoded string.
/// - if `encoded` is not a valid, canonical G60 encoded string.
pub fn decode_in_slice(encoded: &str, slice: &mut Vec<u8>) -> (r: Result<usize, DecodingError>)
    ensures
        final(slice)@.len() == old(slice)@.len(),
        ({
            let s = encoded.spec_bytes();
            let required = spec_decoded_size(s.len() as int);
            &&& (old(slice)@.len() < required ==> r == Err::<usize, DecodingError>(
                DecodingError::NotEnoughSpaceInSlice {
                    actual: old(slice)@.len() as usize,
                    required: required as usize,
                },
            ) && final(slice)@ == old(slice)@)
            &&& (old(slice)@.len() >= required && spec_verify_ok(s) ==> r == Ok::<
                usize,
                DecodingError,
            >(required as usize) && final(slice)@ == spec_decode(s) + old(slice)@.skip(required))
            &&& (old(slice)@.len() >= required && !spec_verify_ok(s) ==> r == Err::<
                usize,
                DecodingError,
            >(DecodingError::Verification(spec_verify(s)->Err_0)) && final(slice)@ == old(
                slice,
            )@)
        }),
{
    let required_slice_size: usize = compute_decoded_size(encoded.as_bytes().len());

    if slice.len() < required_slice_size {
        return Err(
            DecodingError::NotEnoughSpaceInSlice {
                actual: slice.len(),
                required: required_slice_size,
            },
        );
    }

    let mut decoded: Vec<u8> = Vec::new();
    let count = match decode_in_writer(encoded, &mut decoded) {
        Ok(c) => c,
        Err(e) => {
            return Err(e);
        },
    };

    let ghost s = encoded.spec_bytes();
    let mut i: usize = 0;
    while i < required_slice_size
        invariant
            i <= required_slice_size,
            required_slice_size == spec_decoded_size(s.len() as int),
            decoded@ == spec_decode(s),
            decoded@.len() == required_slice_size,
            slice@.len() == old(slice)@.len() >= required_slice_size,
            forall|k: int| 0 <= k < i ==> slice@[k] == decoded@[k],
            forall|k: int| i <= k < slice@.len() ==> slice@[k] == old(slice)@[k],
        decreases required_slice_size - i,
    {
        let v = decoded[i];
        slice.set(i, v);
        i = i + 1;
    }
    proof {
        assert(slice@ =~= spec_decode(s) + old(slice)@.skip(required_slice_size as int));
    }
    Ok(count)
}

/// Decodes a well-formed G60 string without the canonicality checks,
/// truncating each raw group value to a byte; the result is appended to
/// `writer` and the number of written bytes is returned.
pub(crate) fn decode_lenient_in_writer(encoded: &str, writer: &mut Vec<u8>) -> (r: usize)
    requires
        spec_length_valid(encoded.spec_bytes().len() as int),
        spec_char_valid(encoded.spec_bytes()),
    ensures
        r == spec_decoded_size(encoded.spec_bytes().len() as int),
        final(writer)@ == old(writer)@ + spec_decode_lenient(encoded.spec_bytes()),
{
    let ghost init = writer@;
    let bytes: &[u8] = encoded.as_bytes();
    let ghost s = encoded.spec_bytes();
    let n: usize = bytes.len();
    let required_slice_size: usize = compute_decoded_size(n);
    let full_groups: usize = n / 11;
    let last_group_length: usize = n % 11;

    proof {
        lemma_decoded_size_decompose(n as int);
        lemma_fundamental_div_mod(n as int, 11);
    }

    let mut g: usize = 0;
    while g < full_groups
        invariant
            bytes@ == s,
            s == encoded.spec_bytes(),
            n == s.len(),
            g <= full_groups,
            full_groups == n as int / 11,
            spec_char_valid(s),
            spec_decoded_size(n as int) >= 8 * full_groups,
            writer@ == init + spec_decode_lenient(s).take(8 * g),
        decreases full_groups - g,
    {
        proof {
            lemma_fundamental_div_mod(n as int, 11);
            assert(11 * (g + 1) <= n);
        }
        let chunk = &bytes[g * 11..g * 11 + 11];
        proof {
            assert(spec_char_valid(chunk@)) by {
                assert forall|i: int| 0 <= i < chunk@.len() implies is_symbol_byte(
                    chunk@[i],
                ) by {
                    assert(chunk@[i] == s[11 * g + i]);
                }
            }
            assert(pad11(chunk@) =~= dec_group(s, g as int));
        }
        let decoded = compute_chunk_lenient(chunk);
        let mut k: usize = 0;
        while k < 8
            invariant
                k <= 8,
                g < full_groups,
                full_groups == n as int / 11,
                n == s.len(),
                spec_decoded_size(n as int) >= 8 * full_groups,
                writer@ == init + spec_decode_lenient(s).take(8 * g + k),
                forall|kk: int|
                    0 <= kk < 8 ==> decoded@[kk] == (raw_byte(dec_group(s, g as int), kk)
                        % 256) as u8,
            decreases 8 - k,
        {
            proof {
                let ii = 8 * g + k;
                lemma_fundamental_div_mod_converse(ii as int, 8, g as int, k as int);
                assert(spec_decode_lenient(s)[ii as int] == decoded@[k as int]);
                assert(spec_decode_lenient(s).take(ii + 1) =~= spec_decode_lenient(s).take(
                    ii as int,
                ).push(decoded@[k as int]));
            }
            writer.push(decoded[k]);
            k = k + 1;
        }
        g = g + 1;
    }

    if last_group_length != 0 {
        let chunk = &bytes[n - last_group_length..n];
        proof {
            assert(spec_char_valid(chunk@)) by {
                assert forall|i: int| 0 <= i < chunk@.len() implies is_symbol_byte(
                    chunk@[i],
                ) by {
                    assert(chunk@[i] == s[11 * full_groups + i]);
                }
            }
            assert(pad11(chunk@) =~= dec_group(s, full_groups as int));
        }
        let decoded = compute_chunk_lenient(chunk);
        let elements_to_write: usize = compute_decoded_size(last_group_length);

        let mut t: usize = 0;
        while t < elements_to_write
            invariant
                t <= elements_to_write,
                elements_to_write == spec_decoded_size(last_group_length as int),
                last_group_length == n as int % 11,
                last_group_length != 0,
                full_groups == n as int / 11,
                n == s.len(),
                spec_decoded_size(n as int) == 8 * full_groups + elements_to_write,
                writer@ == init + spec_decode_lenient(s).take(8 * full_groups + t),
                forall|kk: int|
                    0 <= kk < 8 ==> decoded@[kk] == (raw_byte(
                        dec_group(s, full_groups as int),
                        kk,
                    ) % 256) as u8,
            decreases elements_to_write - t,
        {
            proof {
                let ii = 8 * full_groups + t;
                lemma_fundamental_div_mod_converse(ii as int, 8, full_groups as int, t as int);
                assert(spec_decode_lenient(s)[ii as int] == decoded@[t as int]);
                assert(spec_decode_lenient(s).take(ii + 1) =~= spec_decode_lenient(s).take(
                    ii as int,
                ).push(decoded@[t as int]));
            }
            writer.push(decoded[t]);
            t = t + 1;
        }
    }

    proof {
        assert(writer@ == init + spec_decode_lenient(s).take(spec_decoded_size(n as int)));
        assert(spec_decode_lenient(s).take(spec_decoded_size(n as int)) =~= spec_decode_lenient(
            s,
        ));
    }
    required_slice_size
}

/// The digit value of the symbol of `chunk` at `index`, zero beyond the end;
/// every byte of `chunk` must be an alphabet character.
#[inline]
fn symbol_at(chunk: &[u8], index: usize) -> (r: usize)
    requires
        chunk@.len() <= 11,
        spec_char_valid(chunk@),
    ensures
        r == padded_digit(chunk@, index as int),
        r < 60,
{
    match chunk.get(index) {
        Some(v) => decode_symbol(*v) as usize,
        None => 0,
    }
}

} // verus!

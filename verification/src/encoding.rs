//! Encoding of byte sequences into G60 symbol strings.
//!
//! Eight input bytes form one group and become eleven symbols; the final
//! group may be shorter and is padded with zero bytes before the transform,
//! after which only a prefix of the eleven symbols is emitted.

use vstd::arithmetic::div_mod::{lemma_fundamental_div_mod, lemma_fundamental_div_mod_converse};
use vstd::pervasive::VecAdditionalExecFns;
use vstd::prelude::*;

use crate::constants::{encode_symbol, symbol_char};
use crate::errors::EncodingError;
use crate::utils::{ascii_to_string, div_rem};

verus! {

/// The byte of `bytes` at position `i`, or the padding value zero beyond the
/// end.
pub open spec fn padded_byte(bytes: Seq<u8>, i: int) -> u8 {
    if 0 <= i < bytes.len() {
        bytes[i]
    } else {
        0
    }
}

/// `bytes` brought to length eight with zero padding at the end.
pub open spec fn pad8(bytes: Seq<u8>) -> Seq<u8> {
    Seq::new(8, |i: int| padded_byte(bytes, i))
}

/// The group of eight (zero-padded) input bytes with index `g`.
pub open spec fn enc_group(bytes: Seq<u8>, g: int) -> Seq<u8> {
    Seq::new(8, |i: int| padded_byte(bytes, 8 * g + i))
}

/// Digit `j` (a base-60 value) of the eleven-symbol encoding of the
/// eight-byte group `b`, written with the same mixed-radix steps that the
/// executable transform performs.
#[verifier::opaque]
pub open spec fn chunk_digit(b: Seq<u8>, j: int) -> int
    recommends
        b.len() == 8,
        0 <= j < 11,
{
    let x1 = 14 * b[0] + b[1] / 20;
    let x3 = 2 * (b[2] % 90) + b[3] / 128;
    let x4 = 9 * (b[3] % 128) + b[4] / 30;
    let x6 = 2 * (b[5] % 150) + b[6] / 144;
    if j == 0 {
        x1 / 60
    } else if j == 1 {
        x1 % 60
    } else if j == 2 {
        3 * (b[1] % 20) + b[2] / 90
    } else if j == 3 {
        x3 / 3
    } else if j == 4 {
        20 * (x3 % 3) + x4 / 60
    } else if j == 5 {
        x4 % 60
    } else if j == 6 {
        2 * (b[4] % 30) + b[5] / 150
    } else if j == 7 {
        x6 / 5
    } else if j == 8 {
        12 * (x6 % 5) + (b[6] % 144) / 12
    } else if j == 9 {
        5 * ((b[6] % 144) % 12) + b[7] / 60
    } else {
        (b[7] % 60) as int
    }
}

/// The eleven digit values of the encoding of the eight-byte group `b`.
pub open spec fn enc_digits(b: Seq<u8>) -> Seq<u8> {
    Seq::new(11, |j: int| chunk_digit(b, j) as u8)
}

/// Every digit of a group encoding is a base-60 value.
pub proof fn lemma_chunk_digit_bounds(b: Seq<u8>, j: int)
    requires
        b.len() == 8,
        0 <= j < 11,
    ensures
        0 <= chunk_digit(b, j) < 60,
{
    reveal(chunk_digit);
}

/// The number of symbols that encode `n` bytes: `ceil(11 * n / 8)`.
pub open spec fn spec_encoded_size(n: int) -> int {
    (11 * n + 7) / 8
}

/// The whole encoding of `bytes`: each output symbol is the alphabet
/// character of one digit of one padded group.
pub open spec fn spec_encode(bytes: Seq<u8>) -> Seq<u8> {
    Seq::new(
        spec_encoded_size(bytes.len() as int) as nat,
        |j: int| symbol_char(chunk_digit(enc_group(bytes, j / 11), j % 11) as u8),
    )
}

/// Splitting `n = 8 * q + r` splits the output size along group boundaries.
pub proof fn lemma_encoded_size_decompose(n: int)
    requires
        n >= 0,
    ensures
        spec_encoded_size(n) == 11 * (n / 8) + spec_encoded_size(n % 8),
        0 <= spec_encoded_size(n % 8) <= 11,
{
    let q = n / 8;
    let r = n % 8;
    lemma_fundamental_div_mod(n, 8);
    let s = 11 * r + 7;
    lemma_fundamental_div_mod(s, 8);
    assert(11 * n + 7 == 8 * (11 * q + s / 8) + s % 8) by {
        assert(11 * n == 88 * q + 11 * r);
    }
    lemma_fundamental_div_mod_converse(11 * n + 7, 8, 11 * q + s / 8, s % 8);
}

/// Computes `ceil(11 * content_length / 8)` using only integers, split at
/// the group boundary so that no intermediate product overflows.
#[inline(always)]
pub fn compute_encoded_size(content_length: usize) -> (r: usize)
    requires
        spec_encoded_size(content_length as int) <= usize::MAX,
    ensures
        r == spec_encoded_size(content_length as int),
{
    proof {
        lemma_encoded_size_decompose(content_length as int);
    }
    let q: usize = content_length / 8;
    let rem: usize = content_length % 8;
    11 * q + (11 * rem + 7) / 8
}

/// Encodes one group of one to eight bytes into eleven alphabet characters.
#[inline]
#[verifier::rlimit(100)]
pub(crate) fn compute_chunk(chunk: &[u8]) -> (r: [u8; 11])
    requires
        1 <= chunk@.len() <= 8,
    ensures
        forall|j: int|
            0 <= j < 11 ==> r@[j] == symbol_char(chunk_digit(pad8(chunk@), j) as u8),
{
    let c_a: usize = chunk[0] as usize;
    let c_b: usize = if chunk.len() > 1 {
        chunk[1] as usize
    } else {
        0
    };
    let c_c: usize = if chunk.len() > 2 {
        chunk[2] as usize
    } else {
        0
    };
    let c_d: usize = if chunk.len() > 3 {
        chunk[3] as usize
    } else {
        0
    };
    let c_e: usize = if chunk.len() > 4 {
        chunk[4] as usize
    } else {
        0
    };
    let c_f: usize = if chunk.len() > 5 {
        chunk[5] as usize
    } else {
        0
    };
    let c_g: usize = if chunk.len() > 6 {
        chunk[6] as usize
    } else {
        0
    };
    let c_h: usize = if chunk.len() > 7 {
        chunk[7] as usize
    } else {
        0
    };

    let (c2, r2): (usize, usize) = div_rem(c_b, 20);
    let (c1, r1): (usize, usize) = div_rem(14 * c_a + c2, 60);
    let (c3, r3): (usize, usize) = div_rem(c_c, 90);
    let b3h: usize = c_d / 128;
    let b3l: usize = c_d % 128;
    let (c4, r4): (usize, usize) = div_rem(2 * r3 + b3h, 3);
    let (c6, r6): (usize, usize) = div_rem(c_e, 30);
    let (c5, r5): (usize, usize) = div_rem(9 * b3l + c6, 60);
    let (c7, r7): (usize, usize) = div_rem(c_f, 150);
    let (c8a, r8a): (usize, usize) = div_rem(c_g, 144);
    let (c8, r8): (usize, usize) = div_rem(2 * r7 + c8a, 5);
    let (c9, r9): (usize, usize) = div_rem(r8a, 12);
    let (c10, r10): (usize, usize) = div_rem(c_h, 60);

    let result = [
        encode_symbol(c1 as u8),
        encode_symbol(r1 as u8),
        encode_symbol((3 * r2 + c3) as u8),
        encode_symbol(c4 as u8),
        encode_symbol((20 * r4 + c5) as u8),
        encode_symbol(r5 as u8),
        encode_symbol((2 * r6 + c7) as u8),
        encode_symbol(c8 as u8),
        encode_symbol((12 * r8 + c9) as u8),
        encode_symbol((5 * r9 + c10) as u8),
        encode_symbol(r10 as u8),
    ];
    proof {
        reveal(chunk_digit);
        let p = pad8(chunk@);
        assert(p[0] as int == c_a as int && p[1] as int == c_b as int);
        assert(p[2] as int == c_c as int && p[3] as int == c_d as int);
        assert(p[4] as int == c_e as int && p[5] as int == c_f as int);
        assert(p[6] as int == c_g as int && p[7] as int == c_h as int);
        assert(chunk_digit(p, 0) == c1 as int && chunk_digit(p, 1) == r1 as int);
        assert(chunk_digit(p, 2) == (3 * r2 + c3) as int && chunk_digit(p, 3) == c4 as int);
        assert(chunk_digit(p, 4) == (20 * r4 + c5) as int && chunk_digit(p, 5) == r5 as int);
        assert(chunk_digit(p, 6) == (2 * r6 + c7) as int && chunk_digit(p, 7) == c8 as int);
        assert(chunk_digit(p, 8) == (12 * r8 + c9) as int);
        assert(chunk_digit(p, 9) == (5 * r9 + c10) as int);
        assert(chunk_digit(p, 10) == r10 as int);
    }
    result
}

/// Encodes a list of bytes into a G60 encoding format.
/// The result is appended to `writer` and the number of written symbols is
/// returned.
pub fn encode_in_writer(content: &[u8], writer: &mut Vec<u8>) -> (r: Result<
    usize,
    EncodingError,
>)
    requires
        spec_encoded_size(content@.len() as int) <= usize::MAX,
    ensures
        r == Ok::<usize, EncodingError>(spec_encoded_size(content@.len() as int) as usize),
        final(writer)@ == old(writer)@ + spec_encode(content@),
{
    let ghost init = writer@;
    let required_slice_size: usize = compute_encoded_size(content.len());
    let full_groups: usize = content.len() / 8;

    proof {
        lemma_encoded_size_decompose(content@.len() as int);
    }

    // Complete groups.
    let mut g: usize = 0;
    while g < full_groups
        invariant
            g <= full_groups,
            full_groups == content@.len() as int / 8,
            content@.len() <= usize::MAX,
            writer@ == init + spec_encode(content@).take(11 * g),
            spec_encoded_size(content@.len() as int) >= 11 * full_groups,
        decreases full_groups - g,
    {
        proof {
            lemma_fundamental_div_mod(content@.len() as int, 8);
            assert(8 * g + 8 <= content@.len());
        }
        let chunk = &content[g * 8..g * 8 + 8];
        let encoded = compute_chunk(chunk);
        proof {
            assert(pad8(chunk@) =~= enc_group(content@, g as int));
        }

        let mut i: usize = 0;
        while i < 11
            invariant
                i <= 11,
                writer@ == init + spec_encode(content@).take(11 * g + i),
                g < full_groups,
                full_groups == content@.len() as int / 8,
                spec_encoded_size(content@.len() as int) >= 11 * full_groups,
                forall|j: int|
                    0 <= j < 11 ==> encoded@[j] == symbol_char(
                        chunk_digit(enc_group(content@, g as int), j) as u8,
                    ),
            decreases 11 - i,
        {
            proof {
                let jj = 11 * g + i;
                lemma_fundamental_div_mod_converse(jj as int, 11, g as int, i as int);
                assert(spec_encode(content@)[jj as int] == encoded@[i as int]);
                assert(spec_encode(content@).take(jj + 1) =~= spec_encode(content@).take(
                    jj as int,
                ).push(encoded@[i as int]));
            }
            writer.push(encoded[i]);
            i = i + 1;
        }
        g = g + 1;
    }

    // Last incomplete group.
    let last_group_length: usize = content.len() % 8;
    proof {
        lemma_fundamental_div_mod(content@.len() as int, 8);
    }
    if last_group_length != 0 {
        let chunk = &content[content.len() - last_group_length..content.len()];
        let encoded = compute_chunk(chunk);
        proof {
            assert(pad8(chunk@) =~= enc_group(content@, full_groups as int));
        }
        let elements_to_write: usize = compute_encoded_size(last_group_length);

        let mut i: usize = 0;
        while i < elements_to_write
            invariant
                i <= elements_to_write,
                writer@ == init + spec_encode(content@).take(11 * full_groups + i),
                full_groups == content@.len() as int / 8,
                last_group_length == content@.len() as int % 8,
                1 <= last_group_length < 8,
                elements_to_write == spec_encoded_size(last_group_length as int),
                elements_to_write <= 11,
                spec_encoded_size(content@.len() as int) == 11 * full_groups
                    + elements_to_write,
                forall|j: int|
                    0 <= j < 11 ==> encoded@[j] == symbol_char(
                        chunk_digit(enc_group(content@, full_groups as int), j) as u8,
                    ),
            decreases elements_to_write - i,
        {
            proof {
                let jj = 11 * full_groups + i;
                lemma_fundamental_div_mod_converse(jj as int, 11, full_groups as int, i as int);
                assert(spec_encode(content@)[jj as int] == encoded@[i as int]);
                assert(spec_encode(content@).take(jj + 1) =~= spec_encode(content@).take(
                    jj as int,
                ).push(encoded@[i as int]));
            }
            writer.push(encoded[i]);
            i = i + 1;
        }
    }

    proof {
        assert(writer@ == init + spec_encode(content@).take(
            spec_encoded_size(content@.len() as int),
        ));
        assert(spec_encode(content@).take(spec_encoded_size(content@.len() as int))
            =~= spec_encode(content@));
    }
    Ok(required_slice_size)
}

/// Encodes a list of bytes into a G60 encoding format.
/// The result is placed into the first symbols of `slice` and the number of
/// written elements is returned; the remainder of `slice` is left untouched.
///
/// # Errors
/// An error will be thrown if `slice` does not have enough space to store the
/// encoded string.
pub fn encode_in_slice(content: &[u8], slice: &mut Vec<u8>) -> (r: Result<usize, EncodingError>)
    requires
        spec_encoded_size(content@.len() as int) <= usize::MAX,
    ensures
        final(slice)@.len() == old(slice)@.len(),
        ({
            let required = spec_encoded_size(content@.len() as int);
            if old(slice)@.len() < required {
                r == Err::<usize, EncodingError>(
                    EncodingError::NotEnoughSpaceInSlice {
                        actual: old(slice)@.len() as usize,
                        required: required as usize,
                    },
                ) && final(slice)@ == old(slice)@
            } else {
                r == Ok::<usize, EncodingError>(required as usize) && final(slice)@ == spec_encode(
                    content@,
                ) + old(slice)@.skip(required)
            }
        }),
{
    let required_slice_size: usize = compute_encoded_size(content.len());

    if slice.len() < required_slice_size {
        return Err(
            EncodingError::NotEnoughSpaceInSlice {
                actual: slice.len(),
                required: required_slice_size,
            },
        );
    }

    let mut encoded: Vec<u8> = Vec::new();
    let count = match encode_in_writer(content, &mut encoded) {
        Ok(c) => c,
        Err(e) => {
            return Err(e);
        },
    };

    let mut i: usize = 0;
    while i < required_slice_size
        invariant
            i <= required_slice_size,
            required_slice_size == spec_encoded_size(content@.len() as int),
            encoded@ == spec_encode(content@),
            encoded@.len() == required_slice_size,
            slice@.len() == old(slice)@.len() >= required_slice_size,
            forall|k: int| 0 <= k < i ==> slice@[k] == encoded@[k],
            forall|k: int| i <= k < slice@.len() ==> slice@[k] == old(slice)@[k],
        decreases required_slice_size - i,
    {
        let v = encoded[i];
        slice.set(i, v);
        i = i + 1;
    }
    proof {
        assert(slice@ =~= spec_encode(content@) + old(slice)@.skip(
            required_slice_size as int,
        ));
    }
    Ok(count)
}

/// Encodes a list of bytes into a G60 encoding format.
pub fn encode(content: &[u8]) -> (r: String)
    requires
        spec_encoded_size(content@.len() as int) <= usize::MAX,
    ensures
        vstd::utf8::encode_utf8(r@) == spec_encode(content@),
        r@ == spec_encode(content@).map_values(|b: u8| b as char),
{
    let mut slice: Vec<u8> = Vec::new();

    let _ = encode_in_writer(content, &mut slice);

    proof {
        assert forall|i: int| 0 <= i < slice@.len() implies slice@[i] < 128 by {
            let b = enc_group(content@, i / 11);
            assert(b.len() == 8);
            lemma_chunk_digit_bounds(b, i % 11);
            crate::constants::lemma_symbol_char_roundtrip(chunk_digit(b, i % 11) as u8);
        }
    }
    ascii_to_string(slice)
}

} // verus!

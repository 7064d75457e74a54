//! The central theorems of the codec: encoding always verifies, decoding
//! inverts encoding, and canonicalization is a projection onto the set of
//! canonical strings.

use vstd::arithmetic::div_mod::{lemma_fundamental_div_mod, lemma_fundamental_div_mod_converse};
use vstd::prelude::*;

use crate::constants::{is_symbol_byte, lemma_symbol_char_roundtrip};
use crate::decoding::{
    dec_group, group_len, group_ok, lemma_num_groups, lemma_verify_ok, num_groups, padded_digit,
    raw_byte, spec_decode, spec_decode_lenient, spec_decoded_size, spec_length_valid,
    spec_verify_ok,
};
use crate::canonical::{kept_bytes, spec_canonicalize, spec_is_canonical};
use crate::encoding::{
    chunk_digit, enc_digits, enc_group, lemma_chunk_digit_bounds, lemma_encoded_size_decompose,
    pad8, padded_byte, spec_encode, spec_encoded_size,
};

verus! {

/// A group of zero bytes encodes to zero digits everywhere.
pub proof fn lemma_chunk_digit_zero(b: Seq<u8>, j: int)
    requires
        b.len() == 8,
        forall|i: int| 0 <= i < 8 ==> b[i] == 0,
        0 <= j < 11,
    ensures
        chunk_digit(b, j) == 0,
{
    reveal(chunk_digit);
    assert(b[0] == 0 && b[1] == 0 && b[2] == 0 && b[3] == 0);
    assert(b[4] == 0 && b[5] == 0 && b[6] == 0 && b[7] == 0);
}

/// Zero padding bytes at the end of a group produce zero digits past the
/// emitted prefix: truncating the encoding of a partial group loses
/// nothing.
pub proof fn lemma_chunk_digit_padding(b: Seq<u8>, n: int, j: int)
    requires
        b.len() == 8,
        1 <= n <= 8,
        forall|i: int| n <= i < 8 ==> b[i] == 0,
        spec_encoded_size(n) <= j < 11,
    ensures
        chunk_digit(b, j) == 0,
{
    reveal(chunk_digit);
    if n <= 1 {
        assert(b[1] == 0);
    }
    if n <= 2 {
        assert(b[2] == 0);
    }
    if n <= 3 {
        assert(b[3] == 0);
    }
    if n <= 4 {
        assert(b[4] == 0);
    }
    if n <= 5 {
        assert(b[5] == 0);
    }
    if n <= 6 {
        assert(b[6] == 0);
    }
    if n <= 7 {
        assert(b[7] == 0);
    }
}

/// The per-remainder output sizes: what a final group of `r` bytes emits,
/// and that it decodes back to `r` bytes.
pub proof fn lemma_remainder_sizes(r: int)
    requires
        0 <= r < 8,
    ensures
        spec_decoded_size(spec_encoded_size(r)) == r,
        spec_length_valid(spec_encoded_size(r)),
        0 <= spec_encoded_size(r) <= 10,
        spec_encoded_size(r) % 11 == spec_encoded_size(r),
{
    assert(spec_encoded_size(0) == 0 && spec_decoded_size(0) == 0);
    assert(spec_encoded_size(1) == 2 && spec_decoded_size(2) == 1);
    assert(spec_encoded_size(2) == 3 && spec_decoded_size(3) == 2);
    assert(spec_encoded_size(3) == 5 && spec_decoded_size(5) == 3);
    assert(spec_encoded_size(4) == 6 && spec_decoded_size(6) == 4);
    assert(spec_encoded_size(5) == 7 && spec_decoded_size(7) == 5);
    assert(spec_encoded_size(6) == 9 && spec_decoded_size(9) == 6);
    assert(spec_encoded_size(7) == 10 && spec_decoded_size(10) == 7);
}

/// The output size grows with the input size.
pub proof fn lemma_encoded_size_monotone(n1: int, n2: int)
    requires
        0 <= n1 <= n2,
    ensures
        spec_encoded_size(n1) <= spec_encoded_size(n2),
{
    lemma_fundamental_div_mod(11 * n1 + 7, 8);
    lemma_fundamental_div_mod(11 * n2 + 7, 8);
}

/// The encoded size of `n` bytes has a structurally possible length, and
/// decoding it yields `n` again.
pub proof fn lemma_encoded_size_valid(n: int)
    requires
        n >= 0,
    ensures
        spec_length_valid(spec_encoded_size(n)),
        spec_decoded_size(spec_encoded_size(n)) == n,
        spec_encoded_size(n) % 11 == spec_encoded_size(n % 8),
        spec_encoded_size(n) / 11 == n / 8,
{
    let q = n / 8;
    let r = n % 8;
    lemma_fundamental_div_mod(n, 8);
    lemma_encoded_size_decompose(n);
    lemma_remainder_sizes(r);
    let er = spec_encoded_size(r);
    let m = spec_encoded_size(n);
    assert(m == 11 * q + er);
    lemma_fundamental_div_mod_converse(m, 11, q, er);
    crate::decoding::lemma_decoded_size_decompose(m);
    assert(spec_decoded_size(m) == 8 * q + spec_decoded_size(er));
}

/// One encoded group decodes back to exactly the bytes it came from: the
/// inverse transform undoes every mixed-radix step of the forward one.
pub proof fn lemma_chunk_roundtrip(b: Seq<u8>)
    requires
        b.len() == 8,
    ensures
        forall|k: int| 0 <= k < 8 ==> raw_byte(enc_digits(b), k) == b[k],
{
    reveal(chunk_digit);
    reveal(raw_byte);
    let d = enc_digits(b);
    assert forall|j: int| 0 <= j < 11 implies d[j] == chunk_digit(b, j) by {
        lemma_chunk_digit_bounds(b, j);
    }

    let ba = b[0] as int;
    let bb = b[1] as int;
    let bc = b[2] as int;
    let bd = b[3] as int;
    let be = b[4] as int;
    let bf = b[5] as int;
    let bg = b[6] as int;
    let bh = b[7] as int;
    let x1 = 14 * ba + bb / 20;
    let x3 = 2 * (bc % 90) + bd / 128;
    let x4 = 9 * (bd % 128) + be / 30;
    let x6 = 2 * (bf % 150) + bg / 144;

    // The first two digits carry `x1`, whose quotient by 14 is the first
    // byte and whose remainder is the top of the second.
    lemma_fundamental_div_mod(x1, 60);
    assert(60 * d[0] + d[1] == x1);
    lemma_fundamental_div_mod_converse(x1, 14, ba, bb / 20);
    assert(raw_byte(d, 0) == ba);

    lemma_fundamental_div_mod_converse(3 * (bb % 20) + bc / 90, 3, bb % 20, bc / 90);
    lemma_fundamental_div_mod(bb, 20);
    assert(raw_byte(d, 1) == bb);

    // The third byte is split across digits 2, 3 and 4 through `x3`.
    lemma_fundamental_div_mod_converse(20 * (x3 % 3) + x4 / 60, 20, x3 % 3, x4 / 60);
    lemma_fundamental_div_mod(x3, 3);
    assert(3 * d[3] + d[4] / 20 == x3);
    lemma_fundamental_div_mod_converse(x3, 2, bc % 90, bd / 128);
    lemma_fundamental_div_mod(bc, 90);
    assert(raw_byte(d, 2) == bc);

    // The fourth byte's high bit went into `x3` and its low bits into `x4`.
    lemma_fundamental_div_mod(x4, 60);
    assert(60 * (d[4] % 20) + d[5] == x4);
    lemma_fundamental_div_mod_converse(x4, 9, bd % 128, be / 30);
    lemma_fundamental_div_mod(bd, 128);
    assert(raw_byte(d, 3) == bd);

    lemma_fundamental_div_mod_converse(2 * (be % 30) + bf / 150, 2, be % 30, bf / 150);
    lemma_fundamental_div_mod(be, 30);
    assert(raw_byte(d, 4) == be);

    // Digits 7 and 8 carry `x6` in a factor-12 split, with the seventh
    // byte's low part riding along.
    lemma_fundamental_div_mod_converse(
        12 * (x6 % 5) + (bg % 144) / 12,
        12,
        x6 % 5,
        (bg % 144) / 12,
    );
    lemma_fundamental_div_mod(x6, 5);
    assert(60 * d[7] + d[8] == 12 * x6 + (bg % 144) / 12);
    assert(12 * x6 == 24 * (bf % 150) + 12 * (bg / 144));
    lemma_fundamental_div_mod_converse(
        60 * d[7] + d[8],
        24,
        bf % 150,
        12 * (bg / 144) + (bg % 144) / 12,
    );
    lemma_fundamental_div_mod(bf, 150);
    assert(raw_byte(d, 5) == bf);

    lemma_fundamental_div_mod_converse(
        5 * ((bg % 144) % 12) + bh / 60,
        5,
        (bg % 144) % 12,
        bh / 60,
    );
    lemma_fundamental_div_mod(bg % 144, 12);
    lemma_fundamental_div_mod(bg, 144);
    assert(raw_byte(d, 6) == bg);

    lemma_fundamental_div_mod(bh, 60);
    assert(raw_byte(d, 7) == bh);
}

/// The digits that decoding reads out of group `g` of an encoded string
/// are exactly the digits that encoding produced for that group: emitted
/// symbols map back through the alphabet, and truncated ones were zero.
pub proof fn lemma_encode_group_digits(bytes: Seq<u8>, g: int)
    requires
        0 <= g,
    ensures
        dec_group(spec_encode(bytes), g) == enc_digits(enc_group(bytes, g)),
{
    let s = spec_encode(bytes);
    let n = bytes.len() as int;
    let m = spec_encoded_size(n);
    let eg = enc_group(bytes, g);
    assert forall|i: int| 0 <= i < 11 implies dec_group(s, g)[i] == enc_digits(eg)[i] by {
        let j = 11 * g + i;
        lemma_chunk_digit_bounds(eg, i);
        if j < m {
            lemma_fundamental_div_mod_converse(j, 11, g, i);
            assert(s[j] == crate::constants::symbol_char(chunk_digit(eg, i) as u8));
            lemma_symbol_char_roundtrip(chunk_digit(eg, i) as u8);
            assert(padded_digit(s, j) == chunk_digit(eg, i) as u8);
        } else {
            assert(padded_digit(s, j) == 0);
            if 8 * (g + 1) <= n {
                lemma_encoded_size_monotone(8 * (g + 1), n);
                lemma_fundamental_div_mod_converse(11 * (g + 1), 8, 11 * (g + 1), 7);
                assert(spec_encoded_size(8 * (g + 1)) == 11 * (g + 1)) by {
                    lemma_fundamental_div_mod_converse(
                        11 * (8 * (g + 1)) + 7,
                        8,
                        11 * (g + 1),
                        7,
                    );
                }
                assert(false);
            } else if 8 * g >= n {
                assert(forall|ii: int| 0 <= ii < 8 ==> eg[ii] == 0);
                lemma_chunk_digit_zero(eg, i);
            } else {
                let r = n - 8 * g;
                lemma_fundamental_div_mod_converse(n, 8, g, r);
                lemma_encoded_size_decompose(n);
                assert(m == 11 * g + spec_encoded_size(r));
                lemma_chunk_digit_padding(eg, r, i);
            }
        }
    }
    assert(dec_group(s, g) =~= enc_digits(eg));
}

/// The output of the encoder is a valid, canonical G60 string, and
/// decoding it restores the input bytes exactly.
pub proof fn lemma_encode_verifies(bytes: Seq<u8>)
    ensures
        spec_encode(bytes).len() == spec_encoded_size(bytes.len() as int),
        spec_verify_ok(spec_encode(bytes)),
        spec_decode(spec_encode(bytes)) == bytes,
{
    let s = spec_encode(bytes);
    let n = bytes.len() as int;
    let m = spec_encoded_size(n);
    lemma_encoded_size_valid(n);
    lemma_num_groups(m);
    assert(spec_length_valid(m));

    assert forall|g: int| 0 <= g < num_groups(m) implies group_ok(s, g) by {
        lemma_encode_group_digits(bytes, g);
        lemma_chunk_roundtrip(enc_group(bytes, g));
        let eg = enc_group(bytes, g);

        assert forall|ii: int|
            11 * g <= ii < 11 * g + group_len(m, g) implies is_symbol_byte(s[ii]) by {
            lemma_fundamental_div_mod(ii, 11);
            lemma_chunk_digit_bounds(enc_group(bytes, ii / 11), ii % 11);
            lemma_symbol_char_roundtrip(chunk_digit(enc_group(bytes, ii / 11), ii % 11) as u8);
        }
        assert(crate::decoding::group_chars_valid(s, g));

        assert forall|k: int| 0 <= k < 8 implies raw_byte(dec_group(s, g), k) <= 255 by {
            assert(raw_byte(enc_digits(eg), k) == eg[k]);
        }
        assert(crate::decoding::group_decodable(s, g));

        assert forall|k: int|
            spec_decoded_size(group_len(m, g)) <= k < 8 implies raw_byte(dec_group(s, g), k)
            == 0 by {
            if 11 * (g + 1) <= m {
                assert(spec_decoded_size(11) == 8);
                assert(false);
            } else {
                let q = n / 8;
                let r = n % 8;
                lemma_fundamental_div_mod(n, 8);
                lemma_encoded_size_decompose(n);
                lemma_remainder_sizes(r);
                if r == 0 {
                    assert(m == 11 * q);
                    assert(m % 11 == 0) by {
                        lemma_fundamental_div_mod_converse(m, 11, q, 0);
                    }
                    assert(g < num_groups(m) == m / 11) by {
                        lemma_num_groups(m);
                    }
                    assert(11 * (g + 1) <= m) by {
                        lemma_fundamental_div_mod_converse(m, 11, q, 0);
                    }
                    assert(false);
                } else {
                    assert(m == 11 * q + spec_encoded_size(r));
                    assert(g <= q) by {
                        lemma_num_groups(m);
                    }
                    assert(g == q);
                    assert(group_len(m, g) == spec_encoded_size(r));
                    assert(spec_decoded_size(group_len(m, g)) == r);
                    assert(raw_byte(enc_digits(eg), k) == eg[k]);
                    assert(eg[k] == 0);
                }
            }
        }
        assert(crate::decoding::group_canonical(s, g));
    }
    lemma_verify_ok(s);

    assert(spec_decode(s).len() == n);
    assert forall|i: int| 0 <= i < n implies spec_decode(s)[i] == bytes[i] by {
        lemma_fundamental_div_mod(i, 8);
        let g = i / 8;
        let k = i % 8;
        lemma_encode_group_digits(bytes, g);
        lemma_chunk_roundtrip(enc_group(bytes, g));
        assert(raw_byte(dec_group(s, g), k) == enc_group(bytes, g)[k]);
        assert(enc_group(bytes, g)[k] == bytes[i]);
    }
    assert(spec_decode(s) =~= bytes);
}

/// A string that verifies is well-formed: every byte is an alphabet
/// character and the length is structurally possible.
pub proof fn lemma_verify_ok_wf(s: Seq<u8>)
    requires
        spec_verify_ok(s),
    ensures
        spec_length_valid(s.len() as int),
        crate::decoding::spec_char_valid(s),
{
    let n = s.len() as int;
    lemma_verify_ok(s);
    assert forall|i: int| 0 <= i < n implies is_symbol_byte(s[i]) by {
        lemma_fundamental_div_mod(i, 11);
        let g = i / 11;
        lemma_num_groups(n);
        lemma_fundamental_div_mod(n, 11);
        assert(0 <= g < num_groups(n));
        assert(group_ok(s, g));
        assert(11 * g <= i < 11 * g + group_len(n, g));
    }
}

/// The decoded size grows with the symbol count.
pub proof fn lemma_decoded_size_monotone(m1: int, m2: int)
    requires
        0 <= m1 <= m2,
    ensures
        spec_decoded_size(m1) <= spec_decoded_size(m2),
{
    vstd::arithmetic::div_mod::lemma_div_is_ordered(8 * m1, 8 * m2, 11);
}

/// Encoding the decoded size of a structurally possible length gives that
/// length back.
pub proof fn lemma_size_inverse(m: int)
    requires
        m >= 0,
        spec_length_valid(m),
    ensures
        spec_encoded_size(spec_decoded_size(m)) == m,
        11 * spec_decoded_size(m) <= 8 * m,
{
    let q = m / 11;
    let r = m % 11;
    lemma_fundamental_div_mod(m, 11);
    crate::decoding::lemma_decoded_size_decompose(m);
    let dr = spec_decoded_size(r);
    assert(spec_decoded_size(0) == 0 && spec_encoded_size(0) == 0);
    assert(spec_decoded_size(2) == 1 && spec_encoded_size(1) == 2);
    assert(spec_decoded_size(3) == 2 && spec_encoded_size(2) == 3);
    assert(spec_decoded_size(5) == 3 && spec_encoded_size(3) == 5);
    assert(spec_decoded_size(6) == 4 && spec_encoded_size(4) == 6);
    assert(spec_decoded_size(7) == 5 && spec_encoded_size(5) == 7);
    assert(spec_decoded_size(9) == 6 && spec_encoded_size(6) == 9);
    assert(spec_decoded_size(10) == 7 && spec_encoded_size(7) == 10);
    assert(spec_decoded_size(m) == 8 * q + dr);
    lemma_encoded_size_decompose(spec_decoded_size(m));
    lemma_fundamental_div_mod_converse(spec_decoded_size(m), 8, q, dr);
    lemma_fundamental_div_mod(8 * m, 11);
}

/// Whether `a` comes strictly before `b` in lexicographic order: the two
/// agree up to some position where `a` holds the smaller byte.
pub open spec fn spec_lex_lt(a: Seq<u8>, b: Seq<u8>) -> bool {
    exists|i: int|
        0 <= i < a.len() && i < b.len() && a[i] < b[i] && (forall|j: int|
            0 <= j < i ==> a[j] == b[j])
}

/// The latest digit position at which two groups that first differ in byte
/// `k` can differ for the first time.
spec fn deciding_digit_bound(k: int) -> int {
    if k == 0 {
        1
    } else if k == 1 {
        2
    } else if k == 2 {
        4
    } else if k == 3 {
        5
    } else if k == 4 {
        6
    } else if k == 5 {
        8
    } else if k == 6 {
        9
    } else {
        10
    }
}

/// Digits 0 and 1 decide when the carriers of the first byte differ.
proof fn lemma_chunk_monotone_top(b1: Seq<u8>, b2: Seq<u8>) -> (p: int)
    requires
        b1.len() == 8,
        b2.len() == 8,
        14 * b1[0] + b1[1] / 20 < 14 * b2[0] + b2[1] / 20,
    ensures
        0 <= p <= 1,
        chunk_digit(b1, p) < chunk_digit(b2, p),
        forall|q: int| 0 <= q < p ==> chunk_digit(b1, q) == chunk_digit(b2, q),
{
    reveal(chunk_digit);
    let x1a = 14 * b1[0] + b1[1] / 20;
    let x1b = 14 * b2[0] + b2[1] / 20;
    vstd::arithmetic::div_mod::lemma_div_is_ordered(x1a, x1b, 60);
    if x1a / 60 < x1b / 60 {
        0
    } else {
        lemma_fundamental_div_mod(x1a, 60);
        lemma_fundamental_div_mod(x1b, 60);
        assert(chunk_digit(b1, 0) == chunk_digit(b2, 0));
        assert(chunk_digit(b1, 1) < chunk_digit(b2, 1));
        1
    }
}

/// Digits 3 and 4 decide when the carriers of the third byte differ.
proof fn lemma_chunk_monotone_x3(b1: Seq<u8>, b2: Seq<u8>) -> (p: int)
    requires
        b1.len() == 8,
        b2.len() == 8,
        b1[0] == b2[0],
        b1[1] == b2[1],
        b1[2] / 90 == b2[2] / 90,
        2 * (b1[2] % 90) + b1[3] / 128 < 2 * (b2[2] % 90) + b2[3] / 128,
    ensures
        3 <= p <= 4,
        chunk_digit(b1, p) < chunk_digit(b2, p),
        forall|q: int| 0 <= q < p ==> chunk_digit(b1, q) == chunk_digit(b2, q),
{
    reveal(chunk_digit);
    let x3a = 2 * (b1[2] % 90) + b1[3] / 128;
    let x3b = 2 * (b2[2] % 90) + b2[3] / 128;
    assert(chunk_digit(b1, 0) == chunk_digit(b2, 0));
    assert(chunk_digit(b1, 1) == chunk_digit(b2, 1));
    assert(chunk_digit(b1, 2) == chunk_digit(b2, 2));
    vstd::arithmetic::div_mod::lemma_div_is_ordered(x3a, x3b, 3);
    if x3a / 3 < x3b / 3 {
        assert(chunk_digit(b1, 3) < chunk_digit(b2, 3));
        3
    } else {
        lemma_fundamental_div_mod(x3a, 3);
        lemma_fundamental_div_mod(x3b, 3);
        assert(x3a % 3 < x3b % 3);
        assert(chunk_digit(b1, 3) == chunk_digit(b2, 3));
        assert(9 * (b1[3] % 128) + b1[4] / 30 <= 1151);
        assert(chunk_digit(b1, 4) < chunk_digit(b2, 4));
        4
    }
}

/// Digits 4 and 5 decide when the carriers of the fourth byte differ.
proof fn lemma_chunk_monotone_x4(b1: Seq<u8>, b2: Seq<u8>) -> (p: int)
    requires
        b1.len() == 8,
        b2.len() == 8,
        b1[0] == b2[0],
        b1[1] == b2[1],
        b1[2] == b2[2],
        b1[3] / 128 == b2[3] / 128,
        9 * (b1[3] % 128) + b1[4] / 30 < 9 * (b2[3] % 128) + b2[4] / 30,
    ensures
        4 <= p <= 5,
        chunk_digit(b1, p) < chunk_digit(b2, p),
        forall|q: int| 0 <= q < p ==> chunk_digit(b1, q) == chunk_digit(b2, q),
{
    reveal(chunk_digit);
    let x4a = 9 * (b1[3] % 128) + b1[4] / 30;
    let x4b = 9 * (b2[3] % 128) + b2[4] / 30;
    assert(chunk_digit(b1, 0) == chunk_digit(b2, 0));
    assert(chunk_digit(b1, 1) == chunk_digit(b2, 1));
    assert(chunk_digit(b1, 2) == chunk_digit(b2, 2));
    assert(chunk_digit(b1, 3) == chunk_digit(b2, 3));
    vstd::arithmetic::div_mod::lemma_div_is_ordered(x4a, x4b, 60);
    if x4a / 60 < x4b / 60 {
        assert(chunk_digit(b1, 4) < chunk_digit(b2, 4));
        4
    } else {
        lemma_fundamental_div_mod(x4a, 60);
        lemma_fundamental_div_mod(x4b, 60);
        assert(chunk_digit(b1, 4) == chunk_digit(b2, 4));
        assert(chunk_digit(b1, 5) < chunk_digit(b2, 5));
        5
    }
}

/// Digits 7 and 8 decide when the carriers of the sixth byte differ.
proof fn lemma_chunk_monotone_x6(b1: Seq<u8>, b2: Seq<u8>) -> (p: int)
    requires
        b1.len() == 8,
        b2.len() == 8,
        b1[0] == b2[0],
        b1[1] == b2[1],
        b1[2] == b2[2],
        b1[3] == b2[3],
        b1[4] == b2[4],
        b1[5] / 150 == b2[5] / 150,
        2 * (b1[5] % 150) + b1[6] / 144 < 2 * (b2[5] % 150) + b2[6] / 144,
    ensures
        7 <= p <= 8,
        chunk_digit(b1, p) < chunk_digit(b2, p),
        forall|q: int| 0 <= q < p ==> chunk_digit(b1, q) == chunk_digit(b2, q),
{
    reveal(chunk_digit);
    let x6a = 2 * (b1[5] % 150) + b1[6] / 144;
    let x6b = 2 * (b2[5] % 150) + b2[6] / 144;
    assert(chunk_digit(b1, 0) == chunk_digit(b2, 0));
    assert(chunk_digit(b1, 1) == chunk_digit(b2, 1));
    assert(chunk_digit(b1, 2) == chunk_digit(b2, 2));
    assert(chunk_digit(b1, 3) == chunk_digit(b2, 3));
    assert(chunk_digit(b1, 4) == chunk_digit(b2, 4));
    assert(chunk_digit(b1, 5) == chunk_digit(b2, 5));
    assert(chunk_digit(b1, 6) == chunk_digit(b2, 6));
    vstd::arithmetic::div_mod::lemma_div_is_ordered(x6a, x6b, 5);
    if x6a / 5 < x6b / 5 {
        assert(chunk_digit(b1, 7) < chunk_digit(b2, 7));
        7
    } else {
        lemma_fundamental_div_mod(x6a, 5);
        lemma_fundamental_div_mod(x6b, 5);
        assert(chunk_digit(b1, 7) == chunk_digit(b2, 7));
        assert((b1[6] % 144) / 12 <= 11);
        assert(chunk_digit(b1, 8) < chunk_digit(b2, 8));
        8
    }
}

/// The first digit at which the encodings of two groups differ, when the
/// groups first differ in byte `k`: the encoding preserves the order, and
/// the deciding digit always lies within the emitted prefix.
proof fn lemma_chunk_monotone(b1: Seq<u8>, b2: Seq<u8>, k: int) -> (p: int)
    requires
        b1.len() == 8,
        b2.len() == 8,
        0 <= k < 8,
        forall|j: int| 0 <= j < k ==> b1[j] == b2[j],
        b1[k] < b2[k],
    ensures
        0 <= p <= deciding_digit_bound(k),
        chunk_digit(b1, p) < chunk_digit(b2, p),
        forall|q: int| 0 <= q < p ==> chunk_digit(b1, q) == chunk_digit(b2, q),
{
    reveal(chunk_digit);
    if k == 0 {
        assert(b1[1] / 20 <= 12);
        lemma_chunk_monotone_top(b1, b2)
    } else if k == 1 {
        vstd::arithmetic::div_mod::lemma_div_is_ordered(b1[1] as int, b2[1] as int, 20);
        if b1[1] / 20 < b2[1] / 20 {
            lemma_chunk_monotone_top(b1, b2)
        } else {
            lemma_fundamental_div_mod(b1[1] as int, 20);
            lemma_fundamental_div_mod(b2[1] as int, 20);
            assert(b1[1] % 20 < b2[1] % 20);
            assert(chunk_digit(b1, 0) == chunk_digit(b2, 0));
            assert(chunk_digit(b1, 1) == chunk_digit(b2, 1));
            assert(b1[2] / 90 <= 2);
            assert(chunk_digit(b1, 2) < chunk_digit(b2, 2));
            2
        }
    } else if k == 2 {
        vstd::arithmetic::div_mod::lemma_div_is_ordered(b1[2] as int, b2[2] as int, 90);
        if b1[2] / 90 < b2[2] / 90 {
            assert(chunk_digit(b1, 0) == chunk_digit(b2, 0));
            assert(chunk_digit(b1, 1) == chunk_digit(b2, 1));
            assert(chunk_digit(b1, 2) < chunk_digit(b2, 2));
            2
        } else {
            lemma_fundamental_div_mod(b1[2] as int, 90);
            lemma_fundamental_div_mod(b2[2] as int, 90);
            assert(b1[2] % 90 < b2[2] % 90);
            assert(b1[3] / 128 <= 1);
            lemma_chunk_monotone_x3(b1, b2)
        }
    } else if k == 3 {
        vstd::arithmetic::div_mod::lemma_div_is_ordered(b1[3] as int, b2[3] as int, 128);
        if b1[3] / 128 < b2[3] / 128 {
            lemma_chunk_monotone_x3(b1, b2)
        } else {
            lemma_fundamental_div_mod(b1[3] as int, 128);
            lemma_fundamental_div_mod(b2[3] as int, 128);
            assert(b1[3] % 128 < b2[3] % 128);
            assert(b1[4] / 30 <= 8);
            lemma_chunk_monotone_x4(b1, b2)
        }
    } else if k == 4 {
        vstd::arithmetic::div_mod::lemma_div_is_ordered(b1[4] as int, b2[4] as int, 30);
        if b1[4] / 30 < b2[4] / 30 {
            lemma_chunk_monotone_x4(b1, b2)
        } else {
            lemma_fundamental_div_mod(b1[4] as int, 30);
            lemma_fundamental_div_mod(b2[4] as int, 30);
            assert(b1[4] % 30 < b2[4] % 30);
            assert(chunk_digit(b1, 0) == chunk_digit(b2, 0));
            assert(chunk_digit(b1, 1) == chunk_digit(b2, 1));
            assert(chunk_digit(b1, 2) == chunk_digit(b2, 2));
            assert(chunk_digit(b1, 3) == chunk_digit(b2, 3));
            assert(chunk_digit(b1, 4) == chunk_digit(b2, 4));
            assert(chunk_digit(b1, 5) == chunk_digit(b2, 5));
            assert(b1[5] / 150 <= 1);
            assert(chunk_digit(b1, 6) < chunk_digit(b2, 6));
            6
        }
    } else if k == 5 {
        vstd::arithmetic::div_mod::lemma_div_is_ordered(b1[5] as int, b2[5] as int, 150);
        if b1[5] / 150 < b2[5] / 150 {
            assert(chunk_digit(b1, 0) == chunk_digit(b2, 0));
            assert(chunk_digit(b1, 1) == chunk_digit(b2, 1));
            assert(chunk_digit(b1, 2) == chunk_digit(b2, 2));
            assert(chunk_digit(b1, 3) == chunk_digit(b2, 3));
            assert(chunk_digit(b1, 4) == chunk_digit(b2, 4));
            assert(chunk_digit(b1, 5) == chunk_digit(b2, 5));
            assert(chunk_digit(b1, 6) < chunk_digit(b2, 6));
            6
        } else {
            lemma_fundamental_div_mod(b1[5] as int, 150);
            lemma_fundamental_div_mod(b2[5] as int, 150);
            assert(b1[5] % 150 < b2[5] % 150);
            assert(b1[6] / 144 <= 1);
            lemma_chunk_monotone_x6(b1, b2)
        }
    } else if k == 6 {
        vstd::arithmetic::div_mod::lemma_div_is_ordered(b1[6] as int, b2[6] as int, 144);
        if b1[6] / 144 < b2[6] / 144 {
            lemma_chunk_monotone_x6(b1, b2)
        } else {
            lemma_fundamental_div_mod(b1[6] as int, 144);
            lemma_fundamental_div_mod(b2[6] as int, 144);
            assert(b1[6] % 144 < b2[6] % 144);
            assert(chunk_digit(b1, 0) == chunk_digit(b2, 0));
            assert(chunk_digit(b1, 1) == chunk_digit(b2, 1));
            assert(chunk_digit(b1, 2) == chunk_digit(b2, 2));
            assert(chunk_digit(b1, 3) == chunk_digit(b2, 3));
            assert(chunk_digit(b1, 4) == chunk_digit(b2, 4));
            assert(chunk_digit(b1, 5) == chunk_digit(b2, 5));
            assert(chunk_digit(b1, 6) == chunk_digit(b2, 6));
            assert(chunk_digit(b1, 7) == chunk_digit(b2, 7));
            vstd::arithmetic::div_mod::lemma_div_is_ordered(
                b1[6] as int % 144,
                b2[6] as int % 144,
                12,
            );
            if (b1[6] % 144) / 12 < (b2[6] % 144) / 12 {
                assert(chunk_digit(b1, 8) < chunk_digit(b2, 8));
                8
            } else {
                lemma_fundamental_div_mod(b1[6] as int % 144, 12);
                lemma_fundamental_div_mod(b2[6] as int % 144, 12);
                assert((b1[6] % 144) % 12 < (b2[6] % 144) % 12);
                assert(chunk_digit(b1, 8) == chunk_digit(b2, 8));
                assert(b1[7] / 60 <= 4);
                assert(chunk_digit(b1, 9) < chunk_digit(b2, 9));
                9
            }
        }
    } else {
        vstd::arithmetic::div_mod::lemma_div_is_ordered(b1[7] as int, b2[7] as int, 60);
        assert(chunk_digit(b1, 0) == chunk_digit(b2, 0));
        assert(chunk_digit(b1, 1) == chunk_digit(b2, 1));
        assert(chunk_digit(b1, 2) == chunk_digit(b2, 2));
        assert(chunk_digit(b1, 3) == chunk_digit(b2, 3));
        assert(chunk_digit(b1, 4) == chunk_digit(b2, 4));
        assert(chunk_digit(b1, 5) == chunk_digit(b2, 5));
        assert(chunk_digit(b1, 6) == chunk_digit(b2, 6));
        assert(chunk_digit(b1, 7) == chunk_digit(b2, 7));
        assert(chunk_digit(b1, 8) == chunk_digit(b2, 8));
        if b1[7] / 60 < b2[7] / 60 {
            assert(chunk_digit(b1, 9) < chunk_digit(b2, 9));
            9
        } else {
            lemma_fundamental_div_mod(b1[7] as int, 60);
            lemma_fundamental_div_mod(b2[7] as int, 60);
            assert(chunk_digit(b1, 9) == chunk_digit(b2, 9));
            assert(chunk_digit(b1, 10) < chunk_digit(b2, 10));
            10
        }
    }
}

/// Encoding preserves lexicographic order on byte sequences of equal
/// length: whatever the two sequences hold after their first differing
/// byte, the one with the smaller byte there encodes to the
/// lexicographically smaller string.
pub proof fn lemma_encode_monotone(x: Seq<u8>, y: Seq<u8>)
    requires
        x.len() == y.len(),
        spec_lex_lt(x, y),
    ensures
        spec_lex_lt(spec_encode(x), spec_encode(y)),
{
    let n = x.len() as int;
    let i = choose|i: int|
        0 <= i < x.len() && i < y.len() && x[i] < y[i] && (forall|j: int|
            0 <= j < i ==> x[j] == y[j]);
    lemma_fundamental_div_mod(i, 8);
    let g = i / 8;
    let kb = i % 8;
    let e1 = enc_group(x, g);
    let e2 = enc_group(y, g);
    assert forall|j: int| 0 <= j < kb implies e1[j] == e2[j] by {
        assert(8 * g + j < i);
        assert(x[8 * g + j] == y[8 * g + j]);
    }
    assert(e1[kb] == x[i] && e2[kb] == y[i]);
    let p = lemma_chunk_monotone(e1, e2, kb);
    let jj = 11 * g + p;
    let m = spec_encoded_size(n);

    assert(jj < m) by {
        if 8 * (g + 1) <= n {
            lemma_encoded_size_monotone(8 * (g + 1), n);
            lemma_fundamental_div_mod_converse(11 * (8 * (g + 1)) + 7, 8, 11 * (g + 1), 7);
            assert(spec_encoded_size(8 * (g + 1)) == 11 * (g + 1));
        } else {
            let r = n - 8 * g;
            assert(kb < r);
            lemma_fundamental_div_mod_converse(n, 8, g, r);
            lemma_encoded_size_decompose(n);
            assert(m == 11 * g + spec_encoded_size(r));
            assert(spec_encoded_size(1) == 2 && spec_encoded_size(2) == 3);
            assert(spec_encoded_size(3) == 5 && spec_encoded_size(4) == 6);
            assert(spec_encoded_size(5) == 7 && spec_encoded_size(6) == 9);
            assert(spec_encoded_size(7) == 10);
            assert(p < spec_encoded_size(r));
        }
    }

    assert forall|q: int| 0 <= q < jj implies spec_encode(x)[q] == spec_encode(y)[q] by {
        lemma_fundamental_div_mod(q, 11);
        let gq = q / 11;
        let pq = q % 11;
        if gq < g {
            assert forall|t: int|
                #![trigger padded_byte(x, 8 * gq + t)]
                0 <= t < 8 implies padded_byte(x, 8 * gq + t) == padded_byte(y, 8 * gq + t) by {
                assert(8 * gq + t < 8 * g <= i);
            }
            assert(enc_group(x, gq) =~= enc_group(y, gq));
        } else {
            assert(gq == g && pq < p);
            assert(chunk_digit(enc_group(x, g), pq) == chunk_digit(enc_group(y, g), pq));
        }
    }

    lemma_chunk_digit_bounds(e1, p);
    lemma_chunk_digit_bounds(e2, p);
    crate::constants::lemma_symbol_char_monotone(
        chunk_digit(e1, p) as u8,
        chunk_digit(e2, p) as u8,
    );
    lemma_fundamental_div_mod_converse(jj, 11, g, p);
    assert(spec_encode(x)[jj] < spec_encode(y)[jj]);
    assert(0 <= jj < spec_encode(x).len() && jj < spec_encode(y).len() && spec_encode(x)[jj]
        < spec_encode(y)[jj] && (forall|j: int|
        0 <= j < jj ==> spec_encode(x)[j] == spec_encode(y)[j]));
}

/// The length of any group of a structurally possible string is itself
/// structurally possible, and its size round-trips.
pub proof fn lemma_group_len_valid(n: int, g: int)
    requires
        n >= 0,
        spec_length_valid(n),
        0 <= g < num_groups(n),
    ensures
        1 <= group_len(n, g) <= 11,
        spec_length_valid(group_len(n, g)),
        spec_encoded_size(spec_decoded_size(group_len(n, g))) == group_len(n, g),
        1 <= spec_decoded_size(group_len(n, g)) <= 8,
        11 * g + group_len(n, g) <= n,
        group_len(n, g) < 11 ==> 11 * g + group_len(n, g) == n,
{
    let q = n / 11;
    let r = n % 11;
    lemma_fundamental_div_mod(n, 11);
    lemma_num_groups(n);
    if 11 * (g + 1) <= n {
        assert(group_len(n, g) == 11);
        assert(spec_decoded_size(11) == 8 && spec_encoded_size(8) == 11);
    } else {
        if r == 0 {
            assert(g < q);
            assert(false);
        }
        assert(g == q);
        assert(group_len(n, g) == r);
        assert(spec_decoded_size(2) == 1 && spec_encoded_size(1) == 2);
        assert(spec_decoded_size(3) == 2 && spec_encoded_size(2) == 3);
        assert(spec_decoded_size(5) == 3 && spec_encoded_size(3) == 5);
        assert(spec_decoded_size(6) == 4 && spec_encoded_size(4) == 6);
        assert(spec_decoded_size(7) == 5 && spec_encoded_size(5) == 7);
        assert(spec_decoded_size(9) == 6 && spec_encoded_size(6) == 9);
        assert(spec_decoded_size(10) == 7 && spec_encoded_size(7) == 10);
    }
}

/// The digits that decoding reads out of group `g` of a canonicalized
/// string are the digits of the re-encoding of what the group decoded to.
proof fn lemma_canonical_group_digits(s: Seq<u8>, g: int)
    requires
        spec_length_valid(s.len() as int),
        crate::decoding::spec_char_valid(s),
        0 <= g < num_groups(s.len() as int),
    ensures
        dec_group(spec_canonicalize(s), g) == enc_digits(pad8(kept_bytes(s, g))),
{
    let n = s.len() as int;
    let c = spec_canonicalize(s);
    let kg = kept_bytes(s, g);
    let pk = pad8(kg);
    lemma_group_len_valid(n, g);
    let glen = group_len(n, g);
    let e = spec_decoded_size(glen);
    assert forall|i: int| 0 <= i < 11 implies dec_group(c, g)[i] == enc_digits(pk)[i] by {
        let j = 11 * g + i;
        lemma_chunk_digit_bounds(pk, i);
        if j < n {
            lemma_fundamental_div_mod_converse(j, 11, g, i);
            assert(c[j] == crate::constants::symbol_char(chunk_digit(pk, i) as u8));
            lemma_symbol_char_roundtrip(chunk_digit(pk, i) as u8);
            assert(padded_digit(c, j) == chunk_digit(pk, i) as u8);
        } else {
            assert(padded_digit(c, j) == 0);
            assert(i >= glen);
            assert(forall|k: int| e <= k < 8 ==> pk[k] == 0);
            lemma_chunk_digit_padding(pk, e, i);
        }
    }
    assert(dec_group(c, g) =~= enc_digits(pk));
}

/// Every symbol of a canonicalized string is an alphabet character.
proof fn lemma_canonical_symbol(s: Seq<u8>, i: int)
    requires
        0 <= i < s.len(),
    ensures
        is_symbol_byte(spec_canonicalize(s)[i]),
{
    lemma_fundamental_div_mod(i, 11);
    lemma_chunk_digit_bounds(pad8(kept_bytes(s, i / 11)), i % 11);
    lemma_symbol_char_roundtrip(chunk_digit(pad8(kept_bytes(s, i / 11)), i % 11) as u8);
}

/// Each group of a canonicalized string passes every check and decodes to
/// the same bytes as the group it replaced.
proof fn lemma_canonical_group_ok(s: Seq<u8>, g: int)
    requires
        spec_length_valid(s.len() as int),
        crate::decoding::spec_char_valid(s),
        0 <= g < num_groups(s.len() as int),
    ensures
        group_ok(spec_canonicalize(s), g),
        kept_bytes(spec_canonicalize(s), g) == kept_bytes(s, g),
        forall|k: int|
            0 <= k < 8 ==> raw_byte(dec_group(spec_canonicalize(s), g), k) == pad8(
                kept_bytes(s, g),
            )[k],
{
    let n = s.len() as int;
    let c = spec_canonicalize(s);
    lemma_canonical_group_digits(s, g);
    let kg = kept_bytes(s, g);
    let pk = pad8(kg);
    lemma_chunk_roundtrip(pk);
    lemma_group_len_valid(n, g);
    let glen = group_len(n, g);
    let e = spec_decoded_size(glen);

    assert forall|ii: int| 11 * g <= ii < 11 * g + glen implies is_symbol_byte(c[ii]) by {
        lemma_canonical_symbol(s, ii);
    }
    assert(crate::decoding::group_chars_valid(c, g));

    assert forall|k: int|
        #![trigger raw_byte(dec_group(c, g), k)]
        0 <= k < 8 implies raw_byte(dec_group(c, g), k) == pk[k] by {
        assert(raw_byte(enc_digits(pk), k) == pk[k]);
    }
    assert(crate::decoding::group_decodable(c, g));
    assert(crate::decoding::group_canonical(c, g)) by {
        assert(forall|k: int| e <= k < 8 ==> pk[k] == 0);
    }
    assert(kept_bytes(c, g) =~= kg);
}

/// Canonicalizing a canonicalized string changes no symbol.
proof fn lemma_canonical_fixed_index(s: Seq<u8>, j: int)
    requires
        spec_length_valid(s.len() as int),
        crate::decoding::spec_char_valid(s),
        0 <= j < s.len(),
    ensures
        spec_canonicalize(spec_canonicalize(s))[j] == spec_canonicalize(s)[j],
{
    let n = s.len() as int;
    let c = spec_canonicalize(s);
    lemma_fundamental_div_mod(j, 11);
    let g = j / 11;
    assert(0 <= g < num_groups(n)) by {
        lemma_num_groups(n);
        lemma_fundamental_div_mod(n, 11);
    }
    lemma_canonical_group_ok(s, g);
    assert(spec_canonicalize(c)[j] == crate::constants::symbol_char(
        chunk_digit(pad8(kept_bytes(c, g)), j % 11) as u8,
    ));
}

/// Lenient decoding reads the same byte out of a canonicalized string.
proof fn lemma_canonical_lenient_index(s: Seq<u8>, i: int)
    requires
        spec_length_valid(s.len() as int),
        crate::decoding::spec_char_valid(s),
        0 <= i < spec_decoded_size(s.len() as int),
    ensures
        spec_decode_lenient(spec_canonicalize(s))[i] == spec_decode_lenient(s)[i],
        spec_decode(spec_canonicalize(s))[i] == spec_decode_lenient(s)[i],
{
    let n = s.len() as int;
    let c = spec_canonicalize(s);
    lemma_fundamental_div_mod(i, 8);
    let g = i / 8;
    let k = i % 8;
    lemma_decoded_size_groups(n, i);
    lemma_canonical_group_ok(s, g);
    let kg = kept_bytes(s, g);
    let pk = pad8(kg);
    assert(raw_byte(dec_group(c, g), k) == pk[k]);
    lemma_group_len_valid(n, g);
    assert(k < spec_decoded_size(group_len(n, g)));
    assert(pk[k] == kg[k]);
}

/// Canonicalization is a projection onto the canonical strings: its output
/// is well-formed, passes verification, is its own canonical form, and
/// decodes (canonicality ignored) to the same bytes as the input.
pub proof fn lemma_canonicalize_projection(s: Seq<u8>)
    requires
        spec_length_valid(s.len() as int),
        crate::decoding::spec_char_valid(s),
    ensures
        spec_canonicalize(s).len() == s.len(),
        spec_is_canonical(spec_canonicalize(s)),
        spec_verify_ok(spec_canonicalize(s)),
        spec_decode_lenient(spec_canonicalize(s)) == spec_decode_lenient(s),
        spec_decode(spec_canonicalize(s)) == spec_decode_lenient(s),
{
    let n = s.len() as int;
    let c = spec_canonicalize(s);

    assert forall|i: int| 0 <= i < n implies is_symbol_byte(c[i]) by {
        lemma_canonical_symbol(s, i);
    }
    assert(crate::decoding::spec_char_valid(c));

    assert forall|g: int| 0 <= g < num_groups(n) implies group_ok(c, g) by {
        lemma_canonical_group_ok(s, g);
    }
    lemma_verify_ok(c);
    assert(spec_verify_ok(c));

    assert forall|j: int| 0 <= j < n implies spec_canonicalize(c)[j] == c[j] by {
        lemma_canonical_fixed_index(s, j);
    }
    assert(spec_canonicalize(c) =~= c);
    assert(spec_is_canonical(c));

    assert forall|i: int|
        0 <= i < spec_decoded_size(n) implies spec_decode_lenient(c)[i] == spec_decode_lenient(
        s,
    )[i] && spec_decode(c)[i] == spec_decode_lenient(s)[i] by {
        lemma_canonical_lenient_index(s, i);
    }
    assert(spec_decode_lenient(c) =~= spec_decode_lenient(s));
    assert(spec_decode(c) =~= spec_decode_lenient(s));
}

/// A byte position of the decoded output lies in a real group, and within
/// that group's meaningful prefix.
proof fn lemma_decoded_size_groups(n: int, i: int)
    requires
        n >= 0,
        spec_length_valid(n),
        0 <= i < spec_decoded_size(n),
    ensures
        0 <= i / 8 < num_groups(n),
        i % 8 < spec_decoded_size(group_len(n, i / 8)),
{
    let q = n / 11;
    let r = n % 11;
    lemma_fundamental_div_mod(n, 11);
    lemma_num_groups(n);
    crate::decoding::lemma_decoded_size_decompose(n);
    lemma_fundamental_div_mod(i, 8);
    let g = i / 8;
    let k = i % 8;
    if g < q {
        assert(group_len(n, g) == 11);
        assert(spec_decoded_size(11) == 8);
    } else {
        assert(spec_decoded_size(n) == 8 * q + spec_decoded_size(r));
        assert(0 <= spec_decoded_size(r) <= 8);
        assert(g == q);
        assert(r != 0);
        assert(group_len(n, g) == r);
        assert(k < spec_decoded_size(r));
    }
}

/// On a string that passes verification, decoding with and without the
/// canonicality checks yields the same bytes.
pub proof fn lemma_decode_lenient_agree(s: Seq<u8>)
    requires
        spec_verify_ok(s),
    ensures
        spec_decode(s) == spec_decode_lenient(s),
{
    let n = s.len() as int;
    lemma_verify_ok(s);
    lemma_verify_ok_wf(s);
    assert forall|i: int|
        0 <= i < spec_decoded_size(n) implies spec_decode(s)[i] == spec_decode_lenient(s)[i] by {
        lemma_fundamental_div_mod(i, 8);
        lemma_decoded_size_groups(n, i);
        let g = i / 8;
        let k = i % 8;
        assert(group_ok(s, g));
        assert(raw_byte(dec_group(s, g), k) <= 255);
        assert(raw_byte(dec_group(s, g), k) >= 0) by {
            reveal(raw_byte);
        }
    }
    assert(spec_decode(s) =~= spec_decode_lenient(s));
}

/// A canonical string is a fixed point of the canonicalizer, passes
/// verification, and its strict and lenient decodings agree.
pub proof fn lemma_canonical_fixed_point(s: Seq<u8>)
    requires
        spec_is_canonical(s),
    ensures
        spec_canonicalize(s) == s,
        spec_verify_ok(s),
        spec_decode(s) == spec_decode_lenient(s),
{
    lemma_canonicalize_projection(s);
}

/// What one group of an encoded string decodes to is the group's own
/// byte prefix, padded with the zeros the encoder padded with.
proof fn lemma_encode_kept(bytes: Seq<u8>, g: int)
    requires
        0 <= g < num_groups(spec_encoded_size(bytes.len() as int)),
    ensures
        pad8(kept_bytes(spec_encode(bytes), g)) == enc_group(bytes, g),
{
    let s = spec_encode(bytes);
    let n = bytes.len() as int;
    let m = spec_encoded_size(n);
    lemma_encoded_size_valid(n);
    lemma_encode_group_digits(bytes, g);
    lemma_chunk_roundtrip(enc_group(bytes, g));
    let eg = enc_group(bytes, g);
    assert forall|k: int| 0 <= k < 8 implies pad8(kept_bytes(s, g))[k] == eg[k] by {
        lemma_group_len_valid(m, g);
        let e = spec_decoded_size(group_len(m, g));
        if k < e {
            assert(raw_byte(dec_group(s, g), k) == eg[k]);
        } else {
            lemma_encode_padding_bytes(bytes, g, k);
            assert(raw_byte(dec_group(s, g), k) == eg[k]);
        }
    }
    assert(pad8(kept_bytes(s, g)) =~= eg);
}

/// What the encoder emits is already in canonical form.
pub proof fn lemma_encode_canonical(bytes: Seq<u8>)
    ensures
        spec_is_canonical(spec_encode(bytes)),
{
    let s = spec_encode(bytes);
    let n = bytes.len() as int;
    let m = spec_encoded_size(n);
    lemma_encode_verifies(bytes);
    lemma_num_groups(m);

    assert forall|j: int| 0 <= j < m implies spec_canonicalize(s)[j] == s[j] by {
        lemma_fundamental_div_mod(j, 11);
        let g = j / 11;
        assert(0 <= g < num_groups(m)) by {
            lemma_fundamental_div_mod(m, 11);
        }
        lemma_encode_kept(bytes, g);
        assert(spec_canonicalize(s)[j] == crate::constants::symbol_char(
            chunk_digit(pad8(kept_bytes(s, g)), j % 11) as u8,
        ));
        assert(s[j] == crate::constants::symbol_char(
            chunk_digit(enc_group(bytes, j / 11), j % 11) as u8,
        ));
    }
    assert(spec_canonicalize(s) =~= s);
    lemma_encoded_size_valid(n);
    assert(crate::decoding::spec_char_valid(s)) by {
        lemma_verify_ok(s);
        assert forall|i: int| 0 <= i < m implies is_symbol_byte(s[i]) by {
            lemma_fundamental_div_mod(i, 11);
            lemma_chunk_digit_bounds(enc_group(bytes, i / 11), i % 11);
            lemma_symbol_char_roundtrip(chunk_digit(enc_group(bytes, i / 11), i % 11) as u8);
        }
    }
}

/// Beyond the meaningful prefix of a group of an encoded string, the
/// padded input bytes are zero.
proof fn lemma_encode_padding_bytes(bytes: Seq<u8>, g: int, k: int)
    requires
        0 <= g < num_groups(spec_encoded_size(bytes.len() as int)),
        0 <= k < 8,
        spec_decoded_size(group_len(spec_encoded_size(bytes.len() as int), g)) <= k,
    ensures
        enc_group(bytes, g)[k] == 0,
{
    let n = bytes.len() as int;
    let m = spec_encoded_size(n);
    lemma_encoded_size_valid(n);
    lemma_num_groups(m);
    lemma_group_len_valid(m, g);
    let q = n / 8;
    let r = n % 8;
    lemma_fundamental_div_mod(n, 8);
    lemma_encoded_size_decompose(n);
    lemma_remainder_sizes(r);
    if 11 * (g + 1) <= m {
        assert(spec_decoded_size(11) == 8);
        assert(false);
    } else {
        if r == 0 {
            lemma_fundamental_div_mod_converse(m, 11, q, 0);
            assert(false);
        }
        assert(m == 11 * q + spec_encoded_size(r));
        assert(g == q);
        assert(group_len(m, g) == spec_encoded_size(r));
        assert(spec_decoded_size(group_len(m, g)) == r);
        assert(8 * g + k >= n);
    }
}

} // verus!

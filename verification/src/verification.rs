//! Validation of candidate G60 encoded strings.
//!
//! Verification runs the decode transform group by group and discards the
//! output, so the verifier and the decoder can never disagree.

use vstd::arithmetic::div_mod::lemma_fundamental_div_mod;
use vstd::prelude::*;
use vstd::string::StringSliceAdditionalSpecFns;

use crate::constants::is_symbol_byte;
use crate::decoding::{
    compute_chunk, compute_decoded_size, dec_group, group_canonical, group_chars_valid,
    group_decodable, group_len, group_ok, lemma_check_from_ok, lemma_check_from_prefix,
    lemma_group_err, lemma_num_groups, num_groups, pad11, raw_byte, spec_check_from,
    spec_decoded_size, spec_length_valid, spec_verify, spec_verify_ok,
};
use crate::errors::VerificationError;

verus! {

/// Verifies that `encoded` is a valid G60 encoded string.
///
/// # Errors
/// An error will be thrown in the following cases:
/// - if `encoded` has a structurally impossible length.
/// - if `encoded` contains a byte outside the G60 alphabet.
/// - if `encoded` is not canonical.
pub fn verify(encoded: &str) -> (r: Result<(), VerificationError>)
    ensures
        r == spec_verify(encoded.spec_bytes()),
{
    let bytes: &[u8] = encoded.as_bytes();
    let ghost s = encoded.spec_bytes();
    let n: usize = bytes.len();

    // Check length.
    let last_group_length: usize = n % 11;
    if last_group_length == 1 || last_group_length == 4 || last_group_length == 8 {
        return Err(VerificationError::InvalidLength);
    }
    let full_groups: usize = n / 11;
    proof {
        lemma_num_groups(n as int);
    }

    // Complete groups.
    let mut chunk_index: usize = 0;
    let mut g: usize = 0;
    while g < full_groups
        invariant
            bytes@ == s,
            s == encoded.spec_bytes(),
            n == s.len(),
            g <= full_groups,
            full_groups == n as int / 11,
            chunk_index == 11 * g,
            spec_length_valid(n as int),
            full_groups <= num_groups(n as int),
            forall|h: int| 0 <= h < g ==> group_ok(s, h),
        decreases full_groups - g,
    {
        proof {
            lemma_fundamental_div_mod(n as int, 11);
        }
        let chunk = &bytes[chunk_index..chunk_index + 11];
        proof {
            assert(chunk@ =~= s.subrange(11 * g, 11 * g + group_len(n as int, g as int)));
            assert(pad11(chunk@) =~= dec_group(s, g as int));
        }
        match compute_chunk(chunk_index, chunk) {
            Ok(_) => {
                proof {
                    assert forall|i: int|
                        11 * g <= i < 11 * g + group_len(n as int, g as int) implies is_symbol_byte(s[i]) by {
                        assert(s[i] == chunk@[i - 11 * g]);
                        assert(is_symbol_byte(chunk@[i - 11 * g]));
                    }
                    assert(group_chars_valid(s, g as int));
                    assert(group_decodable(s, g as int));
                    assert(group_canonical(s, g as int));
                }
            },
            Err(e) => {
                proof {
                    lemma_group_err(s, g as int, chunk@, e);
                }
                return Err(e);
            },
        }
        chunk_index = chunk_index + 11;
        g = g + 1;
    }

    // Last incomplete group.
    proof {
        lemma_fundamental_div_mod(n as int, 11);
    }
    if last_group_length != 0 {
        let chunk = &bytes[chunk_index..n];
        proof {
            assert(group_len(n as int, full_groups as int) == last_group_length);
            assert(chunk@ =~= s.subrange(
                11 * full_groups,
                11 * full_groups + group_len(n as int, full_groups as int),
            ));
            assert(pad11(chunk@) =~= dec_group(s, full_groups as int));
        }
        match compute_chunk(chunk_index, chunk) {
            Ok(decoded) => {
                proof {
                    assert forall|i: int|
                        11 * full_groups <= i < 11 * full_groups + group_len(
                            n as int,
                            full_groups as int,
                        ) implies is_symbol_byte(s[i]) by {
                        assert(s[i] == chunk@[i - 11 * full_groups]);
                        assert(is_symbol_byte(chunk@[i - 11 * full_groups]));
                    }
                    assert(group_chars_valid(s, full_groups as int));
                    assert(group_decodable(s, full_groups as int));
                }
                let elements_to_write: usize = compute_decoded_size(last_group_length);

                let mut k: usize = elements_to_write;
                while k < 8
                    invariant
                        elements_to_write <= k <= 8,
                        elements_to_write == spec_decoded_size(last_group_length as int),
                        last_group_length == group_len(n as int, full_groups as int),
                        n == s.len(),
                        s == encoded.spec_bytes(),
                        spec_length_valid(n as int),
                        full_groups < num_groups(n as int),
                        group_chars_valid(s, full_groups as int),
                        group_decodable(s, full_groups as int),
                        forall|h: int| 0 <= h < full_groups ==> group_ok(s, h),
                        forall|kk: int|
                            0 <= kk < 8 ==> decoded@[kk] == raw_byte(
                                dec_group(s, full_groups as int),
                                kk,
                            ),
                        forall|kk: int|
                            elements_to_write <= kk < k ==> raw_byte(
                                dec_group(s, full_groups as int),
                                kk,
                            ) == 0,
                    decreases 8 - k,
                {
                    if decoded[k] != 0 {
                        proof {
                            assert(raw_byte(dec_group(s, full_groups as int), k as int) != 0);
                            assert(!group_canonical(s, full_groups as int));
                            lemma_check_from_prefix(s, full_groups as int);
                            assert(spec_check_from(s, full_groups as int) == Err::<
                                (),
                                VerificationError,
                            >(VerificationError::NotCanonical));
                        }
                        return Err(VerificationError::NotCanonical);
                    }
                    k = k + 1;
                }
                proof {
                    assert(group_canonical(s, full_groups as int));
                    assert(group_ok(s, full_groups as int));
                    lemma_check_from_ok(s, 0);
                    assert(spec_verify_ok(s));
                }
            },
            Err(e) => {
                proof {
                    lemma_group_err(s, full_groups as int, chunk@, e);
                }
                return Err(e);
            },
        }
    } else {
        proof {
            assert(forall|h: int| 0 <= h < num_groups(n as int) ==> group_ok(s, h));
            lemma_check_from_ok(s, 0);
            assert(spec_verify_ok(s));
        }
    }

    proof {
        let verdict = spec_verify(encoded.spec_bytes());
        assert(verdict is Ok && verdict->Ok_0 == ());
        assert(verdict == Ok::<(), VerificationError>(()));
    }
    Ok(())
}

} // verus!

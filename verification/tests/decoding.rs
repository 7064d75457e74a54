use std::collections::HashSet;

use g60::constants::encode_symbol;
use g60::decoding::compute_decoded_size;
use g60::{decode, decode_in_slice, decode_in_writer, encode, DecodingError};

#[test]
fn test_compute_decoded_size() {
    for encoded_length in 0usize..100 {
        let real_value = (8.0 * encoded_length as f64 / 11.0).floor() as usize;
        let computed_value = compute_decoded_size(encoded_length);

        assert_eq!(
            computed_value, real_value,
            "Incorrect for {}",
            encoded_length
        );
    }
}

#[test]
fn test_decoded_correct_values() {
    for length in 0..16 {
        for byte in 0..=255 {
            let bytes = vec![byte; length];
            let encoded = encode(&bytes);
            let decoded = decode(&encoded).expect("The decoding must succeed");

            assert_eq!(bytes, decoded, "Incorrect for length {length}, byte {byte}",);
        }
    }
}

#[test]
fn test_decode_in_writer() {
    let test = "Gt4CGFiHehzRzjCF16";
    let mut result_vector = Vec::new();
    let decoded_chars =
        decode_in_writer(test, &mut result_vector).expect("The decoding must succeed");

    let result = b"Hello, world!".to_vec();

    assert_eq!(decoded_chars, 13, "Incorrect chars");
    assert_eq!(result_vector, result, "Incorrect slice result");
}

#[test]
fn test_decode_in_slice_exact_slice() {
    let test = "Gt4CGFiHehzRzjCF16";
    let mut result_slice = vec![0; 13];
    let decoded_chars =
        decode_in_slice(test, &mut result_slice).expect("The decoding must succeed");

    let result = b"Hello, world!".to_vec();

    assert_eq!(decoded_chars, 13, "Incorrect chars");
    assert_eq!(result_slice, result, "Incorrect slice result");
}

#[test]
fn test_decode_in_slice_bigger_slice() {
    let test = "Gt4CGFiHehzRzjCF16";
    let mut result_slice = vec![0; 15];
    let decoded_chars =
        decode_in_slice(test, &mut result_slice).expect("The decoding must succeed");

    let mut result = b"Hello, world!".to_vec();
    result.push(0);
    result.push(0);

    assert_eq!(decoded_chars, 13, "Incorrect chars");
    assert_eq!(result_slice, result, "Incorrect slice result");
}

#[test]
fn test_decode_in_slice_shorter_slice() {
    let test = "Gt4CGFiHehzRzjCF16";
    let mut result_slice = vec![0; 10];
    let error = decode_in_slice(test, &mut result_slice).expect_err("The decoding cannot succeed");

    assert_eq!(
        error,
        DecodingError::NotEnoughSpaceInSlice {
            actual: 10,
            required: 13,
        },
        "Incorrect for '{}'",
        test
    );
}

/// This test checks that the decoding only works with canonical values.
#[test]
fn test_do_not_decode_non_canonical_values() {
    let alphabet: Vec<u8> = (0u8..60).map(encode_symbol).collect();
    let mut ok_values = HashSet::new();

    for i in &alphabet {
        for j in &alphabet {
            let encoded = format!("{}{}", *i as char, *j as char);
            let decoded = match decode(&encoded) {
                Ok(v) => v,
                Err(_) => continue,
            };
            let encoded_2 = encode(&decoded);

            assert_eq!(encoded, encoded_2, "[Incorrect]\n - Encoded  : {encoded} - {:?}\n - Encoded 2: {encoded_2} - {:?}\n - Decoded: {:?}",
                       encoded.as_bytes(),
                       encoded_2.as_bytes(),
                       decoded);

            ok_values.insert(encoded);
        }
    }

    for i in 0..=255 {
        let decoded = vec![i];
        let encoded = encode(&decoded);

        if encoded.len() == 2 {
            assert!(
                ok_values.remove(&encoded),
                "Not found encoding for {:?}. Encoded: {encoded}",
                decoded
            );
        }

        for j in 0..=255 {
            let decoded = vec![i, j];
            let encoded = encode(&decoded);

            if encoded.len() == 2 {
                assert!(
                    ok_values.remove(&encoded),
                    "Not found encoding for {:?}. Encoded: {encoded}",
                    decoded
                );
            }
        }
    }

    assert!(
        ok_values.is_empty(),
        "Not found encoding for {:?}",
        ok_values
    );
}

use g60::encoding::compute_encoded_size;
use g60::{encode, encode_in_slice, encode_in_writer, EncodingError};

#[test]
fn test_compute_encoded_size() {
    for content_length in 0usize..100 {
        let real_value = (11.0 * content_length as f64 / 8.0).ceil() as usize;
        let computed_value = compute_encoded_size(content_length);

        assert_eq!(
            computed_value, real_value,
            "Incorrect for {}",
            content_length
        );
    }
}

#[test]
fn test_encode_in_writer() {
    let test = "Hello, world!";
    let mut result_vector = Vec::new();
    let encoded_chars =
        encode_in_writer(test.as_bytes(), &mut result_vector).expect("The encoding must succeed");

    let result = b"Gt4CGFiHehzRzjCF16".to_vec();

    assert_eq!(encoded_chars, 18, "Incorrect chars");
    assert_eq!(result_vector, result, "Incorrect slice result");
}

#[test]
fn test_encode_in_slice_exact_slice() {
    let test = "Hello, world!";
    let mut result_slice = vec![0; 18];
    let encoded_chars =
        encode_in_slice(test.as_bytes(), &mut result_slice).expect("The encoding must succeed");

    let result = b"Gt4CGFiHehzRzjCF16".to_vec();

    assert_eq!(encoded_chars, 18, "Incorrect chars");
    assert_eq!(result_slice, result, "Incorrect slice result");
}

#[test]
fn test_encode_in_slice_bigger_slice() {
    let test = "Hello, world!";
    let mut result_slice = vec![0; 20];
    let encoded_chars =
        encode_in_slice(test.as_bytes(), &mut result_slice).expect("The encoding must succeed");

    let mut result = b"Gt4CGFiHehzRzjCF16".to_vec();
    result.push(0);
    result.push(0);

    assert_eq!(encoded_chars, 18, "Incorrect chars");
    assert_eq!(result_slice, result, "Incorrect slice result");
}

#[test]
fn test_encode_in_slice_shorter_slice() {
    let test = "Hello, world!";
    let mut result_slice = vec![0; 15];
    let error =
        encode_in_slice(test.as_bytes(), &mut result_slice).expect_err("The encoding cannot succeed");

    assert_eq!(
        error,
        EncodingError::NotEnoughSpaceInSlice {
            actual: 15,
            required: 18,
        },
        "Incorrect for '{}'",
        test
    );
}

/// This test checks that the encoding is monotonic. This means that the
/// encoding of a number is always greater than the encoding of the previous
/// number.
#[test]
fn test_monotonic_encoding() {
    // One byte.
    {
        let mut prev = 0;

        for current in 1..=255 {
            let prev_encoded = encode(&[prev]);
            let current_encoded = encode(&[current]);

            assert!(
                prev_encoded < current_encoded,
                "Monotonicity failed for 1-byte {}",
                current
            );
            prev = current;
        }
    }

    // Two bytes.
    {
        let mut prev: u8 = 0;

        for current in 1..=255u8 {
            let prev_encoded: Vec<String> =
                (0..=255u8).map(|second| encode(&[prev, second])).collect();
            let current_encoded: Vec<String> =
                (0..=255u8).map(|second| encode(&[current, second])).collect();

            for prev_second in 0..=255u8 {
                for current_second in 0..=255u8 {
                    assert!(
                        prev_encoded[prev_second as usize] < current_encoded[current_second as usize],
                        "Monotonicity failed for 2-bytes {}: Second Prev: {}, Second Current: {}",
                        current,
                        prev_second,
                        current_second
                    );
                }
            }

            prev = current;
        }
    }

    // Nine bytes. (second chunk)
    {
        let mut prev: u8 = 0;

        for current in 1..=255u8 {
            let prev_encoded: Vec<String> = (0..=255u8)
                .map(|second| encode(&[prev, 0, 0, 0, 0, 0, 0, 0, second]))
                .collect();
            let current_encoded: Vec<String> = (0..=255u8)
                .map(|second| encode(&[current, 0, 0, 0, 0, 0, 0, 0, second]))
                .collect();

            for prev_second in 0..=255u8 {
                for current_second in 0..=255u8 {
                    assert!(
                        prev_encoded[prev_second as usize] < current_encoded[current_second as usize],
                        "Monotonicity failed for 9-bytes {}: Second Prev: {}, Second Current: {}",
                        current,
                        prev_second,
                        current_second
                    );
                }
            }

            prev = current;
        }
    }
}

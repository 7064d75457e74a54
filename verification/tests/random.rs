use g60::{decode, encode, random_bytes, random_str, verify};

#[test]
fn test_random() {
    for bytes in 0usize..100 {
        let random = random_bytes(bytes);

        verify(random.as_str()).expect("Verification fails");

        let decoded = decode(random.as_str()).expect("The decoding must succeed");

        assert_eq!(decoded.len(), bytes, "Length is incorrect");

        let encoded = encode(&decoded);

        assert_eq!(encoded, random, "Encoding and random are different")
    }
}

#[test]
fn test_random_str_same_length() {
    for length in [0usize, 2, 3, 5, 6, 7, 9, 10, 11] {
        for multiplier in 0..10 {
            let length = length + multiplier * 11;
            let random = random_str(length);
            assert_eq!(random.len(), length, "Length is incorrect");

            verify(random.as_str()).expect("Verification fails");

            let decoded = decode(random.as_str()).expect("The decoding must succeed");
            let encoded = encode(&decoded);

            assert_eq!(encoded, random, "Encoding and random are different")
        }
    }
}

#[test]
fn test_random_str_incorrect_length() {
    for length in [1usize, 4, 8] {
        for multiplier in 0..10 {
            let length = length + multiplier * 11;
            let random = random_str(length);
            assert_eq!(random.len(), length - 1, "Length is incorrect");

            verify(random.as_str()).expect("Verification fails");

            let decoded = decode(random.as_str()).expect("The decoding must succeed");
            let encoded = encode(&decoded);

            assert_eq!(encoded, random, "Encoding and random are different")
        }
    }
}

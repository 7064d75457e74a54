use g60::constants::{decode_symbol, encode_symbol};
use g60::{
    custom_random_bytes, custom_random_str, decode, encode, encode_in_slice, is_canonical,
    unsecure_random_bytes, unsecure_random_str, verify, DecodingError, EncodingError, G60String,
    NaiveG60String, VerificationError,
};

#[test]
fn test_hello_world_vectors() {
    assert_eq!(encode(b"Hello, world!"), "Gt4CGFiHehzRzjCF16");
    assert_eq!(
        decode("Gt4CGFiHehzRzjCF16").expect("The decoding must succeed"),
        b"Hello, world!".to_vec()
    );
    assert_eq!(
        decode("Gt4CGFEHehzRzsCF26RHF").expect("The decoding must succeed"),
        b"Hella, would???".to_vec()
    );
}

#[test]
fn test_encode_empty() {
    assert_eq!(encode(b""), "");
    assert_eq!(decode("").expect("The decoding must succeed"), Vec::<u8>::new());
}

#[test]
fn test_buffer_too_small_vector() {
    let mut buffer = vec![0; 15];
    assert_eq!(
        encode_in_slice(b"Hello, world!", &mut buffer),
        Err(EncodingError::NotEnoughSpaceInSlice {
            actual: 15,
            required: 18,
        })
    );
}

#[test]
fn test_symbols_roundtrip_exhaustively() {
    // Every one of the sixty symbols maps to a character and back.
    let mut alphabet = Vec::new();
    for value in 0u8..60 {
        let symbol = encode_symbol(value);
        assert_eq!(decode_symbol(symbol), value, "Incorrect for value {}", value);
        alphabet.push(symbol);
    }
    assert_eq!(
        alphabet,
        b"0123456789ABCDEFGHJKLMNPQRSTUVWXYZabcdefghijklmnopqrstuvwxyz".to_vec()
    );

    // Every byte outside the alphabet is rejected at its index.
    for byte in 0u8..=255 {
        if alphabet.contains(&byte) {
            continue;
        }
        assert_eq!(decode_symbol(byte), 255, "Incorrect for byte {}", byte);

        let mut string_bytes = vec![b'0', b'0'];
        string_bytes.push(byte);
        if let Ok(candidate) = String::from_utf8(string_bytes) {
            // Three symbols are a valid length, so the bad byte decides.
            assert_eq!(
                verify(&candidate),
                Err(VerificationError::InvalidByte { index: 2, byte }),
                "Incorrect for byte {}",
                byte
            );
        }
    }
}

/// The verifier only rejects nonzero padding in the trailing byte
/// positions of the final group; a handful of strings slip through whose
/// kept bytes re-encode differently, and the canonicalizer maps them onto
/// the encoder's output.
#[test]
fn test_verifier_accepts_some_non_canonical_strings() {
    let slipped = "0000KC";
    assert!(verify(slipped).is_ok());
    assert!(!is_canonical(slipped));

    let bytes = decode(slipped).expect("The decoding must succeed");
    assert_eq!(bytes, vec![0, 0, 0, 128]);
    assert_eq!(encode(&bytes), "0000L0");

    let mut repaired = slipped.to_string();
    g60::canonicalize_in_place(&mut repaired);
    assert_eq!(repaired, "0000L0");
    assert!(is_canonical(&repaired));
    assert_eq!(decode(&repaired).expect("The decoding must succeed"), bytes);
}

#[test]
fn test_length_formula_exactness() {
    for n in 0usize..1000 {
        let bytes = vec![7u8; n];
        let encoded = encode(&bytes);
        let expected = (11 * n + 7) / 8;
        assert_eq!(encoded.len(), expected, "Incorrect for {}", n);
        let decoded = decode(&encoded).expect("The decoding must succeed");
        assert_eq!(decoded.len(), n, "Incorrect decoded length for {}", n);
    }
}

#[test]
fn test_g60_string_roundtrip() {
    let g = G60String::encode(b"Hello, world!");
    assert_eq!(g.as_str(), "Gt4CGFiHehzRzjCF16");
    assert!(g.is_canonical());
    assert_eq!(g.decode(), b"Hello, world!".to_vec());
    assert_eq!(g.to_bytes(), b"Hello, world!".to_vec());
    assert_eq!(g.clone().unwrap_string(), "Gt4CGFiHehzRzjCF16".to_string());

    let mut writer = Vec::new();
    assert_eq!(g.decode_in_writer(&mut writer), Ok(13));
    assert_eq!(writer, b"Hello, world!".to_vec());

    let mut slice = vec![0; 14];
    assert_eq!(g.decode_in_slice(&mut slice), Ok(13));
    assert_eq!(&slice[..13], b"Hello, world!");
    let mut small = vec![0; 3];
    assert_eq!(
        g.decode_in_slice(&mut small),
        Err(DecodingError::NotEnoughSpaceInSlice {
            actual: 3,
            required: 13,
        })
    );
}

#[test]
fn test_g60_string_new() {
    let ok = G60String::new_str("Gt4CGFiHehzRzjCF16").expect("The construction must succeed");
    assert_eq!(ok.as_str(), "Gt4CGFiHehzRzjCF16");

    assert_eq!(
        G60String::new_str("Hello, world!").expect_err("The construction must fail"),
        VerificationError::InvalidByte {
            index: 5,
            byte: b',',
        }
    );
    assert_eq!(
        G60String::new("0".to_string()).expect_err("The construction must fail"),
        VerificationError::InvalidLength
    );
    assert_eq!(
        G60String::new_str("001").expect_err("The construction must fail"),
        VerificationError::NotCanonical
    );
}

#[test]
fn test_g60_string_canonicalize() {
    let naive = G60String::new_unchecked("001".to_string());
    assert!(!naive.is_canonical());

    let canonical = naive.canonicalize();
    assert_eq!(canonical.as_str(), "000");
    assert!(canonical.is_canonical());
    assert_eq!(naive.decode(), canonical.decode());

    let mut in_place = G60String::new_unchecked("0Co00000000".to_string());
    in_place.canonicalize_in_place();
    assert_eq!(in_place.as_str(), "00000000000");
}

#[test]
fn test_naive_g60_string() {
    let ok = NaiveG60String::new_str("1234").expect("The construction must succeed");
    assert_eq!(ok.as_str(), "1234");
    assert_eq!(ok.unwrap_string(), "1234".to_string());

    assert_eq!(
        NaiveG60String::new_str("TESTONTEST").expect_err("The construction must fail"),
        VerificationError::InvalidByte {
            index: 4,
            byte: b'O',
        }
    );

    let encoded = NaiveG60String::encode(b"Hello, world!");
    assert_eq!(encoded.as_str(), "Gt4CGFiHehzRzjCF16");

    let random = NaiveG60String::custom_random(3, &[0, 59, 60, 61, 12, 255]);
    assert_eq!(random, "0zC");
}

#[test]
fn test_unsecure_random() {
    for bytes in 0usize..30 {
        let random = unsecure_random_bytes(bytes);
        verify(random.as_str()).expect("Verification fails");
        let decoded = decode(random.as_str()).expect("The decoding must succeed");
        assert_eq!(decoded.len(), bytes, "Length is incorrect");
    }

    for length in [0usize, 4, 13, 26] {
        let random = unsecure_random_str(length);
        verify(random.as_str()).expect("Verification fails");
    }
}

#[test]
fn test_g60_string_random() {
    let random = G60String::random_bytes(9);
    verify(&random).expect("Verification fails");
    assert_eq!(random.len(), 13, "Length is incorrect");

    let random = G60String::unsecure_random_bytes(4);
    verify(&random).expect("Verification fails");
    assert_eq!(random.len(), 6, "Length is incorrect");

    assert_eq!(
        G60String::custom_random_bytes(2, &[0, 0, 7]),
        "000",
        "Incorrect encoding"
    );

    let random = G60String::random(18);
    verify(&random).expect("Verification fails");
    assert_eq!(random.len(), 18, "Length is incorrect");

    let random = G60String::unsecure_random(15);
    verify(&random).expect("Verification fails");
    assert_eq!(random.len(), 14, "Length is incorrect");

    let random = G60String::custom_random(7, &[1, 2, 3, 4, 5, 6, 7, 8]);
    verify(&random).expect("Verification fails");
    assert_eq!(random.len(), 7, "Length is incorrect");
}

#[test]
fn test_custom_random() {
    let random = custom_random_bytes(13, b"Hello, world!****");
    assert_eq!(random, "Gt4CGFiHehzRzjCF16");

    let seed = vec![0u8; 32];
    let random = custom_random_str(22, &seed);
    assert_eq!(random, "0000000000000000000000");
    verify(random.as_str()).expect("Verification fails");

    let random = custom_random_str(12, &seed);
    assert_eq!(random.len(), 11, "Length is incorrect");
}

use g60::{canonicalize_in_place, is_canonical};

#[test]
fn test_is_canonical() {
    // Yes
    for encoded in ["010", "34564657567"] {
        assert!(is_canonical(encoded), "Incorrect yes value: {}", encoded)
    }

    // No
    for encoded in ["001", "012", "0Co00000000"] {
        assert!(!is_canonical(encoded), "Incorrect no value: {}", encoded)
    }
}

#[test]
fn test_canonical() {
    // Yes
    for encoded in ["010", "34564657567"] {
        let mut encoded_string = encoded.to_string();
        canonicalize_in_place(&mut encoded_string);
        assert_eq!(encoded_string, encoded, "Incorrect yes value: {}", encoded)
    }

    // No
    let mut encoded_string = "001".to_string();
    canonicalize_in_place(&mut encoded_string);
    assert_eq!(encoded_string, "000", "Incorrect yes value: 001");

    let mut encoded_string = "0Co00000000".to_string();
    canonicalize_in_place(&mut encoded_string);
    assert_eq!(encoded_string, "00000000000", "Incorrect yes value: 001")
}

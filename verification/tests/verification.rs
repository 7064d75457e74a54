use g60::{encode, verify, VerificationError};

#[test]
fn test_verify_ok() {
    for length in 0..16 {
        for byte in 0..=255 {
            let bytes = vec![byte; length];
            let encoded = encode(&bytes);
            verify(&encoded).expect("The verification must succeed");
        }
    }
}

#[test]
fn test_verify_invalid_length() {
    let test = "JKLMNPQRSTUx";
    let error = verify(test).expect_err("The verification must fail");

    assert_eq!(
        error,
        VerificationError::InvalidLength,
        "Incorrect for '{}'",
        test
    );

    // --------------------------------------------------------------------

    let test = "JKLMNPQRSTUxxxx";
    let error = verify(test).expect_err("The verification must fail");

    assert_eq!(
        error,
        VerificationError::InvalidLength,
        "Incorrect for '{}'",
        test
    );

    // --------------------------------------------------------------------

    let test = "JKLMNPQRSTUxxxxxxxx";
    let error = verify(test).expect_err("The verification must fail");

    assert_eq!(
        error,
        VerificationError::InvalidLength,
        "Incorrect for '{}'",
        test
    );
}

#[test]
fn test_verify_invalid_characters() {
    let test = "Hello, world!";
    let error = verify(test).expect_err("The verification must fail");

    assert_eq!(
        error,
        VerificationError::InvalidByte {
            index: 5,
            byte: b',',
        },
        "Incorrect for '{}'",
        test
    );

    // --------------------------------------------------------------------

    let test = "THIS IS A TEST";
    let error = verify(test).expect_err("The verification must fail");

    assert_eq!(
        error,
        VerificationError::InvalidByte {
            index: 2,
            byte: b'I',
        },
        "Incorrect for '{}'",
        test
    );

    // --------------------------------------------------------------------

    let test = "TESTONTEST";
    let error = verify(test).expect_err("The verification must fail");

    assert_eq!(
        error,
        VerificationError::InvalidByte {
            index: 4,
            byte: b'O',
        },
        "Incorrect for '{}'",
        test
    );
}

#[test]
fn test_not_canonical() {
    for i in ["0f", "2F", "5y", "BU", "Gv", "Nr", "Xd"] {
        assert_eq!(
            verify(i),
            Err(VerificationError::NotCanonical),
            "Incorrect for '{}'",
            i
        );
    }
}

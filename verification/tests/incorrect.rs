use g60::{verify_incorrect, VerificationError};

#[test]
fn mod_test_verify_ok() {
    // Correct
    for test in [
        "0123456789ABCDEFGH",
        "JKLMNPQRSTUVWXYZab",
        "cdefghijklmnopqrst",
        "uvwxyz0123456789AB",
    ] {
        let result =
            verify_incorrect(test).unwrap_or_else(|_| panic!("Verify must succeed for '{}'", test));
        assert!(!result, "Incorrect for '{}'", test);
    }

    // Incorrect
    for test in ["1", "1234", "12345678"] {
        let result =
            verify_incorrect(test).unwrap_or_else(|_| panic!("Verify must succeed for '{}'", test));
        assert!(result, "Incorrect for '{}'", test);
    }
}

#[test]
fn mod_test_verify_invalid_characters() {
    let test = "Hello, world!";
    let error = verify_incorrect(test).expect_err("The verification must fail");

    assert_eq!(
        error,
        VerificationError::InvalidByte {
            index: 5,
            byte: b',',
        },
        "Incorrect for '{}'",
        test
    );

    // --------------------------------------------------------------------

    let test = "THIS IS A TEST";
    let error = verify_incorrect(test).expect_err("The verification must fail");

    assert_eq!(
        error,
        VerificationError::InvalidByte {
            index: 2,
            byte: b'I',
        },
        "Incorrect for '{}'",
        test
    );

    // --------------------------------------------------------------------

    let test = "TESTONTEST";
    let error = verify_incorrect(test).expect_err("The verification must fail");

    assert_eq!(
        error,
        VerificationError::InvalidByte {
            index: 4,
            byte: b'O',
        },
        "Incorrect for '{}'",
        test
    );
}

use g60::naive::{exactly_custom_random, exactly_random, exactly_unsecure_random, NaiveG60String};
use g60::VerificationError;

#[test]
fn verification_test_verify_ok() {
    // Correct
    for test in [
        "0123456789ABCDEFGH",
        "JKLMNPQRSTUVWXYZab",
        "cdefghijklmnopqrst",
        "uvwxyz0123456789AB",
    ] {
        let result = NaiveG60String::verify(test)
            .unwrap_or_else(|_| panic!("Verify must succeed for '{}'", test));
        assert!(!result, "Incorrect for '{}'", test);
    }

    // Incorrect
    for test in ["1", "1234", "12345678"] {
        let result = NaiveG60String::verify(test)
            .unwrap_or_else(|_| panic!("Verify must succeed for '{}'", test));
        assert!(result, "Incorrect for '{}'", test);
    }
}

#[test]
fn verification_test_verify_invalid_characters() {
    let test = "Hello, world!";
    let error = NaiveG60String::verify(test).expect_err("The verification must fail");

    assert_eq!(
        error,
        VerificationError::InvalidByte {
            index: 5,
            byte: b',',
        },
        "Incorrect for '{}'",
        test
    );

    // --------------------------------------------------------------------

    let test = "THIS IS A TEST";
    let error = NaiveG60String::verify(test).expect_err("The verification must fail");

    assert_eq!(
        error,
        VerificationError::InvalidByte {
            index: 2,
            byte: b'I',
        },
        "Incorrect for '{}'",
        test
    );

    // --------------------------------------------------------------------

    let test = "TESTONTEST";
    let error = NaiveG60String::verify(test).expect_err("The verification must fail");

    assert_eq!(
        error,
        VerificationError::InvalidByte {
            index: 4,
            byte: b'O',
        },
        "Incorrect for '{}'",
        test
    );
}

#[test]
fn test_exactly_random_valid() {
    for initial_length in [0usize, 2, 3, 5, 6, 7, 9, 10, 11] {
        for multiplier in 0..10 {
            let length = initial_length + multiplier * 11;
            let random = exactly_random(length);
            assert_eq!(random.len(), length, "Length is incorrect");

            assert!(
                !NaiveG60String::verify(random.as_str()).expect("Verification fails"),
                "The verification is incorrect"
            );
        }
    }
}

#[test]
fn test_exactly_custom_random_values() {
    // Source bytes below sixty are kept in order and mapped to their
    // symbols; the rest are discarded.
    assert_eq!(exactly_custom_random(4, &[0, 9, 10, 34]), "09Aa");
    assert_eq!(exactly_custom_random(1, &[61, 5]), "5");
    assert_eq!(exactly_custom_random(3, &[59, 60, 0, 119, 5, 200, 7]), "z05");
    assert_eq!(exactly_custom_random(0, &[]), "");
}

#[test]
fn test_exactly_unsecure_random_length() {
    for length in [0usize, 1, 7, 11, 30] {
        let random = exactly_unsecure_random(length);
        assert_eq!(random.len(), length, "Length is incorrect");
        assert!(
            NaiveG60String::new_str(&random).is_ok(),
            "The characters must be valid"
        );
    }
}

#[test]
fn test_exactly_random_invalid() {
    for length in [1usize, 4, 8] {
        for multiplier in 0..10 {
            let length = length + multiplier * 11;
            let random = exactly_random(length);
            assert_eq!(random.len(), length, "Length is incorrect");

            assert!(
                NaiveG60String::verify(random.as_str()).expect("Verification fails"),
                "The verification is incorrect"
            );
        }
    }
}

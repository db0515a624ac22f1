use aks_primality_test::decimal::{is_prime, parse_candidate};

#[test]
fn decimal_numerals_are_tested() {
    assert_eq!(is_prime("2"), Some(true));
    assert_eq!(is_prime("4"), Some(false));
    assert_eq!(is_prime("31"), Some(true));
    assert_eq!(is_prime("97"), Some(true));
    assert_eq!(is_prime("341"), Some(false));
    assert_eq!(is_prime("997"), Some(true));
    assert_eq!(is_prime("1000"), Some(false));
}

#[test]
fn a_plus_sign_and_zeros_may_lead() {
    assert_eq!(is_prime("+97"), Some(true));
    assert_eq!(is_prime("0097"), Some(true));
    assert_eq!(is_prime("+0097"), Some(true));
    assert_eq!(is_prime("000000000000000000000000000000000000097"), Some(true));
    assert_eq!(is_prime("+000000000000000000000000000000000000098"), Some(false));
}

#[test]
fn other_text_is_refused() {
    for text in [
        "", "+", "++5", "+-5", "-5", "a", "12a", "1 2", " 12", "12 ", "1_000", "0x1f", "٣",
    ] {
        assert_eq!(is_prime(text), None, "text = {text:?}");
    }
    // a long text takes another path through the parser than a short one
    for text in [
        "1234567890123456789012345678901234567890x",
        "x1234567890123456789012345678901234567890",
        "++1234567890123456789012345678901234567890",
        "12345678901234567890/12345678901234567890",
        "12345678901234567890:12345678901234567890",
    ] {
        assert_eq!(is_prime(text), None, "text = {text:?}");
    }
}

#[test]
fn numbers_below_two_are_refused() {
    for text in ["0", "1", "+0", "+1", "000", "0001", "00000000000000000000000000000000000000001"] {
        assert_eq!(is_prime(text), None, "text = {text:?}");
    }
}

#[test]
fn numerals_beyond_a_machine_word() {
    // 2^128
    assert_eq!(is_prime("340282366920938463463374607431768211456"), Some(false));
    // 10^40 = (10^20)^2
    assert_eq!(is_prime("10000000000000000000000000000000000000000"), Some(false));
    // 3^80
    assert_eq!(is_prime("147808829414345923316083210206383297601"), Some(false));
}

#[test]
fn parsed_candidates_hold_the_number() {
    assert_eq!(parse_candidate("97").map(|n| n.limbs), Some(vec![97]));
    assert_eq!(parse_candidate("+0097").map(|n| n.limbs), Some(vec![97]));
    // 2^64 = 18446744073709551616
    assert_eq!(parse_candidate("18446744073709551616").map(|n| n.limbs), Some(vec![0, 1]));
    // 2^64 + 5
    assert_eq!(parse_candidate("18446744073709551621").map(|n| n.limbs), Some(vec![5, 1]));
    // 2^128 + 26 * 2^64 + 169
    assert_eq!(
        parse_candidate("340282366920938463942989953348216553641").map(|n| n.limbs),
        Some(vec![169, 26, 1])
    );
    assert!(parse_candidate("1").is_none());
    assert!(parse_candidate("seven").is_none());
}

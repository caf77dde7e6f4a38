use labworks::chars::{char_to_number, char_to_number_hex, char_to_print, to_lowercase, to_uppercase, CharErr};
use labworks::overflow::{
    check_addition_u32_Result, check_addition_u32_regular, check_multiplication_u32_Result,
    check_multiplication_u32_regular, check_overflow, showcase_overflow_with_propagation, OperationError,
};
use labworks::primes::{is_prim, next_prime};

#[test]
fn uppercase_converts_letters() {
    assert_eq!(to_uppercase('a'), Ok('A'));
    assert_eq!(to_uppercase('z'), Ok('Z'));
    assert_eq!(to_uppercase('Q'), Ok('Q'));
}

#[test]
fn uppercase_keeps_punctuation_between_cases() {
    assert_eq!(to_uppercase('_'), Ok('_'));
    assert_eq!(to_uppercase('['), Ok('['));
    assert_eq!(to_uppercase('`'), Ok('`'));
}

#[test]
fn uppercase_refuses_outside_range() {
    assert_eq!(to_uppercase('@'), Err(CharErr::NotLetter));
    assert_eq!(to_uppercase('{'), Err(CharErr::NotLetter));
    assert_eq!(to_uppercase('1'), Err(CharErr::NotLetter));
    assert_eq!(to_uppercase('é'), Err(CharErr::NotLetter));
}

#[test]
fn lowercase_converts_letters() {
    assert_eq!(to_lowercase('A'), Ok('a'));
    assert_eq!(to_lowercase('Z'), Ok('z'));
    assert_eq!(to_lowercase('m'), Ok('m'));
    assert_eq!(to_lowercase('^'), Ok('^'));
    assert_eq!(to_lowercase(' '), Err(CharErr::NotLetter));
}

#[test]
fn case_conversion_round_trip() {
    for c in 'A'..='z' {
        let up = to_uppercase(c).unwrap();
        let low = to_lowercase(c).unwrap();
        assert_eq!(to_lowercase(up).unwrap(), low);
        assert_eq!(to_uppercase(up).unwrap(), up);
    }
}

#[test]
fn print_check_passes_only_control_characters() {
    assert_eq!(char_to_print('\n'), Ok('\n'));
    assert_eq!(char_to_print('\u{7f}'), Ok('\u{7f}'));
    assert_eq!(char_to_print('\u{9f}'), Ok('\u{9f}'));
    assert_eq!(char_to_print('a'), Err(CharErr::NotPrintable));
    assert_eq!(char_to_print('\u{a0}'), Err(CharErr::NotPrintable));
    for c in ['\0', 'x', '\u{85}', 'Ω', '\u{1f}', ' '] {
        assert_eq!(char_to_print(c).is_ok(), c.is_control());
    }
}

#[test]
fn decimal_digits() {
    assert_eq!(char_to_number('0'), Ok(0));
    assert_eq!(char_to_number('7'), Ok(7));
    assert_eq!(char_to_number('9'), Ok(9));
    assert_eq!(char_to_number('a'), Err(CharErr::NotDigit));
    assert_eq!(char_to_number('٣'), Err(CharErr::NotAscii));
}

#[test]
fn hex_digits() {
    assert_eq!(char_to_number_hex('0'), Ok(0));
    assert_eq!(char_to_number_hex('a'), Ok(10));
    assert_eq!(char_to_number_hex('F'), Ok(15));
    assert_eq!(char_to_number_hex('g'), Err(CharErr::NotBase16Digit));
    assert_eq!(char_to_number_hex('é'), Err(CharErr::NotAscii));
}

#[test]
fn decimal_digits_read_the_same_in_hex() {
    for c in '0'..='9' {
        assert_eq!(char_to_number(c), char_to_number_hex(c));
    }
}

#[test]
fn error_messages() {
    assert_eq!(CharErr::NotAscii.message(), "Character is not part of Ascii");
    assert_eq!(CharErr::NotDigit.message(), "Character is not a digit");
    assert_eq!(CharErr::NotBase16Digit.message(), "Character is not a base 16 digit");
    assert_eq!(CharErr::NotLetter.message(), "Character is not a letter");
    assert_eq!(CharErr::NotPrintable.message(), "Character is not printable");
}

#[test]
fn u16_overflow_check() {
    assert!(check_overflow(65534, 1));
    assert!(!check_overflow(65535, 1));
    assert!(check_overflow(0, 65535));
    assert!(!check_overflow(40000, 30000));
}

#[test]
fn regular_checks_hold_when_in_range() {
    assert!(check_addition_u32_regular(u32::MAX - 1, 1));
    assert!(check_multiplication_u32_regular(65535, 65537));
}

#[test]
fn result_checks() {
    assert_eq!(check_addition_u32_Result(2, 3), Ok(5));
    assert_eq!(check_addition_u32_Result(u32::MAX, 1), Err(OperationError::Overflow));
    assert_eq!(check_multiplication_u32_Result(70000, 70000), Err(OperationError::Overflow));
    assert_eq!(check_multiplication_u32_Result(7, 6), Ok(42));
    assert_eq!(check_multiplication_u32_Result(70000, 60000), Ok(4_200_000_000));
}

#[test]
fn propagation_returns_product_only_when_both_fit() {
    assert_eq!(showcase_overflow_with_propagation(6, 7), Ok(42));
    assert_eq!(showcase_overflow_with_propagation(u32::MAX, 1), Err(OperationError::Overflow));
    assert_eq!(showcase_overflow_with_propagation(100000, 100000), Err(OperationError::Overflow));
    assert_eq!(showcase_overflow_with_propagation(u32::MAX, 0), Ok(0));
}

#[test]
fn primality() {
    assert!(!is_prim(0));
    assert!(!is_prim(1));
    assert!(is_prim(2));
    assert!(is_prim(3));
    assert!(!is_prim(4));
    assert!(!is_prim(49));
    assert!(is_prim(65521));
    assert!(!is_prim(65535));
    for n in 0..2000u16 {
        let naive = n >= 2 && (2..n).all(|d| n % d != 0);
        assert_eq!(is_prim(n), naive, "{}", n);
    }
}

#[test]
fn next_prime_values() {
    assert_eq!(next_prime(0), Some(2));
    assert_eq!(next_prime(2), Some(3));
    assert_eq!(next_prime(13), Some(17));
    assert_eq!(next_prime(62345), Some(62347));
    assert_eq!(next_prime(65520), Some(65521));
    assert_eq!(next_prime(65521), None);
    assert_eq!(next_prime(65535), None);
}

#[test]
fn next_prime_enumerates_primes_in_order() {
    let mut found = Vec::new();
    let mut i = 0u16;
    while let Some(p) = next_prime(i) {
        found.push(p);
        i = p;
        if found.len() == 10 {
            break;
        }
    }
    assert_eq!(found, vec![2, 3, 5, 7, 11, 13, 17, 19, 23, 29]);
}

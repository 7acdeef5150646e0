use dhondt_calc::validation::validate_number;
use dhondt_calc::validation::IntValidationError;

#[test]
fn plain_numbers_parse() {
    assert_eq!(validate_number("1").unwrap(), 1);
    assert_eq!(validate_number("42").unwrap(), 42);
    assert_eq!(validate_number("007").unwrap(), 7);
    assert_eq!(validate_number("4294967295").unwrap(), u32::MAX);
}

#[test]
fn spaces_are_ignored() {
    assert_eq!(validate_number("1 234").unwrap(), 1234);
    assert_eq!(validate_number(" 12 ").unwrap(), 12);
    assert_eq!(validate_number("4 294 967 295").unwrap(), u32::MAX);
}

#[test]
fn a_leading_plus_sign_is_accepted() {
    assert_eq!(validate_number("+12").unwrap(), 12);
}

#[test]
fn zero_is_rejected_separately() {
    assert!(matches!(validate_number("0"), Err(IntValidationError::ZeroValue)));
    assert!(matches!(validate_number("0 0 0"), Err(IntValidationError::ZeroValue)));
    assert!(matches!(validate_number("+0"), Err(IntValidationError::ZeroValue)));
}

#[test]
fn malformed_numbers_are_rejected() {
    assert!(matches!(validate_number(""), Err(IntValidationError::InvalidNumber)));
    assert!(matches!(validate_number("   "), Err(IntValidationError::InvalidNumber)));
    assert!(matches!(validate_number("+"), Err(IntValidationError::InvalidNumber)));
    assert!(matches!(validate_number("-3"), Err(IntValidationError::InvalidNumber)));
    assert!(matches!(validate_number("12a"), Err(IntValidationError::InvalidNumber)));
    assert!(matches!(validate_number("1.5"), Err(IntValidationError::InvalidNumber)));
}

#[test]
fn values_above_the_unsigned_32_bit_range_are_rejected() {
    assert!(matches!(validate_number("4294967296"), Err(IntValidationError::InvalidNumber)));
    assert!(matches!(validate_number("99999999999"), Err(IntValidationError::InvalidNumber)));
}

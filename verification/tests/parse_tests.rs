use hexfmt::parse::parse_num;
use hexfmt::parse::parse_usize;
use hexfmt::parse::NumError;

#[test]
fn plain_number() {
    assert_eq!(parse_usize(&b"42".to_vec()), Ok(42));
}

#[test]
fn zero() {
    assert_eq!(parse_usize(&b"0".to_vec()), Ok(0));
}

#[test]
fn leading_zeros() {
    assert_eq!(parse_usize(&b"007".to_vec()), Ok(7));
}

#[test]
fn leading_plus_sign() {
    assert_eq!(parse_usize(&b"+7".to_vec()), Ok(7));
}

#[test]
fn empty_text() {
    assert_eq!(parse_usize(&Vec::new()), Err(NumError::Empty));
}

#[test]
fn sign_alone() {
    assert_eq!(parse_usize(&b"+".to_vec()), Err(NumError::InvalidDigit));
}

#[test]
fn letter_in_number() {
    assert_eq!(parse_usize(&b"4x2".to_vec()), Err(NumError::InvalidDigit));
}

#[test]
fn negative_is_invalid() {
    assert_eq!(parse_usize(&b"-3".to_vec()), Err(NumError::InvalidDigit));
}

#[test]
fn largest_value() {
    assert_eq!(
        parse_usize(&b"18446744073709551615".to_vec()),
        Ok(usize::MAX)
    );
}

#[test]
fn one_past_largest_value() {
    assert_eq!(
        parse_usize(&b"18446744073709551616".to_vec()),
        Err(NumError::TooLarge)
    );
}

#[test]
fn far_too_large() {
    assert_eq!(
        parse_usize(&b"99999999999999999999999999".to_vec()),
        Err(NumError::TooLarge)
    );
}

#[test]
fn absent_option_stays_absent() {
    assert_eq!(parse_num(None), Ok(None));
}

#[test]
fn present_option_is_parsed() {
    assert_eq!(parse_num(Some(b"16".to_vec())), Ok(Some(16)));
}

#[test]
fn present_option_reports_bad_text() {
    assert_eq!(parse_num(Some(b"abc".to_vec())), Err(NumError::InvalidDigit));
}

use string_sum::Error;
use string_sum::ParseIntErrorKind;

#[test]
fn add_empty_string_is_0() {
    assert_eq!(Ok(0), string_sum::add(""));
}

#[test]
fn single_number_is_itself() {
    assert_eq!(Ok(42), string_sum::add("42"));
}

#[test]
fn single_number_u64_max() {
    assert_eq!(Ok(u64::MAX), string_sum::add("18446744073709551615"));
}

#[test]
fn comma_separated_numbers_sum() {
    assert_eq!(Ok(13), string_sum::add("1,5,7"));
}

#[test]
fn newline_is_a_separator_too() {
    assert_eq!(Ok(6), string_sum::add("1\n2,3"));
}

#[test]
fn custom_delimiter() {
    assert_eq!(Ok(3), string_sum::add("//;\n1;2"));
}

#[test]
fn custom_delimiter_with_newline_separator() {
    assert_eq!(Ok(6), string_sum::add("//;\n1;2\n3"));
}

#[test]
fn custom_multi_character_delimiter() {
    assert_eq!(Ok(6), string_sum::add("//ab\n1ab2ab3"));
}

#[test]
fn comma_as_declared_delimiter() {
    assert_eq!(Ok(3), string_sum::add("//,\n1,2"));
}

#[test]
fn custom_delimiter_agrees_with_default() {
    assert_eq!(string_sum::add("3,4"), string_sum::add("//x\n3x4"));
}

#[test]
fn custom_delimiter_with_empty_body() {
    assert_eq!(Ok(0), string_sum::add("//;\n"));
}

#[test]
fn trailing_separator_is_dropped() {
    assert_eq!(Ok(1), string_sum::add("1,"));
}

#[test]
fn consecutive_separators_are_dropped() {
    assert_eq!(Ok(0), string_sum::add(",,\n,"));
}

#[test]
fn leading_zeros_are_fine() {
    assert_eq!(Ok(7), string_sum::add("007"));
}

#[test]
fn alphabetic_input_fails_to_parse() {
    assert_eq!(
        Err(Error::ParseInt(ParseIntErrorKind::InvalidDigit)),
        string_sum::add("abc")
    );
}

#[test]
fn sign_characters_fail_to_parse() {
    assert_eq!(
        Err(Error::ParseInt(ParseIntErrorKind::InvalidDigit)),
        string_sum::add("+5")
    );
}

#[test]
fn token_above_u64_range_fails_to_parse() {
    assert_eq!(
        Err(Error::ParseInt(ParseIntErrorKind::PosOverflow)),
        string_sum::add("18446744073709551616")
    );
}

#[test]
fn sum_overflow_is_reported() {
    let input = format!("{},1", u64::MAX);
    assert_eq!(Err(Error::Overflow), string_sum::add(&input));
}

#[test]
fn sum_overflow_with_custom_delimiter() {
    let input = format!("//;\n{};{}", u64::MAX, 1);
    assert_eq!(Err(Error::Overflow), string_sum::add(&input));
}

#[test]
fn sum_just_below_overflow() {
    let input = format!("{},1", u64::MAX - 1);
    assert_eq!(Ok(u64::MAX), string_sum::add(&input));
}

#[test]
fn header_without_newline_is_refused() {
    assert_eq!(Err(Error::UnexpectedEndOfString), string_sum::add("//;1;2"));
}

#[test]
fn bare_marker_without_newline_is_refused() {
    assert_eq!(Err(Error::UnexpectedEndOfString), string_sum::add("//"));
}

#[test]
fn empty_delimiter_leaves_newline_as_only_separator() {
    assert_eq!(
        Err(Error::ParseInt(ParseIntErrorKind::InvalidDigit)),
        string_sum::add("//\n1,2")
    );
    assert_eq!(Ok(3), string_sum::add("//\n1\n2"));
}

#[test]
fn delimiter_may_be_any_unicode_text() {
    assert_eq!(Ok(3), string_sum::add("//é\n1é2"));
}

#[test]
fn non_ascii_digits_fail_to_parse() {
    assert_eq!(
        Err(Error::ParseInt(ParseIntErrorKind::InvalidDigit)),
        string_sum::add("١")
    );
}

#[test]
fn slash_without_marker_is_ordinary_input() {
    assert_eq!(
        Err(Error::ParseInt(ParseIntErrorKind::InvalidDigit)),
        string_sum::add("/1")
    );
}

#[test]
fn greedy_delimiter_matching() {
    assert_eq!(
        Err(Error::ParseInt(ParseIntErrorKind::InvalidDigit)),
        string_sum::add("//aa\n1aaa2")
    );
    assert_eq!(Ok(3), string_sum::add("//aa\n1aa2"));
}

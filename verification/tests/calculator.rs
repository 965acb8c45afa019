use string_calculator::AddError;

#[test]
fn empty_string_adds_to_zero() {
    assert_eq!(string_calculator::add(""), Ok(0));
}

#[test]
fn string_with_single_number_adds_to_just_that_number() {
    assert_eq!(string_calculator::add("1"), Ok(1));
}

#[test]
fn string_with_comma_separated_numbers_adds_those_numbers() {
    assert_eq!(string_calculator::add("1,2"), Ok(1 + 2));
    assert_eq!(string_calculator::add("1,2,3"), Ok(1 + 2 + 3));
}

#[test]
fn ignore_trimming_spaces_between_numbers() {
    assert_eq!(string_calculator::add(" 1  , 2     ,3 "), Ok(1 + 2 + 3));
}

#[test]
fn newline_and_comma_are_interchangeable_defaults() {
    assert_eq!(string_calculator::add("1\n2,3,4"), Ok(10));
    assert_eq!(string_calculator::add("1\n2\n3"), Ok(6));
}

#[test]
fn whitespace_around_tokens_is_ignored() {
    assert_eq!(string_calculator::add("1,  2"), Ok(3));
    assert_eq!(string_calculator::add("1,\t2"), Ok(3));
}

#[test]
fn custom_single_character_delimiter() {
    assert_eq!(string_calculator::add("//[;]\n1;2"), Ok(3));
}

#[test]
fn custom_delimiter_of_arbitrary_length() {
    assert_eq!(string_calculator::add("//[***]\n1***2***3"), Ok(6));
}

#[test]
fn custom_delimiter_is_taken_literally_not_as_a_pattern() {
    assert_eq!(string_calculator::add("//[.]\n1.2"), Ok(3));
    // Were `.` a wildcard, `x` would separate the tokens too.
    assert_eq!(
        string_calculator::add("//[.]\n1x2"),
        Err(AddError::CannotParseNumber(b"1x2".to_vec()))
    );
}

#[test]
fn multiple_simultaneous_custom_delimiters() {
    assert_eq!(string_calculator::add("//[;][,]\n1;2,3"), Ok(6));
}

#[test]
fn a_digit_may_serve_as_a_delimiter() {
    assert_eq!(string_calculator::add("//[1]\n213"), Ok(5));
}

#[test]
fn one_negative_number_is_rejected_and_reported() {
    assert_eq!(
        string_calculator::add("1,-2"),
        Err(AddError::NegativeNumbersNotAllowed(vec![-2]))
    );
}

#[test]
fn all_negative_numbers_are_reported_in_order() {
    assert_eq!(
        string_calculator::add("//[;]\n-1;-2"),
        Err(AddError::NegativeNumbersNotAllowed(vec![-1, -2]))
    );
}

#[test]
fn numbers_over_one_thousand_are_left_out() {
    assert_eq!(string_calculator::add("1,1001,2"), Ok(3));
}

#[test]
fn one_thousand_itself_is_kept() {
    assert_eq!(string_calculator::add("1000,1"), Ok(1001));
}

#[test]
fn header_without_newline_is_rejected() {
    assert_eq!(
        string_calculator::add("//1;2"),
        Err(AddError::CannotFindCustomDelimiter)
    );
}

#[test]
fn empty_header_is_rejected() {
    assert_eq!(
        string_calculator::add("//\n1;2"),
        Err(AddError::CannotFindCustomDelimiter)
    );
}

#[test]
fn unbracketed_header_is_rejected() {
    assert_eq!(
        string_calculator::add("//;\n1;2"),
        Err(AddError::CannotFindCustomDelimiter)
    );
}

#[test]
fn header_with_an_empty_bracket_is_rejected() {
    assert_eq!(
        string_calculator::add("//[]\n1"),
        Err(AddError::CannotFindCustomDelimiter)
    );
}

#[test]
fn unparsable_token_is_reported() {
    assert_eq!(
        string_calculator::add("ABC,2"),
        Err(AddError::CannotParseNumber(b"ABC".to_vec()))
    );
}

#[test]
fn empty_token_between_delimiters_is_unparsable() {
    assert_eq!(
        string_calculator::add("1,,2"),
        Err(AddError::CannotParseNumber(Vec::new()))
    );
}

#[test]
fn parse_failures_take_precedence_over_negative_numbers() {
    assert_eq!(
        string_calculator::add("-1,x"),
        Err(AddError::CannotParseNumber(b"x".to_vec()))
    );
}

#[test]
fn leading_plus_sign_is_accepted() {
    assert_eq!(string_calculator::add("+5,2"), Ok(7));
}

#[test]
fn a_number_too_large_for_the_machine_is_unparsable() {
    let too_big = "170141183460469231731687303715884105728";
    assert_eq!(
        string_calculator::add(too_big),
        Err(AddError::CannotParseNumber(too_big.as_bytes().to_vec()))
    );
}

#[test]
fn the_smallest_machine_number_parses_and_is_negative() {
    assert_eq!(
        string_calculator::add("-170141183460469231731687303715884105728"),
        Err(AddError::NegativeNumbersNotAllowed(vec![i128::MIN]))
    );
}

#[test]
fn the_largest_machine_number_parses_and_is_filtered_out() {
    assert_eq!(
        string_calculator::add("1,170141183460469231731687303715884105727"),
        Ok(1)
    );
}

#[test]
fn an_empty_body_after_a_header_has_one_empty_token() {
    assert_eq!(
        string_calculator::add("//[;]\n"),
        Err(AddError::CannotParseNumber(Vec::new()))
    );
}

#[test]
fn adding_twice_yields_the_same_result() {
    assert_eq!(
        string_calculator::add("//[;][,]\n1;2,1001"),
        string_calculator::add("//[;][,]\n1;2,1001")
    );
    assert_eq!(string_calculator::add("1,-2"), string_calculator::add("1,-2"));
}

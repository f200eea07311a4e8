use semiframes::canon::{
    family_to_str, infer_size_from_family, parse_family_str, Family, ParseError,
};
use semiframes::codec::int_to_set;

fn family(masks: &[u32]) -> Family {
    masks.iter().cloned().collect()
}

#[test]
fn parses_a_family_of_four_sets() {
    let parsed = parse_family_str("{{1, 2}, {1, 3}, {2, 3}, {1, 2, 3}}", 3).unwrap();
    assert_eq!(parsed, family(&[0b011, 0b101, 0b110, 0b111]));
}

#[test]
fn parses_without_spaces() {
    let parsed = parse_family_str("{{1,2},{1,3},{2,3},{1,2,3}}", 3).unwrap();
    assert_eq!(parsed, family(&[0b011, 0b101, 0b110, 0b111]));
}

#[test]
fn parses_the_empty_family() {
    assert_eq!(parse_family_str("{}", 3).unwrap(), family(&[]));
    assert_eq!(parse_family_str("  {   }  ", 3).unwrap(), family(&[]));
}

#[test]
fn parses_the_empty_set() {
    assert_eq!(parse_family_str("{{}}", 3).unwrap(), family(&[0]));
    assert_eq!(parse_family_str("{{ }, {1}}", 3).unwrap(), family(&[0, 1]));
}

#[test]
fn tolerates_white_space_around_braces_and_commas() {
    let parsed = parse_family_str(" \t{ { 1 ,2 } ,\n{ 3 } } \n", 3).unwrap();
    assert_eq!(parsed, family(&[0b011, 0b100]));
}

#[test]
fn a_set_written_twice_is_one_member() {
    let parsed = parse_family_str("{{1}, {1}, {2, 1}, {1, 2}}", 2).unwrap();
    assert_eq!(parsed, family(&[0b01, 0b11]));
}

#[test]
fn accepts_the_largest_element() {
    let parsed = parse_family_str("{{32}}", 32).unwrap();
    assert_eq!(parsed, family(&[1u32 << 31]));
}

#[test]
fn accepts_a_plus_sign_and_leading_zeros() {
    let parsed = parse_family_str("{{+1, 002}}", 2).unwrap();
    assert_eq!(parsed, family(&[0b11]));
}

#[test]
fn rejects_a_missing_closing_brace() {
    assert_eq!(parse_family_str("{{1, 2}, {1, 3}", 3), Err(ParseError::UnbalancedBraces));
    assert_eq!(parse_family_str("{{1}", 3), Err(ParseError::UnbalancedBraces));
}

#[test]
fn rejects_a_lone_brace() {
    assert_eq!(parse_family_str("{", 3), Err(ParseError::MissingOuterBraces));
    assert_eq!(parse_family_str("}", 3), Err(ParseError::MissingOuterBraces));
}

#[test]
fn rejects_text_without_outer_braces() {
    assert_eq!(parse_family_str("1, 2", 3), Err(ParseError::MissingOuterBraces));
    assert_eq!(parse_family_str("", 3), Err(ParseError::MissingOuterBraces));
    assert_eq!(parse_family_str("{1}, {2", 3), Err(ParseError::MissingOuterBraces));
}

#[test]
fn rejects_a_closing_brace_without_an_opening_one() {
    assert_eq!(parse_family_str("{{1}} }", 3), Err(ParseError::UnbalancedBraces));
}

#[test]
fn rejects_an_element_that_is_no_number() {
    assert_eq!(
        parse_family_str("{{1, x}}", 3),
        Err(ParseError::InvalidElement(String::from(" x")))
    );
    assert_eq!(
        parse_family_str("{{1,,2}}", 3),
        Err(ParseError::InvalidElement(String::from("")))
    );
    assert_eq!(
        parse_family_str("{{-1}}", 3),
        Err(ParseError::InvalidElement(String::from("-1")))
    );
    assert_eq!(
        parse_family_str("{{{1}}}", 3),
        Err(ParseError::InvalidElement(String::from("{1}")))
    );
}

#[test]
fn rejects_a_number_that_is_too_long() {
    let text = "{{99999999999999999999999999999999999999}}";
    assert_eq!(
        parse_family_str(text, 3),
        Err(ParseError::InvalidElement(String::from(
            "99999999999999999999999999999999999999"
        )))
    );
}

#[test]
fn rejects_an_element_out_of_range() {
    assert_eq!(parse_family_str("{{0}}", 3), Err(ParseError::ElementOutOfRange(0, 3)));
    assert_eq!(parse_family_str("{{1, 4}}", 3), Err(ParseError::ElementOutOfRange(4, 3)));
    assert_eq!(parse_family_str("{{33}}", 32), Err(ParseError::ElementOutOfRange(33, 32)));
}

#[test]
fn the_first_failure_is_reported() {
    assert_eq!(parse_family_str("{{9}, {x}}", 3), Err(ParseError::ElementOutOfRange(9, 3)));
    assert_eq!(
        parse_family_str("{{x}, {9}}", 3),
        Err(ParseError::InvalidElement(String::from("x")))
    );
    assert_eq!(
        parse_family_str("{{x}, {}", 3),
        Err(ParseError::InvalidElement(String::from("x")))
    );
}

#[test]
fn errors_say_what_failed() {
    assert_eq!(
        ParseError::MissingOuterBraces.message(),
        "Family must be enclosed in outer braces like {{1,2},{3}}"
    );
    assert_eq!(ParseError::InvalidElement(String::from(" x")).message(), "Invalid element:  x");
    assert_eq!(
        ParseError::ElementOutOfRange(4, 3).message(),
        "Element 4 is out of range for n=3"
    );
    assert_eq!(ParseError::UnbalancedBraces.message(), "Unbalanced braces in family");
}

#[test]
fn renders_the_empty_family() {
    assert_eq!(family_to_str(&family(&[]), 3), "{}");
}

#[test]
fn renders_the_empty_set() {
    assert_eq!(family_to_str(&family(&[0]), 3), "{{}}");
    assert_eq!(family_to_str(&family(&[0, 1]), 1), "{{}, {1}}");
}

#[test]
fn renders_smaller_sets_first_and_then_by_elements() {
    let f = family(&[0b111, 0b110, 0b101, 0b011, 0b100, 0b001]);
    assert_eq!(family_to_str(&f, 3), "{{1}, {3}, {1, 2}, {1, 3}, {2, 3}, {1, 2, 3}}");
}

#[test]
fn renders_numbers_of_two_digits() {
    let f = family(&[(1 << 9) | (1 << 11), 1 << 31]);
    assert_eq!(family_to_str(&f, 32), "{{32}, {10, 12}}");
}

#[test]
fn renders_only_the_elements_of_the_ground_set() {
    assert_eq!(family_to_str(&family(&[0b111]), 2), "{{1, 2}}");
}

#[test]
fn what_is_rendered_parses_to_the_family() {
    let families = [
        family(&[]),
        family(&[0]),
        family(&[0, 1, 2, 3]),
        family(&[0b011, 0b101, 0b110, 0b111]),
        family(&[0, 0b001, 0b100, 0b111]),
    ];
    for f in families.iter() {
        let text = family_to_str(f, 3);
        assert_eq!(parse_family_str(&text, 3).as_ref(), Ok(f));
    }
    let wide = family(&[u32::MAX, 1 << 31, 1, 0x8000_0001]);
    assert_eq!(parse_family_str(&family_to_str(&wide, 32), 32), Ok(wide));
}

#[test]
fn lists_the_elements_of_a_subset() {
    assert_eq!(int_to_set(0b101, 3), vec![1, 3]);
    assert_eq!(int_to_set(0b101, 2), vec![1]);
    assert_eq!(int_to_set(0, 3), Vec::<u32>::new());
}

#[test]
fn infers_the_size_from_the_largest_element() {
    assert_eq!(infer_size_from_family(&family(&[])), 0);
    assert_eq!(infer_size_from_family(&family(&[0])), 0);
    assert_eq!(infer_size_from_family(&family(&[0b001, 0b100])), 3);
    assert_eq!(infer_size_from_family(&family(&[u32::MAX])), 32);
    assert_eq!(infer_size_from_family(&family(&[1 << 31])), 32);
}

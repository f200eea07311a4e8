use semiframes::args::{parse_search_args, parse_size_range, parse_starting_family, ArgError};
use semiframes::canon::{CanonError, Family, ParseError};
use semiframes::graph::LabelingProblem;

fn identity_labeler(problem: &LabelingProblem) -> Vec<usize> {
    (0..problem.vertices).collect()
}

/// A labeling that turns the order of the elements round.
fn reversing_labeler(problem: &LabelingProblem) -> Vec<usize> {
    let n = problem.ptn.iter().position(|&x| x == 0).unwrap() + 1;
    let mut lab: Vec<usize> = (0..n).rev().collect();
    lab.extend(n..problem.vertices);
    lab
}

fn family(masks: &[u32]) -> Family {
    masks.iter().cloned().collect()
}

#[test]
fn a_single_size_is_one_size() {
    assert_eq!(parse_size_range("4"), Ok(vec![4]));
    assert_eq!(parse_size_range("0"), Ok(vec![0]));
    assert_eq!(parse_size_range("+12"), Ok(vec![12]));
}

#[test]
fn a_range_holds_both_its_ends() {
    assert_eq!(parse_size_range("3-5"), Ok(vec![3, 4, 5]));
    assert_eq!(parse_size_range("1-6"), Ok(vec![1, 2, 3, 4, 5, 6]));
    assert_eq!(parse_size_range("2-2"), Ok(vec![2]));
}

#[test]
fn a_size_that_is_no_number_is_refused() {
    assert_eq!(parse_size_range("x"), Err(ArgError::InvalidNumber("x".to_string())));
    assert_eq!(parse_size_range(""), Err(ArgError::InvalidNumber("".to_string())));
    assert_eq!(parse_size_range(" 3"), Err(ArgError::InvalidNumber(" 3".to_string())));
    assert_eq!(parse_size_range("a-3"), Err(ArgError::InvalidStart("a".to_string())));
    assert_eq!(parse_size_range("-3"), Err(ArgError::InvalidStart("".to_string())));
    assert_eq!(parse_size_range("3-"), Err(ArgError::InvalidEnd("".to_string())));
    assert_eq!(parse_size_range("3-b"), Err(ArgError::InvalidEnd("b".to_string())));
    assert_eq!(parse_size_range("a-b"), Err(ArgError::InvalidStart("a".to_string())));
}

#[test]
fn a_range_has_one_dash() {
    assert_eq!(parse_size_range("1-2-3"), Err(ArgError::InvalidRange("1-2-3".to_string())));
    assert_eq!(parse_size_range("--"), Err(ArgError::InvalidRange("--".to_string())));
}

#[test]
fn a_range_starts_at_its_smaller_end() {
    assert_eq!(parse_size_range("5-3"), Err(ArgError::StartAfterEnd(5, 3)));
}

#[test]
fn errors_of_the_arguments_say_what_failed() {
    assert_eq!(ArgError::InvalidRange("1-2-3".to_string()).message(), "Invalid range format: 1-2-3");
    assert_eq!(ArgError::InvalidStart("a".to_string()).message(), "Invalid start: a");
    assert_eq!(ArgError::InvalidEnd("b".to_string()).message(), "Invalid end: b");
    assert_eq!(ArgError::InvalidNumber("x".to_string()).message(), "Invalid number: x");
    assert_eq!(ArgError::StartAfterEnd(5, 3).message(), "Start 5 is greater than end 3");
    assert_eq!(ArgError::SizeTooLarge(40).message(), "Size 40 is larger than 32");
    assert_eq!(
        ArgError::StartingFamilyWithRange.message(),
        "Starting family can only be specified for single size, not range"
    );
    assert_eq!(
        ArgError::InvalidStartingFamily(ParseError::ElementOutOfRange(4, 3)).message(),
        "Invalid starting family format: Element 4 is out of range for n=3"
    );
    assert_eq!(
        ArgError::NoCanonicalForm(CanonError::GraphTooLarge).message(),
        "Invalid starting family: The incidence graph is too large"
    );
}

#[test]
fn a_starting_family_is_brought_to_its_canonical_form() {
    let start = parse_starting_family("{{1}, {1, 2}}", 3, &reversing_labeler);
    assert_eq!(start, Ok(family(&[0b100, 0b110])));
    let start = parse_starting_family("{{1}, {1, 2}}", 3, &identity_labeler);
    assert_eq!(start, Ok(family(&[0b001, 0b011])));
}

#[test]
fn a_starting_family_that_is_no_family_is_refused() {
    assert_eq!(
        parse_starting_family("{{1}, {4}}", 3, &identity_labeler),
        Err(ArgError::InvalidStartingFamily(ParseError::ElementOutOfRange(4, 3)))
    );
    let broken = |p: &LabelingProblem| vec![0usize; p.vertices];
    assert_eq!(
        parse_starting_family("{{1}}", 3, &broken),
        Err(ArgError::NoCanonicalForm(CanonError::InvalidLabeling))
    );
}

#[test]
fn the_arguments_make_a_configuration() {
    let config = parse_search_args(
        "2-4".to_string(),
        100,
        7,
        "out_{n}.txt".to_string(),
        true,
        None,
        50,
        10,
        3,
        &identity_labeler,
    )
    .unwrap();
    assert_eq!(config.sizes, vec![2, 3, 4]);
    assert_eq!(config.cache_size, 100);
    assert_eq!(config.limit, 7);
    assert_eq!(config.output_pattern, "out_{n}.txt");
    assert!(config.search_semiframes);
    assert_eq!(config.starting_family, None);
    assert_eq!(config.batch_size, 50);
    assert_eq!(config.log_interval, 10);
    assert_eq!(config.num_threads, 3);
}

#[test]
fn a_starting_family_goes_with_one_size() {
    let with = |size: &str, start: &str| {
        parse_search_args(
            size.to_string(),
            0,
            0,
            String::new(),
            false,
            Some(start.to_string()),
            1,
            1,
            1,
            &reversing_labeler,
        )
    };
    assert_eq!(with("3", "{{1}}").unwrap().starting_family, Some(family(&[0b100])));
    assert_eq!(with("2-3", "{{1}}").unwrap_err(), ArgError::StartingFamilyWithRange);
    assert_eq!(
        with("3", "{{1}").unwrap_err(),
        ArgError::InvalidStartingFamily(ParseError::UnbalancedBraces)
    );
    assert_eq!(with("x", "{{1}}").unwrap_err(), ArgError::InvalidNumber("x".to_string()));
}

#[test]
fn a_size_above_the_width_of_a_subset_is_refused() {
    let with = |size: &str| {
        parse_search_args(
            size.to_string(),
            0,
            0,
            String::new(),
            false,
            None,
            1,
            1,
            1,
            &identity_labeler,
        )
    };
    assert_eq!(with("33").unwrap_err(), ArgError::SizeTooLarge(33));
    assert_eq!(with("31-40").unwrap_err(), ArgError::SizeTooLarge(33));
    assert_eq!(with("32").unwrap().sizes, vec![32]);
}

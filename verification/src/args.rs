//! The arguments of a search, read from text.

use crate::canon::{accepts_problems, canonical_form, canonicalize_once, functional};
use crate::codec::{
    characters, element_value, parse_element, parse_family, parse_family_str, ParseError,
    ParseFailure,
};
use crate::family::Family;
use crate::graph::LabelingProblem;
use crate::relabel::CanonError;
use crate::search::Config;
use crate::text::{decimal, push_decimal};
use vstd::prelude::*;

verus! {

/// Why the arguments of a search cannot be used.
#[derive(Debug, Clone, PartialEq)]
pub enum ArgError {
    /// The sizes hold more than one dash; the field holds their text.
    InvalidRange(String),
    /// What stands before the dash is no number; the field holds it.
    InvalidStart(String),
    /// What stands behind the dash is no number; the field holds it.
    InvalidEnd(String),
    /// The first size of the range is larger than the last.
    StartAfterEnd(usize, usize),
    /// The size is no number; the field holds its text.
    InvalidNumber(String),
    /// A size is larger than 32.
    SizeTooLarge(usize),
    /// The starting family is no family over the ground set.
    InvalidStartingFamily(ParseError),
    /// The starting family has no canonical form.
    NoCanonicalForm(CanonError),
    /// A starting family is given for several sizes.
    StartingFamilyWithRange,
}

/// An `ArgError` with its texts as sequences of characters.
pub enum ArgFailure {
    InvalidRange(Seq<char>),
    InvalidStart(Seq<char>),
    InvalidEnd(Seq<char>),
    StartAfterEnd(usize, usize),
    InvalidNumber(Seq<char>),
    SizeTooLarge(usize),
    InvalidStartingFamily(ParseFailure),
    NoCanonicalForm(CanonError),
    StartingFamilyWithRange,
}

impl View for ArgError {
    type V = ArgFailure;

    open spec fn view(&self) -> ArgFailure {
        match self {
            ArgError::InvalidRange(text) => ArgFailure::InvalidRange(text@),
            ArgError::InvalidStart(text) => ArgFailure::InvalidStart(text@),
            ArgError::InvalidEnd(text) => ArgFailure::InvalidEnd(text@),
            ArgError::StartAfterEnd(start, end) => ArgFailure::StartAfterEnd(*start, *end),
            ArgError::InvalidNumber(text) => ArgFailure::InvalidNumber(text@),
            ArgError::SizeTooLarge(n) => ArgFailure::SizeTooLarge(*n),
            ArgError::InvalidStartingFamily(e) => ArgFailure::InvalidStartingFamily(e@),
            ArgError::NoCanonicalForm(e) => ArgFailure::NoCanonicalForm(*e),
            ArgError::StartingFamilyWithRange => ArgFailure::StartingFamilyWithRange,
        }
    }
}

/// What a failure says.
pub open spec fn arg_failure_text(failure: ArgFailure) -> Seq<char> {
    match failure {
        ArgFailure::InvalidRange(text) => "Invalid range format: "@ + text,
        ArgFailure::InvalidStart(text) => "Invalid start: "@ + text,
        ArgFailure::InvalidEnd(text) => "Invalid end: "@ + text,
        ArgFailure::StartAfterEnd(start, end) => "Start "@ + decimal(start as nat)
            + " is greater than end "@ + decimal(end as nat),
        ArgFailure::InvalidNumber(text) => "Invalid number: "@ + text,
        ArgFailure::SizeTooLarge(n) => "Size "@ + decimal(n as nat) + " is larger than 32"@,
        ArgFailure::InvalidStartingFamily(e) => "Invalid starting family format: "@
            + crate::codec::failure_text(e),
        ArgFailure::NoCanonicalForm(e) => "Invalid starting family: "@ + (match e {
            CanonError::InvalidLabeling =>
                "Invalid element permutation: the labeling does not start with the elements"@,
            CanonError::GraphTooLarge => "The incidence graph is too large"@,
        }),
        ArgFailure::StartingFamilyWithRange =>
            "Starting family can only be specified for single size, not range"@,
    }
}

impl ArgError {
    /// What this error says.
    pub fn message(&self) -> (text: String)
        ensures
            text@ == arg_failure_text(self@),
    {
        match self {
            ArgError::InvalidRange(t) => {
                let mut text = String::from_str("Invalid range format: ");
                text.append(t.as_str());
                text
            },
            ArgError::InvalidStart(t) => {
                let mut text = String::from_str("Invalid start: ");
                text.append(t.as_str());
                text
            },
            ArgError::InvalidEnd(t) => {
                let mut text = String::from_str("Invalid end: ");
                text.append(t.as_str());
                text
            },
            ArgError::StartAfterEnd(start, end) => {
                let mut text = String::from_str("Start ");
                push_decimal(&mut text, *start);
                text.append(" is greater than end ");
                push_decimal(&mut text, *end);
                text
            },
            ArgError::InvalidNumber(t) => {
                let mut text = String::from_str("Invalid number: ");
                text.append(t.as_str());
                text
            },
            ArgError::SizeTooLarge(n) => {
                let mut text = String::from_str("Size ");
                push_decimal(&mut text, *n);
                text.append(" is larger than 32");
                text
            },
            ArgError::InvalidStartingFamily(e) => {
                let mut text = String::from_str("Invalid starting family format: ");
                let inner = e.message();
                text.append(inner.as_str());
                text
            },
            ArgError::NoCanonicalForm(e) => {
                let mut text = String::from_str("Invalid starting family: ");
                let inner = e.message();
                text.append(inner.as_str());
                text
            },
            ArgError::StartingFamilyWithRange => String::from_str(
                "Starting family can only be specified for single size, not range",
            ),
        }
    }
}

/// The place of the first dash of `s` from place `i` on, or the length of
/// `s` where there is none.
pub open spec fn dash_from(s: Seq<char>, i: int) -> int
    decreases s.len() - i,
{
    if i < 0 || i >= s.len() {
        s.len() as int
    } else if s[i] == '-' {
        i
    } else {
        dash_from(s, i + 1)
    }
}

/// The sizes from `start` to `end`, both among them.
pub open spec fn sizes_between(start: usize, end: usize) -> Seq<usize> {
    Seq::new((end - start + 1) as nat, |i: int| (start + i) as usize)
}

/// The sizes that `text` names: one number, or two with a dash between
/// them, the first not larger than the second, for all sizes from the one
/// to the other.
pub open spec fn sizes_of(text: Seq<char>) -> Result<Seq<usize>, ArgFailure> {
    let dash = dash_from(text, 0);
    if dash >= text.len() {
        match element_value(text) {
            Some(single) => Ok(seq![single]),
            None => Err(ArgFailure::InvalidNumber(text)),
        }
    } else if dash_from(text, dash + 1) < text.len() {
        Err(ArgFailure::InvalidRange(text))
    } else {
        let first = text.subrange(0, dash);
        let second = text.subrange(dash + 1, text.len() as int);
        match element_value(first) {
            None => Err(ArgFailure::InvalidStart(first)),
            Some(start) => match element_value(second) {
                None => Err(ArgFailure::InvalidEnd(second)),
                Some(end) => if start > end {
                    Err(ArgFailure::StartAfterEnd(start, end))
                } else {
                    Ok(sizes_between(start, end))
                },
            },
        }
    }
}

/// The place of the first dash of `text` from place `i` on.
fn find_dash(text: &Vec<char>, i: usize) -> (at: usize)
    requires
        i <= text@.len(),
    ensures
        at == dash_from(text@, i as int),
        i <= at <= text@.len(),
{
    let mut at: usize = i;
    while at < text.len() && text[at] != '-'
        invariant
            i <= at <= text@.len(),
            dash_from(text@, i as int) == dash_from(text@, at as int),
        decreases text@.len() - at,
    {
        at = at + 1;
    }
    at
}

/// The sizes that `size_str` names: one number, or two with a dash between
/// them for all sizes from the one to the other.
pub fn parse_size_range(size_str: &str) -> (r: Result<Vec<usize>, ArgError>)
    ensures
        match r {
            Ok(sizes) => sizes_of(size_str@) == Ok::<Seq<usize>, ArgFailure>(sizes@),
            Err(e) => sizes_of(size_str@) == Err::<Seq<usize>, ArgFailure>(e@),
        },
{
    let text = characters(size_str);
    let len: usize = text.len();
    let dash = find_dash(&text, 0);
    proof {
        assert(text@.subrange(0, len as int) =~= text@);
    }
    if dash >= len {
        return match parse_element(&text, 0, len) {
            Some(single) => {
                let mut sizes: Vec<usize> = Vec::new();
                sizes.push(single);
                assert(sizes@ =~= seq![single]);
                Ok(sizes)
            },
            None => Err(ArgError::InvalidNumber(String::from_str(size_str))),
        };
    }
    if find_dash(&text, dash + 1) < len {
        return Err(ArgError::InvalidRange(String::from_str(size_str)));
    }
    let start: usize = match parse_element(&text, 0, dash) {
        Some(v) => v,
        None => {
            return Err(
                ArgError::InvalidStart(String::from_str(size_str.substring_char(0, dash))),
            );
        },
    };
    let end: usize = match parse_element(&text, dash + 1, len) {
        Some(v) => v,
        None => {
            return Err(
                ArgError::InvalidEnd(String::from_str(size_str.substring_char(dash + 1, len))),
            );
        },
    };
    if start > end {
        return Err(ArgError::StartAfterEnd(start, end));
    }
    let mut sizes: Vec<usize> = Vec::new();
    let mut next: usize = start;
    sizes.push(next);
    while next < end
        invariant
            start <= next <= end,
            sizes@.len() == next - start + 1,
            forall|i: int| 0 <= i < sizes@.len() ==> sizes@[i] == start + i,
        decreases end - next,
    {
        next = next + 1;
        sizes.push(next);
    }
    proof {
        assert(sizes@ =~= sizes_between(start, end));
    }
    Ok(sizes)
}

/// The canonical form of the family that `family_str` writes over `n`
/// elements.
pub fn parse_starting_family<L: Fn(&LabelingProblem) -> Vec<usize>>(
    family_str: &str,
    n: usize,
    labeler: &L,
) -> (r: Result<Family, ArgError>)
    requires
        n <= 32,
        accepts_problems(labeler),
    ensures
        match parse_family(family_str@, n as nat) {
            Err(f) => r matches Err(e) && e@ == ArgFailure::InvalidStartingFamily(f),
            Ok(family) => match r {
                Ok(start) => functional(labeler) ==> canonical_form(labeler, family, n as nat)
                    == Ok::<Set<u32>, CanonError>(start@),
                Err(e) => e@ matches ArgFailure::NoCanonicalForm(c) && (functional(labeler)
                    ==> canonical_form(labeler, family, n as nat) == Err::<Set<u32>, CanonError>(
                    c,
                )),
            },
        },
{
    let family = match parse_family_str(family_str, n) {
        Ok(family) => family,
        Err(e) => {
            return Err(ArgError::InvalidStartingFamily(e));
        },
    };
    match canonicalize_once(&family, n, labeler) {
        Ok(canonical_family) => Ok(canonical_family),
        Err(e) => Err(ArgError::NoCanonicalForm(e)),
    }
}

/// The first of `sizes` that is larger than 32.
pub open spec fn first_too_large(sizes: Seq<usize>) -> Option<usize>
    decreases sizes.len(),
{
    if sizes.len() == 0 {
        None
    } else if sizes.first() > 32 {
        Some(sizes.first())
    } else {
        first_too_large(sizes.drop_first())
    }
}

/// What a search is to do, from its arguments: the sizes that `size`
/// names, none larger than 32, and the canonical form of the starting
/// family, where one is given, which takes one size alone.
#[verifier::loop_isolation(false)]
pub fn parse_search_args<L: Fn(&LabelingProblem) -> Vec<usize>>(
    size: String,
    cache_size: usize,
    limit: usize,
    output: String,
    semiframes: bool,
    starting_family: Option<String>,
    batch_size: usize,
    log_interval: usize,
    threads: usize,
    labeler: &L,
) -> (r: Result<Config, ArgError>)
    requires
        accepts_problems(labeler),
    ensures
        match sizes_of(size@) {
            Err(f) => r matches Err(e) && e@ == f,
            Ok(sizes) => match first_too_large(sizes) {
                Some(n) => r matches Err(e) && e@ == ArgFailure::SizeTooLarge(n),
                None => match starting_family {
                    None => r matches Ok(config) && config.sizes@ == sizes
                        && config.starting_family is None && config.cache_size == cache_size
                        && config.limit == limit && config.output_pattern == output
                        && config.search_semiframes == semiframes && config.batch_size
                        == batch_size && config.log_interval == log_interval
                        && config.num_threads == threads,
                    Some(text) => if sizes.len() != 1 {
                        r matches Err(e) && e@ == ArgFailure::StartingFamilyWithRange
                    } else {
                        match parse_family(text@, sizes[0] as nat) {
                            Err(f) => r matches Err(e) && e@ == ArgFailure::InvalidStartingFamily(
                                f,
                            ),
                            Ok(family) => match r {
                                Ok(config) => config.sizes@ == sizes && config.cache_size
                                    == cache_size && config.limit == limit
                                    && config.output_pattern == output
                                    && config.search_semiframes == semiframes
                                    && config.batch_size == batch_size && config.log_interval
                                    == log_interval && config.num_threads == threads
                                    && config.starting_family is Some && (functional(labeler)
                                    ==> canonical_form(labeler, family, sizes[0] as nat) == Ok::<
                                    Set<u32>,
                                    CanonError,
                                >(config.starting_family->Some_0@)),
                                Err(e) => e@ is NoCanonicalForm,
                            },
                        }
                    },
                },
            },
        },
{
    let sizes = match parse_size_range(size.as_str()) {
        Ok(sizes) => sizes,
        Err(e) => {
            return Err(e);
        },
    };
    let mut i: usize = 0;
    proof {
        assert(sizes@.subrange(0, sizes@.len() as int) =~= sizes@);
    }
    while i < sizes.len()
        invariant
            i <= sizes@.len(),
            first_too_large(sizes@) == first_too_large(
                sizes@.subrange(i as int, sizes@.len() as int),
            ),
            forall|j: int| 0 <= j < i ==> sizes@[j] <= 32,
        decreases sizes@.len() - i,
    {
        let ghost rest = sizes@.subrange(i as int, sizes@.len() as int);
        proof {
            assert(rest.first() == sizes@[i as int]);
            assert(rest.drop_first() =~= sizes@.subrange(i + 1, sizes@.len() as int));
        }
        if sizes[i] > 32 {
            return Err(ArgError::SizeTooLarge(sizes[i]));
        }
        i = i + 1;
    }
    let starting_family = match starting_family {
        Some(family_str) => {
            if sizes.len() == 1 {
                match parse_starting_family(family_str.as_str(), sizes[0], labeler) {
                    Ok(start) => Some(start),
                    Err(e) => {
                        return Err(e);
                    },
                }
            } else {
                return Err(ArgError::StartingFamilyWithRange);
            }
        },
        None => None,
    };
    Ok(
        Config {
            sizes,
            cache_size,
            limit,
            output_pattern: output,
            search_semiframes: semiframes,
            starting_family,
            batch_size,
            log_interval,
            num_threads: threads,
        },
    )
}

} // verus!

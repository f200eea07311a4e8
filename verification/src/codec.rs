//! The text form of a family: a brace list of brace lists of elements, as
//! in `{{1, 2}, {1, 3}, {1, 2, 3}}`.

use crate::bits::{has_bit, single_bit, test_bit, with_bit};
use crate::family::{
    ascending, compare_members, insert_member, lex_less, members, sorted, Family, Order,
};
use crate::text::{decimal, push_decimal};
use std::collections::BTreeSet;
use vstd::prelude::*;

verus! {

/// Why a text is not a family over the ground set.
#[derive(Debug, Clone, PartialEq)]
pub enum ParseError {
    /// The text, without the white space around it, does not start with an
    /// opening brace and end with a closing one.
    MissingOuterBraces,
    /// A closing brace has no opening brace before it, or an opening brace
    /// is never closed.
    UnbalancedBraces,
    /// An element is not a number; the field holds its text.
    InvalidElement(String),
    /// An element is 0 or larger than the size of the ground set; the fields
    /// hold the element and the size.
    ElementOutOfRange(usize, usize),
}

/// A `ParseError` with its text as a sequence of characters.
pub enum ParseFailure {
    MissingOuterBraces,
    UnbalancedBraces,
    InvalidElement(Seq<char>),
    ElementOutOfRange(usize, usize),
}

impl View for ParseError {
    type V = ParseFailure;

    open spec fn view(&self) -> ParseFailure {
        match self {
            ParseError::MissingOuterBraces => ParseFailure::MissingOuterBraces,
            ParseError::UnbalancedBraces => ParseFailure::UnbalancedBraces,
            ParseError::InvalidElement(text) => ParseFailure::InvalidElement(text@),
            ParseError::ElementOutOfRange(element, n) => ParseFailure::ElementOutOfRange(
                *element,
                *n,
            ),
        }
    }
}

/// What a failure says.
pub open spec fn failure_text(failure: ParseFailure) -> Seq<char> {
    match failure {
        ParseFailure::MissingOuterBraces =>
            "Family must be enclosed in outer braces like {{1,2},{3}}"@,
        ParseFailure::UnbalancedBraces => "Unbalanced braces in family"@,
        ParseFailure::InvalidElement(text) => "Invalid element: "@ + text,
        ParseFailure::ElementOutOfRange(element, n) => "Element "@ + decimal(element as nat)
            + " is out of range for n="@ + decimal(n as nat),
    }
}

impl ParseError {
    /// What this error says.
    pub fn message(&self) -> (text: String)
        ensures
            text@ == failure_text(self@),
    {
        match self {
            ParseError::MissingOuterBraces => String::from_str(
                "Family must be enclosed in outer braces like {{1,2},{3}}",
            ),
            ParseError::UnbalancedBraces => String::from_str("Unbalanced braces in family"),
            ParseError::InvalidElement(element) => {
                let mut text = String::from_str("Invalid element: ");
                text.append(element.as_str());
                text
            },
            ParseError::ElementOutOfRange(element, n) => {
                let mut text = String::from_str("Element ");
                push_decimal(&mut text, *element);
                text.append(" is out of range for n=");
                push_decimal(&mut text, *n);
                text
            },
        }
    }
}

/// Whether `c` is white space.
pub open spec fn is_space(c: char) -> bool {
    let code = c as u32;
    ||| 0x09 <= code <= 0x0d
    ||| code == 0x20
    ||| code == 0x85
    ||| code == 0xa0
    ||| code == 0x1680
    ||| 0x2000 <= code <= 0x200a
    ||| code == 0x2028
    ||| code == 0x2029
    ||| code == 0x202f
    ||| code == 0x205f
    ||| code == 0x3000
}

/// `s` without the white space at its start.
pub open spec fn trim_start(s: Seq<char>) -> Seq<char>
    decreases s.len(),
{
    if s.len() > 0 && is_space(s.first()) {
        trim_start(s.drop_first())
    } else {
        s
    }
}

/// `s` without the white space at its end.
pub open spec fn trim_end(s: Seq<char>) -> Seq<char>
    decreases s.len(),
{
    if s.len() > 0 && is_space(s.last()) {
        trim_end(s.drop_last())
    } else {
        s
    }
}

/// `s` without the white space at its start and at its end.
pub open spec fn trim(s: Seq<char>) -> Seq<char> {
    trim_end(trim_start(s))
}

/// Whether `c` is a decimal digit.
pub open spec fn is_digit(c: char) -> bool {
    '0' <= c <= '9'
}

/// The value of the decimal digit `c`.
pub open spec fn digit_value(c: char) -> nat {
    (c as u32 - '0' as u32) as nat
}

/// Whether every character of `s` is a decimal digit.
pub open spec fn all_digits(s: Seq<char>) -> bool {
    forall|i: int| 0 <= i < s.len() ==> is_digit(#[trigger] s[i])
}

/// The number that the decimal digits `s` write.
pub open spec fn number(s: Seq<char>) -> nat
    decreases s.len(),
{
    if s.len() == 0 {
        0
    } else {
        number(s.drop_last()) * 10 + digit_value(s.last())
    }
}

/// The digits of an element: its text without a plus sign at its start.
pub open spec fn unsigned(s: Seq<char>) -> Seq<char> {
    if s.len() > 0 && s.first() == '+' {
        s.drop_first()
    } else {
        s
    }
}

/// The number that `s` writes: decimal digits, at least one, with or
/// without a plus sign before them, that do not exceed the largest `usize`.
pub open spec fn element_value(s: Seq<char>) -> Option<usize> {
    let d = unsigned(s);
    if d.len() == 0 || !all_digits(d) || number(d) > usize::MAX {
        None
    } else {
        Some(number(d) as usize)
    }
}

/// The place of the first comma of `s`, or its length where it has none.
pub open spec fn first_comma(s: Seq<char>) -> int
    decreases s.len(),
{
    if s.len() == 0 {
        0
    } else if s.first() == ',' {
        0
    } else {
        1 + first_comma(s.drop_first())
    }
}

/// The first comma lies within the text, behind characters that are none.
pub proof fn lemma_first_comma_bounds(s: Seq<char>)
    ensures
        0 <= first_comma(s) <= s.len(),
        first_comma(s) < s.len() ==> s[first_comma(s)] == ',',
        forall|i: int| 0 <= i < first_comma(s) ==> s[i] != ',',
    decreases s.len(),
{
    if s.len() > 0 && s.first() != ',' {
        lemma_first_comma_bounds(s.drop_first());
        assert forall|i: int| 0 <= i < first_comma(s) implies s[i] != ',' by {
            if i > 0 {
                assert(s.drop_first()[i - 1] == s[i]);
            }
        }
    }
}

/// The subset that the elements of `rest`, commas between them, make with
/// those of `mask`; or the failure of the first element that is no number
/// from 1 to `n`.
pub open spec fn parse_elements(rest: Seq<char>, n: nat, mask: u32) -> Result<u32, ParseFailure>
    decreases rest.len(),
{
    let cut = first_comma(rest);
    let piece = rest.subrange(0, cut);
    match element_value(trim(piece)) {
        None => Err(ParseFailure::InvalidElement(piece)),
        Some(v) => if v == 0 || v > n {
            Err(ParseFailure::ElementOutOfRange(v, n as usize))
        } else {
            let more = mask | single_bit(v - 1);
            if cut >= rest.len() {
                Ok(more)
            } else {
                proof {
                    lemma_first_comma_bounds(rest);
                }
                parse_elements(rest.subrange(cut + 1, rest.len() as int), n, more)
            }
        },
    }
}

/// The subset that the text between the braces of a set writes: the empty
/// subset for white space alone, else its elements.
pub open spec fn parse_set(content: Seq<char>, n: nat) -> Result<u32, ParseFailure> {
    let inner = trim(content);
    if inner.len() == 0 {
        Ok(0u32)
    } else {
        parse_elements(inner, n, 0u32)
    }
}

/// The place behind the brace that closes the group in which place `i` of
/// `s` lies `depth` braces deep; `None` where it is never closed.
pub open spec fn group_end(s: Seq<char>, i: int, depth: nat) -> Option<int>
    decreases s.len() - i,
{
    if i < 0 || i >= s.len() || depth == 0 {
        None
    } else if s[i] == '{' {
        group_end(s, i + 1, depth + 1)
    } else if s[i] == '}' {
        if depth == 1 {
            Some(i + 1)
        } else {
            group_end(s, i + 1, (depth - 1) as nat)
        }
    } else {
        group_end(s, i + 1, depth)
    }
}

/// The family that the sets of `rest` make with those of `found`. A set is
/// a brace group; what stands between the groups is passed over.
pub open spec fn scan_sets(rest: Seq<char>, n: nat, found: Set<u32>) -> Result<
    Set<u32>,
    ParseFailure,
>
    decreases rest.len(),
{
    if rest.len() == 0 {
        Ok(found)
    } else if rest.first() == '{' {
        match group_end(rest, 1, 1) {
            None => Err(ParseFailure::UnbalancedBraces),
            Some(end) => if 2 <= end <= rest.len() {
                match parse_set(rest.subrange(1, end - 1), n) {
                    Err(f) => Err(f),
                    Ok(mask) => scan_sets(rest.subrange(end, rest.len() as int), n, found.insert(mask)),
                }
            } else {
                Err(ParseFailure::UnbalancedBraces)
            },
        }
    } else if rest.first() == '}' {
        Err(ParseFailure::UnbalancedBraces)
    } else {
        scan_sets(rest.drop_first(), n, found)
    }
}

/// The family that `text` writes over a ground set of `n` elements: the
/// sets between its outer braces.
pub open spec fn parse_family(text: Seq<char>, n: nat) -> Result<Set<u32>, ParseFailure> {
    let t = trim(text);
    if t.len() < 2 || t.first() != '{' || t.last() != '}' {
        Err(ParseFailure::MissingOuterBraces)
    } else {
        scan_sets(trim(t.subrange(1, t.len() - 1)), n, Set::empty())
    }
}

/// The place of a group's end lies behind its start, within the text.
pub proof fn lemma_group_end_bounds(s: Seq<char>, i: int, depth: nat)
    requires
        0 <= i,
    ensures
        group_end(s, i, depth) matches Some(end) ==> i < end <= s.len() && s[end - 1] == '}',
    decreases s.len() - i,
{
    if i < s.len() && depth > 0 {
        if s[i] == '{' {
            lemma_group_end_bounds(s, i + 1, depth + 1);
        } else if s[i] == '}' {
            if depth > 1 {
                lemma_group_end_bounds(s, i + 1, (depth - 1) as nat);
            }
        } else {
            lemma_group_end_bounds(s, i + 1, depth);
        }
    }
}

/// Whether `c` is white space.
pub fn is_space_char(c: char) -> (b: bool)
    ensures
        b == is_space(c),
{
    let code: u32 = c as u32;
    (0x09 <= code && code <= 0x0d) || code == 0x20 || code == 0x85 || code == 0xa0 || code
        == 0x1680 || (0x2000 <= code && code <= 0x200a) || code == 0x2028 || code == 0x2029
        || code == 0x202f || code == 0x205f || code == 0x3000
}

/// The characters of `s`.
pub fn characters(s: &str) -> (v: Vec<char>)
    ensures
        v@ == s@,
{
    let len: usize = s.unicode_len();
    let mut v: Vec<char> = Vec::new();
    let mut i: usize = 0;
    while i < len
        invariant
            i <= len,
            len == s@.len(),
            v@ == s@.subrange(0, i as int),
        decreases len - i,
    {
        let c = s.get_char(i);
        v.push(c);
        proof {
            assert(v@ =~= s@.subrange(0, i + 1));
        }
        i = i + 1;
    }
    proof {
        assert(s@.subrange(0, len as int) =~= s@);
    }
    v
}

/// The part of `text` from `lo` to `hi` without the white space at its
/// start and at its end.
pub fn trim_range(text: &Vec<char>, lo: usize, hi: usize) -> (r: (usize, usize))
    requires
        lo <= hi <= text@.len(),
    ensures
        lo <= r.0 <= r.1 <= hi,
        text@.subrange(r.0 as int, r.1 as int) == trim(text@.subrange(lo as int, hi as int)),
{
    let mut a: usize = lo;
    while a < hi && is_space_char(text[a])
        invariant
            lo <= a <= hi <= text@.len(),
            trim_start(text@.subrange(lo as int, hi as int)) == trim_start(
                text@.subrange(a as int, hi as int),
            ),
        decreases hi - a,
    {
        proof {
            let s = text@.subrange(a as int, hi as int);
            assert(s.first() == text@[a as int]);
            assert(s.drop_first() =~= text@.subrange(a + 1, hi as int));
        }
        a = a + 1;
    }
    proof {
        let s = text@.subrange(a as int, hi as int);
        if a < hi {
            assert(s.first() == text@[a as int]);
        }
        assert(trim_start(s) == s);
    }
    let mut b: usize = hi;
    while b > a && is_space_char(text[b - 1])
        invariant
            a <= b <= hi <= text@.len(),
            trim_end(text@.subrange(a as int, hi as int)) == trim_end(
                text@.subrange(a as int, b as int),
            ),
        decreases b,
    {
        proof {
            let s = text@.subrange(a as int, b as int);
            assert(s.last() == text@[b - 1]);
            assert(s.drop_last() =~= text@.subrange(a as int, b - 1));
        }
        b = b - 1;
    }
    proof {
        let s = text@.subrange(a as int, b as int);
        if b > a {
            assert(s.last() == text@[b - 1]);
        }
        assert(trim_end(s) == s);
    }
    (a, b)
}

/// The number of some digits is at least the number of the first of them.
pub proof fn lemma_number_grows(s: Seq<char>, k: int)
    requires
        0 <= k <= s.len(),
    ensures
        number(s.subrange(0, k)) <= number(s),
    decreases s.len() - k,
{
    if k < s.len() {
        let longer = s.subrange(0, k + 1);
        assert(longer.drop_last() =~= s.subrange(0, k));
        lemma_number_grows(s, k + 1);
        assert(number(longer) >= number(s.subrange(0, k))) by (nonlinear_arith)
            requires
                number(longer) == number(s.subrange(0, k)) * 10 + digit_value(longer.last()),
        ;
    } else {
        assert(s.subrange(0, k) =~= s);
    }
}

/// The number that the part of `text` from `lo` to `hi` writes.
#[verifier::loop_isolation(false)]
pub fn parse_element(text: &Vec<char>, lo: usize, hi: usize) -> (r: Option<usize>)
    requires
        lo <= hi <= text@.len(),
    ensures
        r == element_value(text@.subrange(lo as int, hi as int)),
{
    let ghost whole = text@.subrange(lo as int, hi as int);
    let mut start: usize = lo;
    if lo < hi && text[lo] == '+' {
        start = lo + 1;
    }
    let ghost d = unsigned(whole);
    proof {
        if lo < hi {
            assert(whole.first() == text@[lo as int]);
        }
        assert(d =~= text@.subrange(start as int, hi as int));
    }
    if start == hi {
        return None;
    }
    let mut value: usize = 0;
    let mut i: usize = start;
    proof {
        assert(d.subrange(0, 0) =~= Seq::<char>::empty());
    }
    while i < hi
        invariant
            start <= i <= hi <= text@.len(),
            d == text@.subrange(start as int, hi as int),
            forall|j: int| 0 <= j < i - start ==> is_digit(#[trigger] d[j]),
            value == number(d.subrange(0, i - start)),
        decreases hi - i,
    {
        let c: char = text[i];
        proof {
            assert(d[i - start] == c);
            let longer = d.subrange(0, i - start + 1);
            assert(longer.drop_last() =~= d.subrange(0, i - start));
            assert(longer.last() == c);
        }
        if !(c >= '0' && c <= '9') {
            return None;
        }
        let digit: usize = (c as u32 - '0' as u32) as usize;
        if value > (usize::MAX - digit) / 10 {
            proof {
                if all_digits(d) {
                    lemma_number_grows(d, i - start + 1);
                }
            }
            return None;
        }
        value = value * 10 + digit;
        i = i + 1;
    }
    proof {
        assert(d.subrange(0, d.len() as int) =~= d);
    }
    Some(value)
}

/// The subset that the part of `source` from `lo` to `hi`, the text between
/// the braces of a set, writes.
#[verifier::loop_isolation(false)]
pub fn parse_single_set(source: &str, text: &Vec<char>, lo: usize, hi: usize, n: usize) -> (r:
    Result<u32, ParseError>)
    requires
        n <= 32,
        text@ == source@,
        lo <= hi <= text@.len(),
    ensures
        match r {
            Ok(mask) => parse_set(text@.subrange(lo as int, hi as int), n as nat) == Ok::<
                u32,
                ParseFailure,
            >(mask),
            Err(e) => parse_set(text@.subrange(lo as int, hi as int), n as nat) == Err::<
                u32,
                ParseFailure,
            >(e@),
        },
{
    let (a, b) = trim_range(text, lo, hi);
    if a == b {
        return Ok(0);
    }
    let ghost inner = text@.subrange(a as int, b as int);
    let ghost whole = parse_set(text@.subrange(lo as int, hi as int), n as nat);
    let mut mask: u32 = 0;
    let mut start: usize = a;
    let mut outcome: Option<Result<u32, ParseError>> = None;
    while outcome.is_none()
        invariant
            n <= 32,
            text@ == source@,
            a <= start <= b <= text@.len(),
            whole == parse_elements(inner, n as nat, 0u32),
            outcome is None ==> parse_elements(inner, n as nat, 0u32) == parse_elements(
                text@.subrange(start as int, b as int),
                n as nat,
                mask,
            ),
            outcome matches Some(Ok(m)) ==> whole == Ok::<u32, ParseFailure>(m),
            outcome matches Some(Err(e)) ==> whole == Err::<u32, ParseFailure>(e@),
        decreases b - start + (if outcome is None { 1int } else { 0int }),
    {
        let ghost rest = text@.subrange(start as int, b as int);
        let mut cut: usize = start;
        while cut < b && text[cut] != ','
            invariant
                start <= cut <= b <= text@.len(),
                rest == text@.subrange(start as int, b as int),
                first_comma(rest) == (cut - start) + first_comma(
                    text@.subrange(cut as int, b as int),
                ),
            decreases b - cut,
        {
            proof {
                let tail = text@.subrange(cut as int, b as int);
                assert(tail.first() == text@[cut as int]);
                assert(tail.drop_first() =~= text@.subrange(cut + 1, b as int));
            }
            cut = cut + 1;
        }
        proof {
            let tail = text@.subrange(cut as int, b as int);
            if cut < b {
                assert(tail.first() == text@[cut as int]);
            }
            assert(first_comma(tail) == 0);
            assert(rest.subrange(0, cut - start) =~= text@.subrange(start as int, cut as int));
            if cut < b {
                assert(rest.subrange(cut - start + 1, rest.len() as int) =~= text@.subrange(
                    cut + 1,
                    b as int,
                ));
            }
        }
        let (pa, pb) = trim_range(text, start, cut);
        match parse_element(text, pa, pb) {
            None => {
                let piece = String::from_str(source.substring_char(start, cut));
                outcome = Some(Err(ParseError::InvalidElement(piece)));
            },
            Some(element) => {
                if element == 0 || element > n {
                    outcome = Some(Err(ParseError::ElementOutOfRange(element, n)));
                } else {
                    mask = with_bit(mask, element - 1);
                    if cut >= b {
                        outcome = Some(Ok(mask));
                    } else {
                        start = cut + 1;
                    }
                }
            },
        }
    }
    match outcome {
        Some(r) => r,
        None => Ok(mask),
    }
}

/// The place behind the brace that closes the group that opens at `i`,
/// within the part of `text` up to `d`; `None` where it is never closed.
fn find_group_end(text: &Vec<char>, i: usize, d: usize) -> (r: Option<usize>)
    requires
        i < d <= text@.len(),
    ensures
        match r {
            Some(j) => i + 2 <= j <= d && group_end(text@.subrange(i as int, d as int), 1, 1)
                == Some(j - i),
            None => group_end(text@.subrange(i as int, d as int), 1, 1) is None,
        },
{
    let ghost rest = text@.subrange(i as int, d as int);
    let mut j: usize = i + 1;
    let mut brace_count: usize = 1;
    while j < d && brace_count > 0
        invariant
            i < j <= d <= text@.len(),
            rest == text@.subrange(i as int, d as int),
            brace_count <= j - i,
            brace_count > 0 ==> group_end(rest, 1, 1) == group_end(
                rest,
                j - i,
                brace_count as nat,
            ),
            brace_count == 0 ==> j >= i + 2 && group_end(rest, 1, 1) == Some(j - i),
        decreases d - j,
    {
        let inner_ch: char = text[j];
        proof {
            assert(rest[j - i] == inner_ch);
        }
        if inner_ch == '{' {
            brace_count = brace_count + 1;
        } else if inner_ch == '}' {
            brace_count = brace_count - 1;
        }
        j = j + 1;
    }
    if brace_count > 0 {
        None
    } else {
        Some(j)
    }
}

/// The family that `family_str` writes over a ground set of `n` elements:
/// the sets between its outer braces, each a brace list of elements from 1
/// to `n`. White space around the text, inside the outer braces and around
/// an element does not count, nor what stands between two sets.
pub fn parse_family_str(family_str: &str, n: usize) -> (r: Result<Family, ParseError>)
    requires
        n <= 32,
    ensures
        match r {
            Ok(family) => parse_family(family_str@, n as nat) == Ok::<Set<u32>, ParseFailure>(
                family@,
            ),
            Err(e) => parse_family(family_str@, n as nat) == Err::<Set<u32>, ParseFailure>(e@),
        },
{
    let text = characters(family_str);
    let mut family: Family = BTreeSet::new();
    let (a, b) = trim_range(&text, 0, text.len());
    proof {
        assert(text@.subrange(0, text@.len() as int) =~= text@);
    }
    let ghost t = text@.subrange(a as int, b as int);
    if b - a < 2 || text[a] != '{' || text[b - 1] != '}' {
        proof {
            if t.len() >= 2 {
                assert(t.first() == text@[a as int]);
                assert(t.last() == text@[b - 1]);
            }
        }
        return Err(ParseError::MissingOuterBraces);
    }
    proof {
        assert(t.first() == text@[a as int]);
        assert(t.last() == text@[b - 1]);
        assert(t.subrange(1, t.len() - 1) =~= text@.subrange(a + 1, b - 1));
    }
    let (c, d) = trim_range(&text, a + 1, b - 1);
    let ghost inner = text@.subrange(c as int, d as int);
    let ghost whole = parse_family(family_str@, n as nat);
    assert(whole == scan_sets(inner, n as nat, Set::empty()));
    let mut i: usize = c;
    while i < d
        invariant
            n <= 32,
            text@ == family_str@,
            c <= i <= d <= text@.len(),
            whole == scan_sets(text@.subrange(i as int, d as int), n as nat, family@),
            whole == parse_family(family_str@, n as nat),
        decreases d - i,
    {
        let ghost rest = text@.subrange(i as int, d as int);
        let ch: char = text[i];
        proof {
            assert(rest.first() == ch);
            assert(rest.drop_first() =~= text@.subrange(i + 1, d as int));
        }
        if ch == '{' {
            let j: usize = match find_group_end(&text, i, d) {
                Some(j) => j,
                None => {
                    return Err(ParseError::UnbalancedBraces);
                },
            };
            proof {
                assert(rest.subrange(1, j - i - 1) =~= text@.subrange(i + 1, j - 1));
                assert(rest.subrange(j - i, rest.len() as int) =~= text@.subrange(
                    j as int,
                    d as int,
                ));
            }
            let set_mask: u32 = match parse_single_set(family_str, &text, i + 1, j - 1, n) {
                Ok(mask) => mask,
                Err(e) => {
                    return Err(e);
                },
            };
            insert_member(&mut family, set_mask);
            i = j;
        } else if ch == '}' {
            return Err(ParseError::UnbalancedBraces);
        } else {
            i = i + 1;
        }
    }
    proof {
        assert(text@.subrange(d as int, d as int) =~= Seq::<char>::empty());
    }
    Ok(family)
}

/// The elements of `mask` among the first `k`, counted from 1, in ascending
/// order.
pub open spec fn elements_upto(mask: u32, k: nat) -> Seq<u32>
    decreases k,
{
    if k == 0 {
        Seq::empty()
    } else {
        let rest = elements_upto(mask, (k - 1) as nat);
        if has_bit(mask, k - 1) {
            rest.push(k as u32)
        } else {
            rest
        }
    }
}

/// Whether the list of elements `a` is written before the list `b`: the
/// shorter list first, and of two lists of one length the one that is first
/// item by item.
pub open spec fn written_before(a: Seq<u32>, b: Seq<u32>) -> bool {
    a.len() < b.len() || (a.len() == b.len() && lex_less(a, b))
}

/// `lists` with `x` behind the lists that are not written after it.
pub open spec fn place(lists: Seq<Seq<u32>>, x: Seq<u32>) -> Seq<Seq<u32>>
    decreases lists.len(),
{
    if lists.len() == 0 {
        seq![x]
    } else if written_before(x, lists.last()) {
        place(lists.drop_last(), x).push(lists.last())
    } else {
        lists.push(x)
    }
}

/// The element lists of the subsets `q` over `n` elements, in the order in
/// which they are written.
pub open spec fn arranged(q: Seq<u32>, n: nat) -> Seq<Seq<u32>>
    decreases q.len(),
{
    if q.len() == 0 {
        Seq::empty()
    } else {
        place(arranged(q.drop_last(), n), elements_upto(q.last(), n))
    }
}

/// The elements behind the first of a list: each after a comma and a space.
pub open spec fn more_elements(e: Seq<u32>) -> Seq<char>
    decreases e.len(),
{
    if e.len() == 0 {
        Seq::empty()
    } else {
        seq![',', ' '] + decimal(e.first() as nat) + more_elements(e.drop_first())
    }
}

/// A list of elements as text, a comma and a space between two of them.
pub open spec fn render_elements(e: Seq<u32>) -> Seq<char> {
    if e.len() == 0 {
        Seq::empty()
    } else {
        decimal(e.first() as nat) + more_elements(e.drop_first())
    }
}

/// A subset as text: its elements between braces.
pub open spec fn render_set(e: Seq<u32>) -> Seq<char> {
    seq!['{'] + render_elements(e) + seq!['}']
}

/// The sets behind the first of a list: each after a comma and a space.
pub open spec fn more_sets(lists: Seq<Seq<u32>>) -> Seq<char>
    decreases lists.len(),
{
    if lists.len() == 0 {
        Seq::empty()
    } else {
        seq![',', ' '] + render_set(lists.first()) + more_sets(lists.drop_first())
    }
}

/// A list of subsets as text, a comma and a space between two of them.
pub open spec fn render_sets(lists: Seq<Seq<u32>>) -> Seq<char> {
    if lists.len() == 0 {
        Seq::empty()
    } else {
        render_set(lists.first()) + more_sets(lists.drop_first())
    }
}

/// A family over `n` elements as text: its subsets between braces, the
/// smaller before the larger and those of one size in the order of their
/// elements; `{}` for the empty family.
pub open spec fn render_family(family: Set<u32>, n: nat) -> Seq<char> {
    if family.len() == 0 {
        seq!['{', '}']
    } else {
        seq!['{'] + render_sets(arranged(sorted(family), n)) + seq!['}']
    }
}

/// One more element at the end of a list is written behind the others.
pub proof fn lemma_more_elements_push(e: Seq<u32>, x: u32)
    ensures
        more_elements(e.push(x)) == more_elements(e) + seq![',', ' '] + decimal(x as nat),
        render_elements(e.push(x)) == (if e.len() == 0 {
            decimal(x as nat)
        } else {
            render_elements(e) + seq![',', ' '] + decimal(x as nat)
        }),
    decreases e.len(),
{
    if e.len() == 0 {
        assert(e.push(x).drop_first() =~= Seq::<u32>::empty());
        assert(e.push(x).first() == x);
        assert(more_elements(e) =~= Seq::<char>::empty());
        assert(more_elements(e.push(x).drop_first()) =~= Seq::<char>::empty());
        assert(more_elements(e.push(x)) =~= more_elements(e) + seq![',', ' '] + decimal(x as nat));
        assert(render_elements(e.push(x)) =~= decimal(x as nat));
    } else {
        lemma_more_elements_push(e.drop_first(), x);
        assert(e.push(x).drop_first() =~= e.drop_first().push(x));
        assert(more_elements(e.push(x)) =~= more_elements(e) + seq![',', ' '] + decimal(x as nat));
        assert(render_elements(e.push(x)) =~= render_elements(e) + seq![',', ' '] + decimal(
            x as nat,
        ));
    }
}

/// One more set at the end of a list is written behind the others.
pub proof fn lemma_more_sets_push(lists: Seq<Seq<u32>>, x: Seq<u32>)
    ensures
        more_sets(lists.push(x)) == more_sets(lists) + seq![',', ' '] + render_set(x),
        render_sets(lists.push(x)) == (if lists.len() == 0 {
            render_set(x)
        } else {
            render_sets(lists) + seq![',', ' '] + render_set(x)
        }),
    decreases lists.len(),
{
    if lists.len() == 0 {
        assert(lists.push(x).drop_first() =~= Seq::<Seq<u32>>::empty());
        assert(lists.push(x).first() == x);
        assert(more_sets(lists) =~= Seq::<char>::empty());
        assert(more_sets(lists.push(x).drop_first()) =~= Seq::<char>::empty());
        assert(more_sets(lists.push(x)) =~= more_sets(lists) + seq![',', ' '] + render_set(x));
        assert(render_sets(lists.push(x)) =~= render_set(x));
    } else {
        lemma_more_sets_push(lists.drop_first(), x);
        assert(lists.push(x).drop_first() =~= lists.drop_first().push(x));
        assert(more_sets(lists.push(x)) =~= more_sets(lists) + seq![',', ' '] + render_set(x));
        assert(render_sets(lists.push(x)) =~= render_sets(lists) + seq![',', ' '] + render_set(x));
    }
}

/// The elements of `i` among the first `n`, counted from 1, in ascending
/// order.
pub fn int_to_set(i: u32, n: usize) -> (s: Vec<u32>)
    requires
        n <= 32,
    ensures
        s@ == elements_upto(i, n as nat),
{
    let mut s: Vec<u32> = Vec::new();
    let mut j: usize = 0;
    while j < n
        invariant
            j <= n <= 32,
            s@ == elements_upto(i, j as nat),
        decreases n - j,
    {
        if test_bit(i, j) {
            s.push((j + 1) as u32);
        }
        j = j + 1;
    }
    s
}

/// Where a list is written before the last of some lists, it goes among
/// the lists before the last.
proof fn lemma_place_suffix(lists: Seq<Seq<u32>>, x: Seq<u32>, i: int)
    requires
        0 <= i <= lists.len(),
        forall|j: int| i <= j < lists.len() ==> written_before(x, #[trigger] lists[j]),
    ensures
        place(lists, x) == place(lists.subrange(0, i), x) + lists.subrange(i, lists.len() as int),
    decreases lists.len() - i,
{
    if i == lists.len() {
        assert(lists.subrange(0, i) =~= lists);
        assert(place(lists, x) + lists.subrange(i, lists.len() as int) =~= place(lists, x));
    } else {
        let shorter = lists.drop_last();
        assert(lists.last() == lists[lists.len() - 1]);
        lemma_place_suffix(shorter, x, i);
        assert(shorter.subrange(0, i) =~= lists.subrange(0, i));
        assert((place(shorter.subrange(0, i), x) + shorter.subrange(i, shorter.len() as int)).push(
            lists.last(),
        ) =~= place(lists.subrange(0, i), x) + lists.subrange(i, lists.len() as int));
    }
}

/// The lists as sequences.
pub open spec fn list_views(v: Seq<Vec<u32>>) -> Seq<Seq<u32>> {
    Seq::new(v.len(), |i: int| v[i]@)
}

/// Puts `x` behind the lists that are not written after it.
fn place_list(lists: &mut Vec<Vec<u32>>, x: Vec<u32>)
    ensures
        list_views(final(lists)@) == place(list_views(old(lists)@), x@),
{
    let ghost before = list_views(lists@);
    let mut i: usize = lists.len();
    let mut placed = false;
    while i > 0 && !placed
        invariant
            i <= lists@.len(),
            lists@ == old(lists)@,
            before == list_views(lists@),
            placed ==> i > 0 && !written_before(x@, before[i - 1]),
            forall|j: int| i <= j < before.len() ==> written_before(x@, #[trigger] before[j]),
        decreases i + (if placed { 0int } else { 1int }),
    {
        let other = &lists[i - 1];
        proof {
            assert(before[i - 1] == other@);
        }
        let before_other = if x.len() != other.len() {
            x.len() < other.len()
        } else {
            match compare_members(&x, other) {
                Order::Before => true,
                _ => false,
            }
        };
        if before_other {
            i = i - 1;
        } else {
            placed = true;
        }
    }
    proof {
        lemma_place_suffix(before, x@, i as int);
        let prefix = before.subrange(0, i as int);
        if i > 0 {
            assert(prefix.last() == before[i - 1]);
        }
        assert(place(prefix, x@) == prefix.push(x@));
    }
    lists.insert(i, x);
    proof {
        let prefix = before.subrange(0, i as int);
        assert(list_views(lists@) =~= prefix.push(x@) + before.subrange(
            i as int,
            before.len() as int,
        ));
    }
}

/// The text of the family `family` over `n` elements: its subsets between
/// braces, the smaller before the larger and those of one size in the order
/// of their elements; `{}` for the empty family.
pub fn family_to_str(family: &Family, n: usize) -> (out: String)
    requires
        n <= 32,
    ensures
        out@ == render_family(family@, n as nat),
{
    proof {
        reveal_strlit("{}");
        reveal_strlit("{");
        reveal_strlit("}");
        reveal_strlit(", ");
    }
    let sorted_ints = members(family);
    if sorted_ints.len() == 0 {
        let out = String::from_str("{}");
        assert(out@ =~= seq!['{', '}']);
        return out;
    }
    let mut set_list: Vec<Vec<u32>> = Vec::new();
    let mut i: usize = 0;
    proof {
        assert(list_views(set_list@) =~= arranged(sorted_ints@.subrange(0, 0), n as nat));
    }
    while i < sorted_ints.len()
        invariant
            n <= 32,
            i <= sorted_ints@.len(),
            list_views(set_list@) == arranged(sorted_ints@.subrange(0, i as int), n as nat),
        decreases sorted_ints@.len() - i,
    {
        let set = int_to_set(sorted_ints[i], n);
        proof {
            let longer = sorted_ints@.subrange(0, i + 1);
            assert(longer.drop_last() =~= sorted_ints@.subrange(0, i as int));
            assert(longer.last() == sorted_ints@[i as int]);
        }
        place_list(&mut set_list, set);
        i = i + 1;
    }
    proof {
        assert(sorted_ints@.subrange(0, sorted_ints@.len() as int) =~= sorted_ints@);
    }
    let ghost lists = list_views(set_list@);
    let mut out = String::from_str("{");
    let mut k: usize = 0;
    proof {
        assert(out@ =~= seq!['{'] + render_sets(lists.subrange(0, 0)));
    }
    while k < set_list.len()
        invariant
            k <= set_list@.len(),
            lists == list_views(set_list@),
            out@ == seq!['{'] + render_sets(lists.subrange(0, k as int)),
            ", "@ == seq![',', ' '],
            "{"@ == seq!['{'],
            "}"@ == seq!['}'],
        decreases set_list@.len() - k,
    {
        if k > 0 {
            out.append(", ");
        }
        out.append("{");
        let ghost opened = out@;
        let set = &set_list[k];
        let mut e: usize = 0;
        proof {
            assert(set@.subrange(0, 0) =~= Seq::<u32>::empty());
            assert(out@ =~= opened + render_elements(set@.subrange(0, 0)));
        }
        while e < set.len()
            invariant
                e <= set@.len(),
                out@ == opened + render_elements(set@.subrange(0, e as int)),
                ", "@ == seq![',', ' '],
            decreases set@.len() - e,
        {
            let ghost done = set@.subrange(0, e as int);
            if e > 0 {
                out.append(", ");
            }
            push_decimal(&mut out, set[e] as usize);
            proof {
                lemma_more_elements_push(done, set@[e as int]);
                assert(set@.subrange(0, e + 1) =~= done.push(set@[e as int]));
                assert(out@ =~= opened + render_elements(set@.subrange(0, e + 1)));
            }
            e = e + 1;
        }
        out.append("}");
        proof {
            assert(set@.subrange(0, set@.len() as int) =~= set@);
            let done = lists.subrange(0, k as int);
            lemma_more_sets_push(done, set@);
            assert(lists.subrange(0, k + 1) =~= done.push(set@));
            assert(lists[k as int] == set@);
            assert(out@ =~= seq!['{'] + render_sets(lists.subrange(0, k + 1)));
        }
        k = k + 1;
    }
    out.append("}");
    proof {
        assert(lists.subrange(0, lists.len() as int) =~= lists);
    }
    out
}

/// One more than the largest element, counted from 0, that a member of
/// `family` holds; 0 where no member holds an element.
pub open spec fn inferred_size(family: Set<u32>) -> nat {
    size_upto(family, 32)
}

/// The largest `k` up to `bound` such that a member of `family` holds the
/// element `k - 1`; 0 where there is none.
pub open spec fn size_upto(family: Set<u32>, bound: nat) -> nat
    decreases bound,
{
    if bound == 0 {
        0
    } else if exists|x: u32| family.contains(x) && has_bit(x, bound - 1) {
        bound
    } else {
        size_upto(family, (bound - 1) as nat)
    }
}

/// The least size of a ground set that holds every member of `family`: one
/// more than the largest element, counted from 0, of a member; 0 where no
/// member holds an element.
pub fn infer_size_from_family(family: &Family) -> (size: usize)
    ensures
        size == inferred_size(family@),
        size <= 32,
{
    let listed = members(family);
    let mut bound: usize = 32;
    while bound > 0
        invariant
            bound <= 32,
            listed@.to_set() == family@,
            inferred_size(family@) == size_upto(family@, bound as nat),
        decreases bound,
    {
        let mut k: usize = 0;
        let mut seen = false;
        while k < listed.len() && !seen
            invariant
                1 <= bound <= 32,
                k <= listed@.len(),
                listed@.to_set() == family@,
                seen ==> exists|x: u32| family@.contains(x) && has_bit(x, bound - 1),
                !seen ==> forall|j: int| 0 <= j < k ==> !has_bit(#[trigger] listed@[j], bound - 1),
            decreases listed@.len() - k + (if seen { 0int } else { 1int }),
        {
            if test_bit(listed[k], bound - 1) {
                seen = true;
                proof {
                    assert(listed@.to_set().contains(listed@[k as int]));
                }
            } else {
                k = k + 1;
            }
        }
        if seen {
            return bound;
        }
        proof {
            assert forall|x: u32| family@.contains(x) implies !has_bit(x, bound - 1) by {
                assert(listed@.contains(x));
                let j = choose|j: int| 0 <= j < listed@.len() && listed@[j] == x;
                assert(!has_bit(listed@[j], bound - 1));
            }
        }
        bound = bound - 1;
    }
    0
}

} // verus!

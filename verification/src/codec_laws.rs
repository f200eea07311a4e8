//! What is written can be read: the text of a family over `n` elements
//! parses to the family. And how it is written: the sets in their order,
//! and the size that a family needs.

use crate::bits::{
    below, has_bit, lemma_has_bit_insert, lemma_has_bit_zero, lemma_masks_equal, single_bit,
};
use crate::codec::{
    all_digits, arranged, digit_value, element_value, elements_upto, first_comma, group_end,
    is_digit, is_space, more_elements, more_sets, number, parse_elements, parse_family, parse_set,
    place, render_elements, render_family, render_set, render_sets, scan_sets, trim, trim_start,
    unsigned, ParseFailure,
};
use crate::codec::{inferred_size, size_upto, written_before};
use crate::family::{lemma_sorted_exists, sorted, within};
use crate::order_laws::{lemma_lex_irreflexive, lemma_lex_total, lemma_lex_transitive};
use crate::text::{decimal, digit_char};
use vstd::prelude::*;

verus! {

/// Whether `c` can stand in the text of a list of elements.
pub open spec fn is_plain(c: char) -> bool {
    is_digit(c) || c == ',' || c == ' '
}

/// Whether every character of `s` can stand in the text of a list of
/// elements.
pub open spec fn all_plain(s: Seq<char>) -> bool {
    forall|i: int| 0 <= i < s.len() ==> is_plain(#[trigger] s[i])
}

/// Whether every item of `e` is an element of a ground set of `n` elements.
pub open spec fn all_elements(e: Seq<u32>, n: nat) -> bool {
    forall|i: int| 0 <= i < e.len() ==> 1 <= #[trigger] e[i] <= n
}

/// Whether `v` is an item of `e`.
pub open spec fn lists_element(e: Seq<u32>, v: int) -> bool {
    exists|i: int| 0 <= i < e.len() && e[i] == v
}

/// The subset that holds the members of `mask` and the elements `e`.
pub open spec fn mask_with(e: Seq<u32>, mask: u32) -> u32
    decreases e.len(),
{
    if e.len() == 0 {
        mask
    } else {
        mask_with(e.drop_first(), mask | single_bit(e.first() - 1))
    }
}

/// The family that holds the members of `found` and the subsets that the
/// lists of elements `lists` stand for.
pub open spec fn masks_of(lists: Seq<Seq<u32>>, found: Set<u32>) -> Set<u32>
    decreases lists.len(),
{
    if lists.len() == 0 {
        found
    } else {
        masks_of(lists.drop_first(), found.insert(mask_with(lists.first(), 0u32)))
    }
}

/// A digit is a digit with its own value, and nothing else.
pub proof fn lemma_digit_char(d: nat)
    requires
        d < 10,
    ensures
        is_digit(digit_char(d)),
        digit_value(digit_char(d)) == d,
        !is_space(digit_char(d)),
        digit_char(d) != ',',
        digit_char(d) != '+',
        digit_char(d) != '{',
        digit_char(d) != '}',
{
}

/// A digit is no white space, comma, plus sign or brace.
pub proof fn lemma_digit_is_plain(c: char)
    requires
        is_digit(c),
    ensures
        !is_space(c),
        c != ',',
        c != '+',
        c != '{',
        c != '}',
{
}

/// The decimal digits of a number are digits, at least one, and write the
/// number.
pub proof fn lemma_decimal(v: nat)
    ensures
        decimal(v).len() >= 1,
        all_digits(decimal(v)),
        number(decimal(v)) == v,
    decreases v,
{
    if v < 10 {
        lemma_digit_char(v);
        let s = decimal(v);
        assert(s.drop_last() =~= Seq::<char>::empty());
        assert(number(s.drop_last()) == 0);
    } else {
        lemma_decimal(v / 10);
        lemma_digit_char(v % 10);
        let s = decimal(v);
        assert(s.drop_last() =~= decimal(v / 10));
        assert(s.last() == digit_char(v % 10));
        assert forall|i: int| 0 <= i < s.len() implies is_digit(#[trigger] s[i]) by {
            if i < s.len() - 1 {
                assert(s[i] == decimal(v / 10)[i]);
            }
        }
    }
}

/// Text that starts and ends with a character that is no white space is
/// trimmed already.
pub proof fn lemma_trim_identity(s: Seq<char>)
    requires
        s.len() == 0 || (!is_space(s.first()) && !is_space(s.last())),
    ensures
        trim(s) == s,
{
}

/// A space before digits is trimmed away.
pub proof fn lemma_trim_padded(d: Seq<char>)
    requires
        d.len() >= 1,
        all_digits(d),
    ensures
        trim(seq![' '] + d) == d,
        trim(d) == d,
{
    let padded = seq![' '] + d;
    assert(padded.first() == ' ');
    assert(padded.drop_first() =~= d);
    lemma_digit_is_plain(d.first());
    lemma_digit_is_plain(d.last());
    assert(trim_start(padded) == trim_start(d));
}

/// The place of the first comma of a text that has none before a comma.
pub proof fn lemma_first_comma_at(a: Seq<char>, b: Seq<char>)
    requires
        forall|i: int| 0 <= i < a.len() ==> a[i] != ',',
        b.len() == 0 || b.first() == ',',
    ensures
        first_comma(a + b) == a.len(),
    decreases a.len(),
{
    if a.len() == 0 {
        assert(a + b =~= b);
    } else {
        assert((a + b).first() == a.first());
        assert((a + b).drop_first() =~= a.drop_first() + b);
        assert forall|i: int| 0 <= i < a.drop_first().len() implies a.drop_first()[i] != ',' by {
            assert(a.drop_first()[i] == a[i + 1]);
        }
        lemma_first_comma_at(a.drop_first(), b);
    }
}

/// The text of a list of elements holds digits, commas and spaces only.
pub proof fn lemma_elements_plain(e: Seq<u32>)
    ensures
        all_plain(more_elements(e)),
        all_plain(render_elements(e)),
        e.len() > 0 ==> render_elements(e).len() > 0 && is_digit(render_elements(e).first())
            && is_digit(render_elements(e).last()),
        e.len() > 0 ==> more_elements(e).len() > 0 && more_elements(e).first() == ','
            && is_digit(more_elements(e).last()),
    decreases e.len(),
{
    if e.len() > 0 {
        lemma_elements_plain(e.drop_first());
        lemma_decimal(e.first() as nat);
        let d = decimal(e.first() as nat);
        let rest = more_elements(e.drop_first());
        let m = seq![',', ' '] + d + rest;
        assert(more_elements(e) == m);
        assert forall|i: int| 0 <= i < m.len() implies is_plain(#[trigger] m[i]) by {
            if i < 2 {
            } else if i < 2 + d.len() {
                assert(m[i] == d[i - 2]);
            } else {
                assert(m[i] == rest[i - 2 - d.len()]);
            }
        }
        let r = d + rest;
        assert(render_elements(e) == r);
        assert forall|i: int| 0 <= i < r.len() implies is_plain(#[trigger] r[i]) by {
            if i < d.len() {
                assert(r[i] == d[i]);
            } else {
                assert(r[i] == rest[i - d.len()]);
            }
        }
        assert(r.first() == d.first());
        assert(m.first() == ',');
        if e.drop_first().len() > 0 {
            assert(r.last() == rest.last());
            assert(m.last() == rest.last());
        } else {
            assert(rest =~= Seq::<char>::empty());
            assert(r.last() == d.last());
            assert(m.last() == d.last());
        }
    }
}

/// The elements of a written list are read one after the other.
pub proof fn lemma_parse_rendered_elements(pad: Seq<char>, e: Seq<u32>, n: nat, mask: u32)
    requires
        pad.len() == 0 || pad == seq![' '],
        e.len() > 0,
        all_elements(e, n),
        n <= 32,
    ensures
        parse_elements(pad + decimal(e.first() as nat) + more_elements(e.drop_first()), n, mask)
            == Ok::<u32, ParseFailure>(mask_with(e, mask)),
    decreases e.len(),
{
    let v = e.first();
    let d = decimal(v as nat);
    let rest = e.drop_first();
    let tail = more_elements(rest);
    let text = pad + d + tail;
    lemma_decimal(v as nat);
    lemma_elements_plain(rest);
    let head = pad + d;
    assert forall|i: int| 0 <= i < head.len() implies head[i] != ',' by {
        if i >= pad.len() {
            assert(head[i] == d[i - pad.len()]);
            lemma_digit_is_plain(d[i - pad.len()]);
        }
    }
    lemma_first_comma_at(head, tail);
    assert(text =~= head + tail);
    let cut = first_comma(text);
    assert(cut == head.len());
    let piece = text.subrange(0, cut);
    assert(piece =~= head);
    lemma_trim_padded(d);
    if pad.len() == 0 {
        assert(head =~= d);
    }
    assert(trim(piece) == d);
    lemma_digit_is_plain(d.first());
    assert(unsigned(d) == d);
    assert(element_value(d) == Some(v as usize));
    let more = mask | single_bit(v - 1);
    if rest.len() == 0 {
        assert(tail =~= Seq::<char>::empty());
        assert(cut >= text.len());
        assert(mask_with(rest, more) == more);
    } else {
        let next = rest.first();
        let after = text.subrange(cut + 1, text.len() as int);
        assert(tail == seq![',', ' '] + decimal(next as nat) + more_elements(rest.drop_first()));
        assert(after =~= seq![' '] + decimal(next as nat) + more_elements(rest.drop_first()));
        assert forall|i: int| 0 <= i < rest.len() implies 1 <= #[trigger] rest[i] <= n by {
            assert(rest[i] == e[i + 1]);
        }
        lemma_parse_rendered_elements(seq![' '], rest, n, more);
    }
}

/// The members of `mask_with`.
pub proof fn lemma_mask_with_bits(e: Seq<u32>, mask: u32)
    requires
        all_elements(e, 32),
    ensures
        forall|j: int|
            has_bit(mask_with(e, mask), j) == (has_bit(mask, j) || exists|i: int|
                0 <= i < e.len() && e[i] == j + 1),
    decreases e.len(),
{
    if e.len() > 0 {
        let more = mask | single_bit(e.first() - 1);
        let rest = e.drop_first();
        assert forall|i: int| 0 <= i < rest.len() implies 1 <= #[trigger] rest[i] <= 32 by {
            assert(rest[i] == e[i + 1]);
        }
        lemma_mask_with_bits(rest, more);
        assert forall|j: int|
            has_bit(mask_with(e, mask), j) == (has_bit(mask, j) || exists|i: int|
                0 <= i < e.len() && e[i] == j + 1) by {
            lemma_has_bit_insert(mask, e.first() - 1, j);
            if exists|i: int| 0 <= i < rest.len() && rest[i] == j + 1 {
                let i = choose|i: int| 0 <= i < rest.len() && rest[i] == j + 1;
                assert(e[i + 1] == j + 1);
            }
            if exists|i: int| 0 <= i < e.len() && e[i] == j + 1 {
                let i = choose|i: int| 0 <= i < e.len() && e[i] == j + 1;
                if i > 0 {
                    assert(rest[i - 1] == j + 1);
                }
            }
        }
    }
}

/// The elements of a subset among the first `k`.
pub proof fn lemma_elements_upto(mask: u32, k: nat)
    requires
        k <= 32,
    ensures
        all_elements(elements_upto(mask, k), k),
        forall|v: int|
            #[trigger] lists_element(elements_upto(mask, k), v) == (1 <= v <= k && has_bit(
                mask,
                v - 1,
            )),
    decreases k,
{
    if k > 0 {
        lemma_elements_upto(mask, (k - 1) as nat);
        let rest = elements_upto(mask, (k - 1) as nat);
        let all = elements_upto(mask, k);
        assert forall|v: int| #[trigger] lists_element(all, v) == (1 <= v <= k && has_bit(
            mask,
            v - 1,
        )) by {
            if lists_element(all, v) {
                let i = choose|i: int| 0 <= i < all.len() && all[i] == v;
                if i < rest.len() {
                    assert(rest[i] == v);
                    assert(lists_element(rest, v));
                }
            }
            if 1 <= v <= k && has_bit(mask, v - 1) {
                if v == k {
                    assert(all[all.len() - 1] == v);
                } else {
                    assert(lists_element(rest, v));
                    let i = choose|i: int| 0 <= i < rest.len() && rest[i] == v;
                    assert(all[i] == v);
                }
            }
        }
        assert forall|i: int| 0 <= i < all.len() implies 1 <= #[trigger] all[i] <= k by {
            if i < rest.len() {
                assert(all[i] == rest[i]);
            }
        }
    } else {
        assert forall|v: int| #[trigger] lists_element(elements_upto(mask, k), v) == (1 <= v <= k
            && has_bit(mask, v - 1)) by {}
    }
}

/// The elements of a subset of the first `n` elements stand for the subset.
pub proof fn lemma_mask_of_elements(mask: u32, n: nat)
    requires
        n <= 32,
        below(mask, n),
    ensures
        mask_with(elements_upto(mask, n), 0u32) == mask,
{
    let e = elements_upto(mask, n);
    lemma_elements_upto(mask, n);
    assert forall|i: int| 0 <= i < e.len() implies 1 <= #[trigger] e[i] <= 32 by {}
    lemma_mask_with_bits(e, 0u32);
    let back = mask_with(e, 0u32);
    assert forall|j: int| 0 <= j < 32 implies has_bit(back, j) == has_bit(mask, j) by {
        lemma_has_bit_zero(j);
        assert(lists_element(e, j + 1) == (1 <= j + 1 <= n && has_bit(mask, j + 1 - 1)));
    }
    lemma_masks_equal(back, mask);
}

/// What stands between the braces of a written set reads as the set.
pub proof fn lemma_parse_rendered_set(e: Seq<u32>, n: nat)
    requires
        all_elements(e, n),
        n <= 32,
    ensures
        parse_set(render_elements(e), n) == Ok::<u32, ParseFailure>(mask_with(e, 0u32)),
{
    let text = render_elements(e);
    if e.len() == 0 {
        assert(trim(text) == text);
    } else {
        lemma_elements_plain(e);
        lemma_digit_is_plain(text.first());
        lemma_digit_is_plain(text.last());
        lemma_trim_identity(text);
        lemma_parse_rendered_elements(Seq::empty(), e, n, 0u32);
        assert(Seq::<char>::empty() + decimal(e.first() as nat) + more_elements(e.drop_first())
            =~= text);
    }
}

/// A group with no brace inside ends at the first closing brace.
pub proof fn lemma_group_end_plain(s: Seq<char>, i: int, close: int)
    requires
        0 <= i <= close < s.len(),
        forall|k: int| i <= k < close ==> s[k] != '{' && s[k] != '}',
        s[close] == '}',
    ensures
        group_end(s, i, 1) == Some(close + 1),
    decreases close - i,
{
    if i < close {
        lemma_group_end_plain(s, i + 1, close);
    }
}

/// The written sets are read one after the other.
pub proof fn lemma_scan_rendered_sets(lists: Seq<Seq<u32>>, n: nat, found: Set<u32>)
    requires
        lists.len() > 0,
        forall|i: int| 0 <= i < lists.len() ==> all_elements(#[trigger] lists[i], n),
        n <= 32,
    ensures
        scan_sets(render_set(lists.first()) + more_sets(lists.drop_first()), n, found) == Ok::<
            Set<u32>,
            ParseFailure,
        >(masks_of(lists, found)),
    decreases lists.len(),
{
    let first = lists.first();
    let rest = lists.drop_first();
    let body = render_elements(first);
    let set_text = render_set(first);
    let tail = more_sets(rest);
    let text = set_text + tail;
    lemma_elements_plain(first);
    assert(set_text =~= seq!['{'] + body + seq!['}']);
    assert(text.first() == '{');
    assert forall|k: int| 1 <= k < 1 + body.len() implies text[k] != '{' && text[k] != '}' by {
        assert(text[k] == body[k - 1]);
        assert(is_plain(body[k - 1]));
    }
    let close: int = (body.len() + 1) as int;
    assert(text[close] == '}');
    lemma_group_end_plain(text, 1, close);
    let end: int = close + 1;
    assert(text.subrange(1, end - 1) =~= body);
    assert(all_elements(lists[0], n));
    lemma_parse_rendered_set(first, n);
    let grown = found.insert(mask_with(first, 0u32));
    let after = text.subrange(end, text.len() as int);
    assert(after =~= tail);
    if rest.len() == 0 {
        assert(tail =~= Seq::<char>::empty());
        assert(masks_of(rest, grown) == grown);
    } else {
        let next = render_set(rest.first()) + more_sets(rest.drop_first());
        assert(tail == seq![',', ' '] + render_set(rest.first()) + more_sets(rest.drop_first()));
        assert(tail.first() == ',');
        assert(tail.drop_first().first() == ' ');
        assert(tail.drop_first().drop_first() =~= next);
        assert(scan_sets(tail, n, grown) == scan_sets(tail.drop_first(), n, grown));
        assert(scan_sets(tail.drop_first(), n, grown) == scan_sets(next, n, grown));
        assert forall|i: int| 0 <= i < rest.len() implies all_elements(#[trigger] rest[i], n) by {
            assert(rest[i] == lists[i + 1]);
        }
        lemma_scan_rendered_sets(rest, n, grown);
    }
}

/// Whether `m` is the subset that one of the lists stands for.
pub open spec fn stands_for(lists: Seq<Seq<u32>>, m: u32) -> bool {
    exists|i: int| 0 <= i < lists.len() && m == mask_with(lists[i], 0u32)
}

/// Whether `l` is one of the lists.
pub open spec fn is_listed(lists: Seq<Seq<u32>>, l: Seq<u32>) -> bool {
    exists|i: int| 0 <= i < lists.len() && lists[i] == l
}

/// Whether `l` lists the elements of one of the subsets `q`.
pub open spec fn lists_one_of(q: Seq<u32>, n: nat, l: Seq<u32>) -> bool {
    exists|i: int| 0 <= i < q.len() && l == elements_upto(q[i], n)
}

/// The subsets that some lists stand for, with those found before.
pub proof fn lemma_masks_of(lists: Seq<Seq<u32>>, found: Set<u32>)
    ensures
        forall|m: u32|
            #[trigger] masks_of(lists, found).contains(m) == (found.contains(m) || stands_for(
                lists,
                m,
            )),
    decreases lists.len(),
{
    if lists.len() > 0 {
        let grown = found.insert(mask_with(lists.first(), 0u32));
        let rest = lists.drop_first();
        lemma_masks_of(rest, grown);
        assert forall|m: u32|
            #[trigger] masks_of(lists, found).contains(m) == (found.contains(m) || stands_for(
                lists,
                m,
            )) by {
            assert(masks_of(lists, found).contains(m) == masks_of(rest, grown).contains(m));
            if stands_for(rest, m) {
                let i = choose|i: int| 0 <= i < rest.len() && m == mask_with(rest[i], 0u32);
                assert(m == mask_with(lists[i + 1], 0u32));
                assert(stands_for(lists, m));
            }
            if stands_for(lists, m) {
                let i = choose|i: int| 0 <= i < lists.len() && m == mask_with(lists[i], 0u32);
                if i > 0 {
                    assert(m == mask_with(rest[i - 1], 0u32));
                    assert(stands_for(rest, m));
                }
            }
            if grown.contains(m) && !found.contains(m) {
                assert(m == mask_with(lists[0], 0u32));
                assert(stands_for(lists, m));
            }
        }
    } else {
        assert forall|m: u32|
            #[trigger] masks_of(lists, found).contains(m) == (found.contains(m) || stands_for(
                lists,
                m,
            )) by {}
    }
}

/// A list that is put in its place is there, beside the lists that were.
pub proof fn lemma_place_items(lists: Seq<Seq<u32>>, x: Seq<u32>)
    ensures
        place(lists, x).len() == lists.len() + 1,
        forall|l: Seq<u32>| #[trigger] is_listed(place(lists, x), l) == (is_listed(lists, l) || l == x),
    decreases lists.len(),
{
    let placed = place(lists, x);
    if lists.len() == 0 {
        assert(placed[0] == x);
        assert forall|l: Seq<u32>| #[trigger] is_listed(placed, l) == (is_listed(lists, l) || l
            == x) by {}
    } else if written_before(x, lists.last()) {
        let shorter = lists.drop_last();
        lemma_place_items(shorter, x);
        let inner = place(shorter, x);
        assert(placed == inner.push(lists.last()));
        assert forall|l: Seq<u32>| #[trigger] is_listed(placed, l) == (is_listed(lists, l) || l
            == x) by {
            if is_listed(placed, l) {
                let i = choose|i: int| 0 <= i < placed.len() && placed[i] == l;
                if i < inner.len() {
                    assert(inner[i] == l);
                    assert(is_listed(inner, l));
                    if is_listed(shorter, l) {
                        let k = choose|k: int| 0 <= k < shorter.len() && shorter[k] == l;
                        assert(lists[k] == l);
                    }
                } else {
                    assert(lists[lists.len() - 1] == l);
                }
            }
            if is_listed(lists, l) {
                let k = choose|k: int| 0 <= k < lists.len() && lists[k] == l;
                if k < shorter.len() {
                    assert(shorter[k] == l);
                    assert(is_listed(shorter, l));
                    assert(is_listed(inner, l));
                    let i = choose|i: int| 0 <= i < inner.len() && inner[i] == l;
                    assert(placed[i] == l);
                } else {
                    assert(placed[placed.len() - 1] == l);
                }
            }
            if l == x {
                assert(is_listed(inner, x));
                let i = choose|i: int| 0 <= i < inner.len() && inner[i] == x;
                assert(placed[i] == x);
            }
        }
    } else {
        assert(placed == lists.push(x));
        assert forall|l: Seq<u32>| #[trigger] is_listed(placed, l) == (is_listed(lists, l) || l
            == x) by {
            if is_listed(placed, l) {
                let i = choose|i: int| 0 <= i < placed.len() && placed[i] == l;
                if i < lists.len() {
                    assert(lists[i] == l);
                }
            }
            if is_listed(lists, l) {
                let k = choose|k: int| 0 <= k < lists.len() && lists[k] == l;
                assert(placed[k] == l);
            }
            if l == x {
                assert(placed[lists.len() as int] == x);
            }
        }
    }
}

/// The lists that are written for some subsets are the lists of the
/// elements of these subsets.
pub proof fn lemma_arranged_items(q: Seq<u32>, n: nat)
    ensures
        arranged(q, n).len() == q.len(),
        forall|l: Seq<u32>| #[trigger] is_listed(arranged(q, n), l) == lists_one_of(q, n, l),
    decreases q.len(),
{
    if q.len() > 0 {
        let shorter = q.drop_last();
        lemma_arranged_items(shorter, n);
        let x = elements_upto(q.last(), n);
        lemma_place_items(arranged(shorter, n), x);
        assert forall|l: Seq<u32>| #[trigger] is_listed(arranged(q, n), l) == lists_one_of(
            q,
            n,
            l,
        ) by {
            assert(is_listed(arranged(q, n), l) == (is_listed(arranged(shorter, n), l) || l == x));
            assert(is_listed(arranged(shorter, n), l) == lists_one_of(shorter, n, l));
            if lists_one_of(shorter, n, l) {
                let i = choose|i: int| 0 <= i < shorter.len() && l == elements_upto(shorter[i], n);
                assert(l == elements_upto(q[i], n));
            }
            if lists_one_of(q, n, l) {
                let i = choose|i: int| 0 <= i < q.len() && l == elements_upto(q[i], n);
                if i < shorter.len() {
                    assert(l == elements_upto(shorter[i], n));
                }
            }
            if l == x {
                assert(l == elements_upto(q[q.len() - 1], n));
            }
        }
    } else {
        assert forall|l: Seq<u32>| #[trigger] is_listed(arranged(q, n), l) == lists_one_of(
            q,
            n,
            l,
        ) by {}
    }
}

/// The text of written sets ends with a closing brace.
pub proof fn lemma_sets_text_ends(lists: Seq<Seq<u32>>)
    requires
        lists.len() > 0,
    ensures
        render_sets(lists).len() >= 2,
        render_sets(lists).first() == '{',
        render_sets(lists).last() == '}',
        more_sets(lists).len() >= 2,
        more_sets(lists).last() == '}',
    decreases lists.len(),
{
    let first = render_set(lists.first());
    assert(first =~= seq!['{'] + render_elements(lists.first()) + seq!['}']);
    assert(first.last() == '}');
    assert(first.first() == '{');
    let rest = lists.drop_first();
    if rest.len() > 0 {
        lemma_sets_text_ends(rest);
        assert(render_sets(lists).last() == more_sets(rest).last());
        assert(more_sets(lists).last() == more_sets(rest).last());
    } else {
        assert(more_sets(rest) =~= Seq::<char>::empty());
        assert(render_sets(lists) =~= first);
        assert(more_sets(lists) =~= seq![',', ' '] + first);
        assert(more_sets(lists).last() == first.last());
    }
    assert(render_sets(lists).first() == first.first());
}

/// The text of a family over `n` elements reads as the family.
pub proof fn lemma_render_then_parse(family: Set<u32>, n: nat)
    requires
        n <= 32,
        within(family, n),
    ensures
        parse_family(render_family(family, n), n) == Ok::<Set<u32>, ParseFailure>(family),
{
    lemma_sorted_exists(family);
    let text = render_family(family, n);
    if family.len() == 0 {
        assert(family =~= Set::<u32>::empty());
        assert(text == seq!['{', '}']);
        lemma_trim_identity(text);
        assert(text.subrange(1, text.len() - 1) =~= Seq::<char>::empty());
        lemma_trim_identity(Seq::<char>::empty());
    } else {
        let q = sorted(family);
        let lists = arranged(q, n);
        lemma_arranged_items(q, n);
        lemma_sets_text_ends(lists);
        let body = render_sets(lists);
        assert(text =~= seq!['{'] + body + seq!['}']);
        assert(text.first() == '{');
        assert(text.last() == '}');
        lemma_trim_identity(text);
        assert(text.subrange(1, text.len() - 1) =~= body);
        lemma_trim_identity(body);
        assert forall|i: int| 0 <= i < lists.len() implies all_elements(
            #[trigger] lists[i],
            n,
        ) by {
            assert(is_listed(lists, lists[i]));
            assert(lists_one_of(q, n, lists[i]));
            let k = choose|k: int| 0 <= k < q.len() && lists[i] == elements_upto(q[k], n);
            lemma_elements_upto(q[k], n);
        }
        lemma_scan_rendered_sets(lists, n, Set::empty());
        lemma_masks_of(lists, Set::empty());
        let read = masks_of(lists, Set::empty());
        assert forall|m: u32| read.contains(m) == family.contains(m) by {
            if read.contains(m) {
                assert(stands_for(lists, m));
                let i = choose|i: int| 0 <= i < lists.len() && m == mask_with(lists[i], 0u32);
                assert(is_listed(lists, lists[i]));
                assert(lists_one_of(q, n, lists[i]));
                let k = choose|k: int| 0 <= k < q.len() && lists[i] == elements_upto(q[k], n);
                assert(q.to_set().contains(q[k]));
                lemma_mask_of_elements(q[k], n);
            }
            if family.contains(m) {
                assert(q.to_set().contains(m));
                assert(q.contains(m));
                let k = choose|k: int| 0 <= k < q.len() && q[k] == m;
                assert(lists_one_of(q, n, elements_upto(q[k], n)));
                assert(is_listed(lists, elements_upto(q[k], n)));
                let i = choose|i: int| 0 <= i < lists.len() && lists[i] == elements_upto(q[k], n);
                lemma_mask_of_elements(m, n);
                assert(m == mask_with(lists[i], 0u32));
                assert(stands_for(lists, m));
            }
        }
        assert(read =~= family);
    }
}

/// Whether no list of `lists` is written before a list that stands before
/// it.
pub open spec fn in_written_order(lists: Seq<Seq<u32>>) -> bool {
    forall|i: int, j: int| 0 <= i < j < lists.len() ==> !written_before(lists[j], lists[i])
}

/// Of two lists that neither is written before, the other is not written
/// before a third where the third is not written before the one.
pub proof fn lemma_not_written_before(x: Seq<u32>, l: Seq<u32>, e: Seq<u32>)
    requires
        !written_before(x, l),
        !written_before(l, e),
    ensures
        !written_before(x, e),
{
    lemma_lex_total(x, l);
    lemma_lex_total(l, e);
    lemma_lex_total(x, e);
    lemma_lex_irreflexive(x);
    lemma_lex_irreflexive(l);
    if written_before(x, e) {
        if x.len() == l.len() && l.len() == e.len() {
            if x != l && l != e {
                assert(crate::family::lex_less(l, x));
                assert(crate::family::lex_less(e, l));
                lemma_lex_transitive(e, l, x);
                assert(crate::family::lex_less(e, x));
                assert(false);
            }
        }
    }
}

/// A list that is put in its place keeps the lists in the order in which
/// they are written.
pub proof fn lemma_place_ordered(lists: Seq<Seq<u32>>, x: Seq<u32>)
    requires
        in_written_order(lists),
    ensures
        in_written_order(place(lists, x)),
    decreases lists.len(),
{
    let placed = place(lists, x);
    if lists.len() == 0 {
    } else if written_before(x, lists.last()) {
        let shorter = lists.drop_last();
        let last = lists.last();
        assert forall|i: int, j: int| 0 <= i < j < shorter.len() implies !written_before(
            shorter[j],
            shorter[i],
        ) by {
            assert(!written_before(lists[j], lists[i]));
        }
        lemma_place_ordered(shorter, x);
        lemma_place_items(shorter, x);
        let inner = place(shorter, x);
        assert(placed == inner.push(last));
        lemma_lex_total(x, last);
        assert forall|i: int, j: int| 0 <= i < j < placed.len() implies !written_before(
            placed[j],
            placed[i],
        ) by {
            if j == inner.len() {
                assert(placed[i] == inner[i]);
                assert(is_listed(inner, inner[i]));
                if inner[i] != x {
                    assert(is_listed(shorter, inner[i]));
                    let k = choose|k: int| 0 <= k < shorter.len() && shorter[k] == inner[i];
                    assert(!written_before(lists[lists.len() - 1], lists[k]));
                }
            } else {
                assert(!written_before(inner[j], inner[i]));
            }
        }
    } else {
        assert(placed == lists.push(x));
        assert forall|i: int, j: int| 0 <= i < j < placed.len() implies !written_before(
            placed[j],
            placed[i],
        ) by {
            if j == lists.len() {
                let last = lists.last();
                if i < lists.len() - 1 {
                    assert(!written_before(lists[lists.len() - 1], lists[i]));
                } else {
                    lemma_lex_irreflexive(last);
                }
                lemma_not_written_before(x, last, lists[i]);
            } else {
                assert(!written_before(lists[j], lists[i]));
            }
        }
    }
}

/// The lists that are written for some subsets stand in the order in which
/// they are written: the shorter before the longer, and those of one length
/// in the order of their elements.
pub proof fn lemma_arranged_ordered(q: Seq<u32>, n: nat)
    ensures
        in_written_order(arranged(q, n)),
    decreases q.len(),
{
    if q.len() > 0 {
        lemma_arranged_ordered(q.drop_last(), n);
        lemma_place_ordered(arranged(q.drop_last(), n), elements_upto(q.last(), n));
    }
}

/// Whether a member of `family` holds the element `j`, counted from 0.
pub open spec fn holds_element(family: Set<u32>, j: int) -> bool {
    exists|x: u32| family.contains(x) && has_bit(x, j)
}

/// The largest element up to a bound: no member holds an element from it on
/// up to the bound, and a member holds the element before it.
pub proof fn lemma_size_upto(family: Set<u32>, bound: nat)
    ensures
        size_upto(family, bound) <= bound,
        forall|j: int| size_upto(family, bound) <= j < bound ==> !holds_element(family, j),
        size_upto(family, bound) > 0 ==> holds_element(family, size_upto(family, bound) - 1),
    decreases bound,
{
    if bound > 0 {
        if exists|x: u32| family.contains(x) && has_bit(x, bound - 1) {
            assert(holds_element(family, bound - 1));
        } else {
            lemma_size_upto(family, (bound - 1) as nat);
            assert(!holds_element(family, bound - 1));
        }
    }
}

/// The size that a family needs is one more than the largest element,
/// counted from 0, that a member holds, and 0 where no member holds one:
/// every member lies within that size, and within no smaller one.
pub proof fn lemma_inferred_size(family: Set<u32>)
    ensures
        inferred_size(family) <= 32,
        within(family, inferred_size(family)),
        inferred_size(family) > 0 ==> holds_element(family, inferred_size(family) - 1),
{
    lemma_size_upto(family, 32);
    assert forall|x: u32| family.contains(x) implies below(x, inferred_size(family)) by {
        assert forall|i: int| inferred_size(family) <= i < 32 implies !has_bit(x, i) by {
            assert(!holds_element(family, i));
        }
    }
}

} // verus!

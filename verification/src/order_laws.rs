//! The order of families is a strict total order, and a list that is kept
//! in it holds no family twice.

use crate::family::{lemma_sorted_exists, lex_less, sorted};
use crate::search::{family_less, insert_family};
use vstd::prelude::*;

verus! {

/// No listing comes before itself.
pub proof fn lemma_lex_irreflexive(a: Seq<u32>)
    ensures
        !lex_less(a, a),
    decreases a.len(),
{
    if a.len() > 0 {
        lemma_lex_irreflexive(a.drop_first());
    }
}

/// Of two different listings one comes before the other.
pub proof fn lemma_lex_total(a: Seq<u32>, b: Seq<u32>)
    ensures
        a == b || lex_less(a, b) || lex_less(b, a),
        !(lex_less(a, b) && lex_less(b, a)),
    decreases a.len(),
{
    if a.len() == 0 || b.len() == 0 {
        if a.len() == 0 && b.len() == 0 {
            assert(a =~= b);
        }
    } else if a[0] == b[0] {
        lemma_lex_total(a.drop_first(), b.drop_first());
        if a.drop_first() == b.drop_first() {
            assert(a =~= seq![a[0]] + a.drop_first());
            assert(b =~= seq![b[0]] + b.drop_first());
        }
    }
}

/// What comes before a listing comes before what the listing comes before.
pub proof fn lemma_lex_transitive(a: Seq<u32>, b: Seq<u32>, c: Seq<u32>)
    requires
        lex_less(a, b),
        lex_less(b, c),
    ensures
        lex_less(a, c),
    decreases a.len(),
{
    if a.len() > 0 && b.len() > 0 && c.len() > 0 {
        if a[0] == b[0] && b[0] == c[0] {
            lemma_lex_transitive(a.drop_first(), b.drop_first(), c.drop_first());
        }
    }
}

/// Two different families are listed differently.
pub proof fn lemma_sorted_injective(a: Set<u32>, b: Set<u32>)
    requires
        sorted(a) == sorted(b),
    ensures
        a == b,
{
    lemma_sorted_exists(a);
    lemma_sorted_exists(b);
}

/// Whether `found` lists its families in their order, each before the next.
pub open spec fn in_order(found: Seq<Set<u32>>) -> bool {
    forall|i: int, j: int| 0 <= i < j < found.len() ==> family_less(found[i], found[j])
}

/// Whether `c` is one of `found`.
pub open spec fn among(found: Seq<Set<u32>>, c: Set<u32>) -> bool {
    exists|i: int| 0 <= i < found.len() && found[i] == c
}

/// A list in the order of families holds no family twice.
pub proof fn lemma_in_order_distinct(found: Seq<Set<u32>>)
    requires
        in_order(found),
    ensures
        forall|i: int, j: int| 0 <= i < j < found.len() ==> found[i] != found[j],
{
    assert forall|i: int, j: int| 0 <= i < j < found.len() implies found[i] != found[j] by {
        assert(family_less(found[i], found[j]));
        lemma_lex_irreflexive(sorted(found[i]));
    }
}

/// A family that is put at its place is there, beside the families that
/// were, and the list stays in order.
pub proof fn lemma_insert_family(found: Seq<Set<u32>>, c: Set<u32>)
    requires
        in_order(found),
    ensures
        in_order(insert_family(found, c)),
        forall|x: Set<u32>| #[trigger] among(insert_family(found, c), x) == (among(found, x) || x == c),
    decreases found.len(),
{
    let placed = insert_family(found, c);
    if found.len() == 0 {
        assert(placed[0] == c);
        assert forall|x: Set<u32>| #[trigger] among(placed, x) == (among(found, x) || x == c) by {}
    } else if found.last() == c {
        assert(found[found.len() - 1] == c);
        assert forall|x: Set<u32>| #[trigger] among(placed, x) == (among(found, x) || x == c) by {}
    } else if family_less(found.last(), c) {
        assert(placed == found.push(c));
        assert forall|i: int, j: int| 0 <= i < j < placed.len() implies family_less(
            placed[i],
            placed[j],
        ) by {
            if j == found.len() {
                if i < found.len() - 1 {
                    assert(family_less(found[i], found[found.len() - 1]));
                    lemma_lex_transitive(sorted(found[i]), sorted(found.last()), sorted(c));
                }
            }
        }
        assert forall|x: Set<u32>| #[trigger] among(placed, x) == (among(found, x) || x == c) by {
            if among(placed, x) {
                let i = choose|i: int| 0 <= i < placed.len() && placed[i] == x;
                if i < found.len() {
                    assert(found[i] == x);
                }
            }
            if among(found, x) {
                let i = choose|i: int| 0 <= i < found.len() && found[i] == x;
                assert(placed[i] == x);
            }
            if x == c {
                assert(placed[found.len() as int] == c);
            }
        }
    } else {
        let shorter = found.drop_last();
        let last = found.last();
        assert forall|i: int, j: int| 0 <= i < j < shorter.len() implies family_less(
            shorter[i],
            shorter[j],
        ) by {
            assert(family_less(found[i], found[j]));
        }
        lemma_insert_family(shorter, c);
        let inner = insert_family(shorter, c);
        assert(placed == inner.push(last));
        lemma_lex_total(sorted(last), sorted(c));
        if sorted(last) == sorted(c) {
            lemma_sorted_injective(last, c);
        }
        assert(family_less(c, last));
        assert forall|i: int, j: int| 0 <= i < j < placed.len() implies family_less(
            placed[i],
            placed[j],
        ) by {
            if j == inner.len() {
                assert(among(inner, inner[i]));
                if inner[i] != c {
                    assert(among(shorter, inner[i]));
                    let k = choose|k: int| 0 <= k < shorter.len() && shorter[k] == inner[i];
                    assert(family_less(found[k], found[found.len() - 1]));
                }
            } else {
                assert(family_less(inner[i], inner[j]));
            }
        }
        assert forall|x: Set<u32>| #[trigger] among(placed, x) == (among(found, x) || x == c) by {
            if among(placed, x) {
                let i = choose|i: int| 0 <= i < placed.len() && placed[i] == x;
                if i < inner.len() {
                    assert(among(inner, x));
                    if among(shorter, x) {
                        let k = choose|k: int| 0 <= k < shorter.len() && shorter[k] == x;
                        assert(found[k] == x);
                    }
                } else {
                    assert(found[found.len() - 1] == x);
                }
            }
            if among(found, x) {
                let k = choose|k: int| 0 <= k < found.len() && found[k] == x;
                if k < shorter.len() {
                    assert(shorter[k] == x);
                    assert(among(shorter, x));
                    assert(among(inner, x));
                    let i = choose|i: int| 0 <= i < inner.len() && inner[i] == x;
                    assert(placed[i] == x);
                } else {
                    assert(placed[placed.len() - 1] == x);
                }
            }
            if x == c {
                assert(among(inner, c));
                let i = choose|i: int| 0 <= i < inner.len() && inner[i] == c;
                assert(placed[i] == c);
            }
        }
    }
}

} // verus!

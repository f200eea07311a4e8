//! What holds of the families that a search generates: each child has the
//! family it came from as its canonical parent and is larger than it, and
//! no family is generated twice.

use crate::bits::pow2;
use crate::canon::{canonical_form, canonical_parent, without_largest};
use crate::family::{lemma_ascending_no_duplicates, lemma_sorted_exists, sorted, within};
use crate::graph::LabelingProblem;
use crate::order_laws::{among, in_order, lemma_in_order_distinct, lemma_insert_family};
use crate::relabel::{
    lemma_relabel_below, relabel_mask, relabeled, relabeling_of, CanonError,
};
use crate::search::{child_of, children, children_upto, is_extension};
use vstd::prelude::*;

verus! {

/// Whether adding a subset below `t` to `family` gives the child `c`.
pub open spec fn gives<L: Fn(&LabelingProblem) -> Vec<usize>>(
    labeler: &L,
    family: Set<u32>,
    n: nat,
    t: nat,
    c: Set<u32>,
) -> bool {
    exists|s: u32|
        s < t && is_extension(family, n, s) && #[trigger] child_of(labeler, family, n, s) == Ok::<
            Option<Set<u32>>,
            CanonError,
        >(Some(c))
}

/// The children that the subsets below `t` give are in the order of
/// families, and are the accepted canonical forms, each once.
pub proof fn lemma_children_upto<L: Fn(&LabelingProblem) -> Vec<usize>>(
    labeler: &L,
    family: Set<u32>,
    n: nat,
    t: nat,
)
    requires
        t <= 0x1_0000_0000,
        children_upto(labeler, family, n, t) is Ok,
    ensures
        in_order(children_upto(labeler, family, n, t)->Ok_0),
        forall|c: Set<u32>|
            #[trigger] among(children_upto(labeler, family, n, t)->Ok_0, c) == gives(
                labeler,
                family,
                n,
                t,
                c,
            ),
    decreases t,
{
    let kids = children_upto(labeler, family, n, t)->Ok_0;
    if t <= 1 {
        assert forall|c: Set<u32>| #[trigger] among(kids, c) == gives(labeler, family, n, t, c) by {
            if gives(labeler, family, n, t, c) {
                let s = choose|s: u32|
                    s < t && is_extension(family, n, s) && #[trigger] child_of(
                        labeler,
                        family,
                        n,
                        s,
                    ) == Ok::<Option<Set<u32>>, CanonError>(Some(c));
                assert(false);
            }
        }
    } else {
        let before = (t - 1) as nat;
        lemma_children_upto(labeler, family, n, before);
        let found = children_upto(labeler, family, n, before)->Ok_0;
        let s = (t - 1) as u32;
        let grows = t - 1 <= u32::MAX && is_extension(family, n, s) && child_of(
            labeler,
            family,
            n,
            s,
        ) is Ok && child_of(labeler, family, n, s)->Ok_0 is Some;
        if is_extension(family, n, s) && child_of(labeler, family, n, s)->Ok_0 is Some {
            let c0 = child_of(labeler, family, n, s)->Ok_0->Some_0;
            lemma_insert_family(found, c0);
            assert(kids == crate::search::insert_family(found, c0));
            assert(s == t - 1);
        } else {
            assert(kids == found);
        }
        assert forall|c: Set<u32>| #[trigger] among(kids, c) == gives(labeler, family, n, t, c) by {
            assert(among(found, c) == gives(labeler, family, n, before, c));
            if gives(labeler, family, n, before, c) {
                let w = choose|w: u32|
                    w < before && is_extension(family, n, w) && #[trigger] child_of(
                        labeler,
                        family,
                        n,
                        w,
                    ) == Ok::<Option<Set<u32>>, CanonError>(Some(c));
                assert(w < t);
            }
            if gives(labeler, family, n, t, c) {
                let w = choose|w: u32|
                    w < t && is_extension(family, n, w) && #[trigger] child_of(
                        labeler,
                        family,
                        n,
                        w,
                    ) == Ok::<Option<Set<u32>>, CanonError>(Some(c));
                if w < before {
                    assert(gives(labeler, family, n, before, c));
                } else {
                    assert(w == s);
                }
            }
            if is_extension(family, n, s) && child_of(labeler, family, n, s)->Ok_0 is Some {
                let c0 = child_of(labeler, family, n, s)->Ok_0->Some_0;
                if c == c0 {
                    assert(s < t && is_extension(family, n, s) && child_of(labeler, family, n, s)
                        == Ok::<Option<Set<u32>>, CanonError>(Some(c)));
                }
            }
        }
    }
}

/// Whether adding some subset to `family` gives the child `c`.
pub open spec fn gives_child<L: Fn(&LabelingProblem) -> Vec<usize>>(
    labeler: &L,
    family: Set<u32>,
    n: nat,
    c: Set<u32>,
) -> bool {
    exists|s: u32|
        is_extension(family, n, s) && #[trigger] child_of(labeler, family, n, s) == Ok::<
            Option<Set<u32>>,
            CanonError,
        >(Some(c))
}

/// The children of a family are the canonical forms that the subsets that
/// can be added to it give and whose canonical parent the family is; they
/// stand in the order of families, each once.
pub proof fn lemma_children<L: Fn(&LabelingProblem) -> Vec<usize>>(
    labeler: &L,
    family: Set<u32>,
    n: nat,
)
    requires
        n <= 32,
        children(labeler, family, n) is Ok,
    ensures
        in_order(children(labeler, family, n)->Ok_0),
        forall|c: Set<u32>|
            #[trigger] among(children(labeler, family, n)->Ok_0, c) == gives_child(
                labeler,
                family,
                n,
                c,
            ),
{
    crate::bits::lemma_pow2_32();
    crate::bits::lemma_pow2_monotone(n, 32);
    lemma_children_upto(labeler, family, n, pow2(n));
    let kids = children(labeler, family, n)->Ok_0;
    assert forall|c: Set<u32>| #[trigger] among(kids, c) == gives_child(labeler, family, n, c) by {
        assert(among(kids, c) == gives(labeler, family, n, pow2(n), c));
        if gives(labeler, family, n, pow2(n), c) {
            let s = choose|s: u32|
                s < pow2(n) && is_extension(family, n, s) && #[trigger] child_of(
                    labeler,
                    family,
                    n,
                    s,
                ) == Ok::<Option<Set<u32>>, CanonError>(Some(c));
            assert(is_extension(family, n, s));
        }
        if gives_child(labeler, family, n, c) {
            let s = choose|s: u32|
                is_extension(family, n, s) && #[trigger] child_of(labeler, family, n, s) == Ok::<
                    Option<Set<u32>>,
                    CanonError,
                >(Some(c));
            assert(s < pow2(n));
        }
    }
}

/// A family has children exactly when no subset that can be added to it
/// fails to give a canonical form.
pub proof fn lemma_children_fail<L: Fn(&LabelingProblem) -> Vec<usize>>(
    labeler: &L,
    family: Set<u32>,
    n: nat,
    t: nat,
)
    requires
        t <= 0x1_0000_0000,
    ensures
        children_upto(labeler, family, n, t) is Ok <==> forall|s: u32|
            1 <= s < t && is_extension(family, n, s) ==> #[trigger] child_of(
                labeler,
                family,
                n,
                s,
            ) is Ok,
    decreases t,
{
    if t > 1 {
        lemma_children_fail(labeler, family, n, (t - 1) as nat);
        let last = (t - 1) as u32;
        if children_upto(labeler, family, n, t) is Ok {
            assert forall|s: u32| 1 <= s < t && is_extension(family, n, s) implies #[trigger] child_of(
                labeler,
                family,
                n,
                s,
            ) is Ok by {
                if s < t - 1 {
                } else {
                    assert(s == last);
                }
            }
        }
    }
}

/// A child of a family is the canonical form of the family with one subset
/// more, and the family is its canonical parent.
pub proof fn lemma_child_has_parent<L: Fn(&LabelingProblem) -> Vec<usize>>(
    labeler: &L,
    family: Set<u32>,
    n: nat,
    c: Set<u32>,
)
    requires
        n <= 32,
        children(labeler, family, n) is Ok,
        among(children(labeler, family, n)->Ok_0, c),
    ensures
        canonical_parent(labeler, c, n) == Ok::<Set<u32>, CanonError>(family),
        exists|s: u32|
            is_extension(family, n, s) && #[trigger] canonical_form(labeler, family.insert(s), n)
                == Ok::<Set<u32>, CanonError>(c),
{
    crate::bits::lemma_pow2_32();
    crate::bits::lemma_pow2_monotone(n, 32);
    lemma_children_upto(labeler, family, n, pow2(n));
    assert(gives(labeler, family, n, pow2(n), c));
    let s = choose|s: u32|
        s < pow2(n) && is_extension(family, n, s) && #[trigger] child_of(labeler, family, n, s)
            == Ok::<Option<Set<u32>>, CanonError>(Some(c));
    assert(canonical_form(labeler, family.insert(s), n) == Ok::<Set<u32>, CanonError>(c));
}

/// Whether a subset is accepted as one more member depends on the canonical
/// form that it gives, and on nothing else.
pub proof fn lemma_acceptance_by_canonical_form<L: Fn(&LabelingProblem) -> Vec<usize>>(
    labeler: &L,
    family: Set<u32>,
    n: nat,
    s: u32,
    t: u32,
)
    requires
        canonical_form(labeler, family.insert(s), n) == canonical_form(
            labeler,
            family.insert(t),
            n,
        ),
    ensures
        child_of(labeler, family, n, s) == child_of(labeler, family, n, t),
{
}

/// The children of a family are in the order of families, and no family is
/// a child twice.
pub proof fn lemma_children_distinct<L: Fn(&LabelingProblem) -> Vec<usize>>(
    labeler: &L,
    family: Set<u32>,
    n: nat,
)
    requires
        n <= 32,
        children(labeler, family, n) is Ok,
    ensures
        in_order(children(labeler, family, n)->Ok_0),
        forall|i: int, j: int|
            0 <= i < j < children(labeler, family, n)->Ok_0.len() ==> children(
                labeler,
                family,
                n,
            )->Ok_0[i] != children(labeler, family, n)->Ok_0[j],
{
    crate::bits::lemma_pow2_32();
    crate::bits::lemma_pow2_monotone(n, 32);
    lemma_children_upto(labeler, family, n, pow2(n));
    lemma_in_order_distinct(children(labeler, family, n)->Ok_0);
}

/// A relabeled family has at most as many members as the family, lies
/// within the ground set, and has a member where the family has one.
pub proof fn lemma_relabeled_size(family: Set<u32>, n: nat, lab: Seq<usize>)
    requires
        n <= 32,
        lab.len() >= n,
    ensures
        relabeled(family, n, lab).finite(),
        relabeled(family, n, lab).len() <= family.len(),
        family.len() > 0 ==> relabeled(family, n, lab).len() > 0,
        within(relabeled(family, n, lab), n),
{
    lemma_sorted_exists(family);
    let f = |s: u32| relabel_mask(s, n, lab);
    let image = relabeled(family, n, lab);
    assert(family.map(f) =~= image);
    vstd::set_lib::lemma_map_size_bound(family, image, f);
    if family.len() > 0 {
        let x = family.choose();
        assert(family.contains(x));
        assert(image.contains(relabel_mask(x, n, lab)));
        if image.len() == 0 {
            assert(image =~= Set::<u32>::empty());
        }
    }
    assert forall|x: u32| image.contains(x) implies crate::bits::below(x, n) by {
        let s = choose|s: u32| family.contains(s) && x == relabel_mask(s, n, lab);
        lemma_relabel_below(s, n, lab);
    }
}

/// A canonical form has at most as many members as the family, and at
/// least one where the family has one.
pub proof fn lemma_canonical_form_size<L: Fn(&LabelingProblem) -> Vec<usize>>(
    labeler: &L,
    family: Set<u32>,
    n: nat,
)
    requires
        n <= 32,
        canonical_form(labeler, family, n) is Ok,
    ensures
        canonical_form(labeler, family, n)->Ok_0.finite(),
        canonical_form(labeler, family, n)->Ok_0.len() <= family.len(),
        family.len() > 0 ==> canonical_form(labeler, family, n)->Ok_0.len() > 0,
        within(canonical_form(labeler, family, n)->Ok_0, n),
{
    lemma_sorted_exists(family);
    if family.len() > 0 {
        let lab = crate::canon::labeling_of(labeler, sorted(family), n);
        lemma_relabeled_size(family, n, lab);
    } else {
        assert(Set::<u32>::empty().len() == 0);
    }
}

/// A family with several members has one member less without its largest.
pub proof fn lemma_without_largest_size(family: Set<u32>)
    requires
        family.len() >= 1,
    ensures
        without_largest(family).len() == family.len() - 1,
{
    lemma_sorted_exists(family);
    let q = sorted(family);
    let shorter = q.drop_last();
    assert(crate::family::ascending(shorter));
    lemma_ascending_no_duplicates(shorter);
}

/// A child has more members than the family it came from, and lies within
/// the ground set.
pub proof fn lemma_child_is_larger<L: Fn(&LabelingProblem) -> Vec<usize>>(
    labeler: &L,
    family: Set<u32>,
    n: nat,
    c: Set<u32>,
)
    requires
        n <= 32,
        children(labeler, family, n) is Ok,
        among(children(labeler, family, n)->Ok_0, c),
    ensures
        c.len() > family.len(),
        within(c, n),
{
    lemma_child_has_parent(labeler, family, n, c);
    let s = choose|s: u32|
        is_extension(family, n, s) && #[trigger] canonical_form(labeler, family.insert(s), n)
            == Ok::<Set<u32>, CanonError>(c);
    let bigger = family.insert(s);
    lemma_sorted_exists(family);
    lemma_sorted_exists(bigger);
    lemma_sorted_exists(c);
    assert(bigger.len() > 0);
    lemma_canonical_form_size(labeler, bigger, n);
    if c.len() > 1 {
        let rest = without_largest(c);
        lemma_without_largest_size(c);
        lemma_canonical_form_size(labeler, rest, n);
    } else {
        assert(family =~= Set::<u32>::empty());
    }
}

/// Whether each family of `path` but the first is a child of the one before
/// it.
pub open spec fn is_descent<L: Fn(&LabelingProblem) -> Vec<usize>>(
    labeler: &L,
    n: nat,
    path: Seq<Set<u32>>,
) -> bool {
    forall|i: int|
        0 <= i < path.len() - 1 ==> children(labeler, #[trigger] path[i], n) is Ok && among(
            children(labeler, path[i], n)->Ok_0,
            path[i + 1],
        )
}

/// Along a descent the families grow.
pub proof fn lemma_descent_grows<L: Fn(&LabelingProblem) -> Vec<usize>>(
    labeler: &L,
    n: nat,
    path: Seq<Set<u32>>,
)
    requires
        n <= 32,
        path.len() > 0,
        is_descent(labeler, n, path),
    ensures
        path.last().len() >= path.first().len() + path.len() - 1,
    decreases path.len(),
{
    if path.len() > 1 {
        let shorter = path.drop_last();
        assert forall|i: int| 0 <= i < shorter.len() - 1 implies children(
            labeler,
            #[trigger] shorter[i],
            n,
        ) is Ok && among(children(labeler, shorter[i], n)->Ok_0, shorter[i + 1]) by {
            assert(shorter[i] == path[i]);
            assert(shorter[i + 1] == path[i + 1]);
        }
        lemma_descent_grows(labeler, n, shorter);
        let k = path.len() - 2;
        assert(children(labeler, path[k], n) is Ok);
        lemma_child_is_larger(labeler, path[k], n, path[k + 1]);
    }
}

/// No family is generated twice: two descents from one family to one
/// family are the same descent.
pub proof fn lemma_generated_once<L: Fn(&LabelingProblem) -> Vec<usize>>(
    labeler: &L,
    n: nat,
    a: Seq<Set<u32>>,
    b: Seq<Set<u32>>,
)
    requires
        n <= 32,
        a.len() > 0,
        b.len() > 0,
        is_descent(labeler, n, a),
        is_descent(labeler, n, b),
        a.first() == b.first(),
        a.last() == b.last(),
    ensures
        a == b,
    decreases a.len(),
{
    lemma_descent_grows(labeler, n, a);
    lemma_descent_grows(labeler, n, b);
    if a.len() == 1 || b.len() == 1 {
        assert(a.len() == 1 && b.len() == 1);
        assert(a =~= b);
    } else {
        let ka = a.len() - 2;
        let kb = b.len() - 2;
        assert(children(labeler, a[ka], n) is Ok);
        assert(children(labeler, b[kb], n) is Ok);
        lemma_child_has_parent(labeler, a[ka], n, a[ka + 1]);
        lemma_child_has_parent(labeler, b[kb], n, b[kb + 1]);
        assert(a[ka] == b[kb]);
        let sa = a.drop_last();
        let sb = b.drop_last();
        assert forall|i: int| 0 <= i < sa.len() - 1 implies children(
            labeler,
            #[trigger] sa[i],
            n,
        ) is Ok && among(children(labeler, sa[i], n)->Ok_0, sa[i + 1]) by {
            assert(sa[i] == a[i]);
            assert(sa[i + 1] == a[i + 1]);
        }
        assert forall|i: int| 0 <= i < sb.len() - 1 implies children(
            labeler,
            #[trigger] sb[i],
            n,
        ) is Ok && among(children(labeler, sb[i], n)->Ok_0, sb[i + 1]) by {
            assert(sb[i] == b[i]);
            assert(sb[i + 1] == b[i + 1]);
        }
        lemma_generated_once(labeler, n, sa, sb);
        assert(a =~= sa.push(a.last()));
        assert(b =~= sb.push(b.last()));
    }
}

/// Whether `labeler` gives one canonical form to a family within the ground
/// set and to each of its relabelings.
pub open spec fn respects_relabeling<L: Fn(&LabelingProblem) -> Vec<usize>>(
    labeler: &L,
    n: nat,
) -> bool {
    forall|f: Set<u32>, g: Set<u32>|
        within(f, n) && #[trigger] relabeling_of(f, n, g) ==> canonical_form(labeler, f, n)
            == canonical_form(labeler, g, n)
}

/// A canonical form is a relabeling of the family.
pub proof fn lemma_canonical_form_is_relabeling<L: Fn(&LabelingProblem) -> Vec<usize>>(
    labeler: &L,
    family: Set<u32>,
    n: nat,
)
    requires
        n <= 32,
        canonical_form(labeler, family, n) is Ok,
    ensures
        relabeling_of(family, n, canonical_form(labeler, family, n)->Ok_0),
{
    lemma_sorted_exists(family);
    if family.len() == 0 {
        assert(family =~= Set::<u32>::empty());
        crate::canon::lemma_empty_relabeling(n);
    }
}

/// Where the labeling gives one canonical form to all relabelings of a
/// family, the canonical form of a canonical form is that form.
pub proof fn lemma_canonical_form_idempotent<L: Fn(&LabelingProblem) -> Vec<usize>>(
    labeler: &L,
    family: Set<u32>,
    n: nat,
)
    requires
        n <= 32,
        within(family, n),
        respects_relabeling(labeler, n),
        canonical_form(labeler, family, n) is Ok,
    ensures
        canonical_form(labeler, canonical_form(labeler, family, n)->Ok_0, n) == canonical_form(
            labeler,
            family,
            n,
        ),
{
    lemma_canonical_form_is_relabeling(labeler, family, n);
}

/// Where the labeling gives one canonical form to all relabelings of a
/// family, two different children, of one family or of two, have different
/// canonical forms.
pub proof fn lemma_children_are_canonical<L: Fn(&LabelingProblem) -> Vec<usize>>(
    labeler: &L,
    n: nat,
    p: Set<u32>,
    c: Set<u32>,
    q: Set<u32>,
    d: Set<u32>,
)
    requires
        n <= 32,
        respects_relabeling(labeler, n),
        within(p, n),
        within(q, n),
        children(labeler, p, n) is Ok,
        among(children(labeler, p, n)->Ok_0, c),
        children(labeler, q, n) is Ok,
        among(children(labeler, q, n)->Ok_0, d),
        c != d,
    ensures
        canonical_form(labeler, c, n) == Ok::<Set<u32>, CanonError>(c),
        canonical_form(labeler, d, n) == Ok::<Set<u32>, CanonError>(d),
        canonical_form(labeler, c, n) != canonical_form(labeler, d, n),
{
    lemma_child_canonical(labeler, n, p, c);
    lemma_child_canonical(labeler, n, q, d);
}

/// Where the labeling gives one canonical form to all relabelings of a
/// family, a child is its own canonical form.
pub proof fn lemma_child_canonical<L: Fn(&LabelingProblem) -> Vec<usize>>(
    labeler: &L,
    n: nat,
    p: Set<u32>,
    c: Set<u32>,
)
    requires
        n <= 32,
        respects_relabeling(labeler, n),
        within(p, n),
        children(labeler, p, n) is Ok,
        among(children(labeler, p, n)->Ok_0, c),
    ensures
        canonical_form(labeler, c, n) == Ok::<Set<u32>, CanonError>(c),
{
    lemma_child_has_parent(labeler, p, n, c);
    let s = choose|s: u32|
        is_extension(p, n, s) && #[trigger] canonical_form(labeler, p.insert(s), n) == Ok::<
            Set<u32>,
            CanonError,
        >(c);
    let bigger = p.insert(s);
    assert forall|x: u32| bigger.contains(x) implies crate::bits::below(x, n) by {
        if x == s {
            lemma_below_bound(s, n);
        }
    }
    lemma_canonical_form_idempotent(labeler, bigger, n);
}

/// A subset that is less than the number of subsets lies within the ground
/// set.
pub proof fn lemma_below_bound(s: u32, n: nat)
    requires
        n <= 32,
        s < pow2(n),
    ensures
        crate::bits::below(s, n),
    decreases 32 - n,
{
    if n < 32 {
        crate::bits::lemma_pow2_monotone(n, (n + 1) as nat);
        lemma_below_bound(s, (n + 1) as nat);
        assert(!crate::bits::has_bit(s, n as int)) by {
            lemma_high_bit(s, n);
        }
    }
}

/// A subset that holds the element `n` is at least the number of subsets of
/// the `n` elements before it.
pub proof fn lemma_high_bit(s: u32, n: nat)
    requires
        n < 32,
        s < pow2(n),
    ensures
        !crate::bits::has_bit(s, n as int),
{
    let shift = n as u32;
    lemma_pow2_shift(n);
    assert((s >> shift) & 1u32 == 1u32 ==> s >= (1u32 << shift)) by (bit_vector)
        requires
            shift < 32,
    ;
}

/// The number of subsets of `n` elements, as a shift.
pub proof fn lemma_pow2_shift(n: nat)
    requires
        n < 32,
    ensures
        pow2(n) == (1u32 << (n as u32)),
    decreases n,
{
    if n == 0 {
        assert(1u32 << 0u32 == 1u32) by (bit_vector);
    } else {
        lemma_pow2_shift((n - 1) as nat);
        let a = (n - 1) as u32;
        let b = n as u32;
        assert((1u32 << b) == 2 * (1u32 << a)) by (bit_vector)
            requires
                b == a + 1,
                b < 32,
        ;
    }
}

} // verus!

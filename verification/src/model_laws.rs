//! What the quantifiers mean: a universal formula holds when its body holds
//! under every value, an existential one when it holds under some. And what
//! a community is, without the table of antipodes.

use crate::bits::{
    full_mask, has_bit, lemma_masks_equal, lemma_union_mask_bits, single_bit, union_mask,
};
use crate::family::{lemma_sorted_exists, sorted};
use crate::model_checker::{
    antipode, antipodes, community, disjoint_from, first_open, first_point, inside, separating,
    verdict, FormulaTerm, Valuation,
};
use vstd::prelude::*;

verus! {

/// The first point from `p` on under which the body holds, or fails, is
/// such a point, and no point between `p` and it is one.
pub proof fn lemma_first_point(
    n: nat,
    family: Set<u32>,
    g: FormulaTerm,
    a: Valuation,
    var: Seq<char>,
    p: nat,
    want: bool,
)
    requires
        n <= usize::MAX,
        p >= 1,
    ensures
        match first_point(n, family, g, a, var, p, want) {
            Some(x) => p <= x <= n && verdict(n, family, g, a.with_point(var, x)).0 == want
                && forall|q: usize|
                p <= q < x ==> #[trigger] verdict(n, family, g, a.with_point(var, q)).0 != want,
            None => forall|q: usize|
                p <= q <= n ==> #[trigger] verdict(n, family, g, a.with_point(var, q)).0 != want,
        },
    decreases n + 1 - p,
{
    if p <= n {
        if verdict(n, family, g, a.with_point(var, p as usize)).0 != want {
            lemma_first_point(n, family, g, a, var, p + 1, want);
        }
    }
}

/// The first member from place `i` on under which the body holds, or
/// fails, is such a member, and no member between place `i` and it is one.
pub proof fn lemma_first_open(
    n: nat,
    family: Set<u32>,
    g: FormulaTerm,
    a: Valuation,
    var: Seq<char>,
    i: nat,
    want: bool,
)
    ensures
        match first_open(n, family, g, a, var, i, want) {
            Some(o) => exists|k: int|
                i <= k < sorted(family).len() && sorted(family)[k] == o && verdict(
                    n,
                    family,
                    g,
                    a.with_open(var, o),
                ).0 == want,
            None => forall|k: int|
                i <= k < sorted(family).len() ==> #[trigger] verdict(
                    n,
                    family,
                    g,
                    a.with_open(var, sorted(family)[k]),
                ).0 != want,
        },
    decreases sorted(family).len() - i,
{
    if i < sorted(family).len() {
        if verdict(n, family, g, a.with_open(var, sorted(family)[i as int])).0 != want {
            lemma_first_open(n, family, g, a, var, i + 1, want);
            match first_open(n, family, g, a, var, i + 1, want) {
                Some(o) => {
                    let k = choose|k: int|
                        i + 1 <= k < sorted(family).len() && sorted(family)[k] == o && verdict(
                            n,
                            family,
                            g,
                            a.with_open(var, o),
                        ).0 == want;
                    assert(i <= k < sorted(family).len());
                },
                None => {},
            }
        } else {
            assert(sorted(family)[i as int] == sorted(family)[i as int]);
        }
    }
}

/// A formula for every point holds exactly when its body holds under each
/// point of the ground set.
pub proof fn lemma_for_all_points(
    n: nat,
    family: Set<u32>,
    var: Seq<char>,
    g: FormulaTerm,
    a: Valuation,
)
    requires
        n <= usize::MAX,
    ensures
        verdict(n, family, FormulaTerm::ForAllPoints(var, Box::new(g)), a).0 <==> forall|p: usize|
            1 <= p <= n ==> #[trigger] verdict(n, family, g, a.with_point(var, p)).0,
{
    lemma_first_point(n, family, g, a, var, 1, false);
}

/// A formula for some point holds exactly when its body holds under a
/// point of the ground set.
pub proof fn lemma_exists_points(
    n: nat,
    family: Set<u32>,
    var: Seq<char>,
    g: FormulaTerm,
    a: Valuation,
)
    requires
        n <= usize::MAX,
    ensures
        verdict(n, family, FormulaTerm::ExistsPoints(var, Box::new(g)), a).0 <==> exists|p: usize|
            1 <= p <= n && #[trigger] verdict(n, family, g, a.with_point(var, p)).0,
{
    lemma_first_point(n, family, g, a, var, 1, true);
    match first_point(n, family, g, a, var, 1, true) {
        Some(x) => {
            assert(1 <= x <= n && verdict(n, family, g, a.with_point(var, x)).0);
        },
        None => {},
    }
}

/// A formula for every open set holds exactly when its body holds under
/// each member of the family.
pub proof fn lemma_for_all_opens(
    n: nat,
    family: Set<u32>,
    var: Seq<char>,
    g: FormulaTerm,
    a: Valuation,
)
    ensures
        verdict(n, family, FormulaTerm::ForAllOpens(var, Box::new(g)), a).0 <==> forall|o: u32|
            family.contains(o) ==> #[trigger] verdict(n, family, g, a.with_open(var, o)).0,
{
    lemma_sorted_exists(family);
    lemma_first_open(n, family, g, a, var, 0, false);
    let q = sorted(family);
    match first_open(n, family, g, a, var, 0, false) {
        Some(o) => {
            let k = choose|k: int|
                0 <= k < q.len() && q[k] == o && verdict(n, family, g, a.with_open(var, o)).0
                    == false;
            assert(q.to_set().contains(q[k]));
        },
        None => {
            assert forall|o: u32| family.contains(o) implies #[trigger] verdict(
                n,
                family,
                g,
                a.with_open(var, o),
            ).0 by {
                assert(q.to_set().contains(o));
                assert(q.contains(o));
                let k = choose|k: int| 0 <= k < q.len() && q[k] == o;
                assert(verdict(n, family, g, a.with_open(var, q[k])).0 != false);
            }
        },
    }
}

/// A formula for some open set holds exactly when its body holds under a
/// member of the family.
pub proof fn lemma_exists_opens(
    n: nat,
    family: Set<u32>,
    var: Seq<char>,
    g: FormulaTerm,
    a: Valuation,
)
    ensures
        verdict(n, family, FormulaTerm::ExistsOpens(var, Box::new(g)), a).0 <==> exists|o: u32|
            family.contains(o) && #[trigger] verdict(n, family, g, a.with_open(var, o)).0,
{
    lemma_sorted_exists(family);
    lemma_first_open(n, family, g, a, var, 0, true);
    let q = sorted(family);
    match first_open(n, family, g, a, var, 0, true) {
        Some(o) => {
            let k = choose|k: int|
                0 <= k < q.len() && q[k] == o && verdict(n, family, g, a.with_open(var, o)).0
                    == true;
            assert(q.to_set().contains(q[k]));
            assert(family.contains(o) && verdict(n, family, g, a.with_open(var, o)).0);
        },
        None => {
            assert forall|o: u32| family.contains(o) implies !(#[trigger] verdict(
                n,
                family,
                g,
                a.with_open(var, o),
            ).0) by {
                assert(q.to_set().contains(o));
                assert(q.contains(o));
                let k = choose|k: int| 0 <= k < q.len() && q[k] == o;
                assert(verdict(n, family, g, a.with_open(var, q[k])).0 != true);
            }
        },
    }
}

/// The members of `family` that are disjoint from a member that holds the
/// point `p`.
pub open spec fn separable_from(family: Set<u32>, p: usize) -> Set<u32> {
    Set::new(
        |q: u32|
            family.contains(q) && exists|o: u32|
                family.contains(o) && o & single_bit(p - 1) != 0u32 && o & q == 0u32,
    )
}

/// The community of a point by the antipodes of the family is the union of
/// the members that avoid every member disjoint from a member with the
/// point.
pub proof fn lemma_community_by_definition(n: nat, family: Set<u32>, p: usize)
    requires
        1 <= p <= n,
        family.len() > 0,
    ensures
        community(n, family, antipodes(family), p) == union_mask(
            inside(family, full_mask(n) & !union_mask(separable_from(family, p))),
        ),
{
    let table = antipodes(family);
    let by_table = union_mask(separating(family, table, p));
    let direct = union_mask(separable_from(family, p));
    lemma_union_mask_bits(separating(family, table, p));
    lemma_union_mask_bits(separable_from(family, p));
    assert forall|j: int| 0 <= j < 32 implies has_bit(by_table, j) == has_bit(direct, j) by {
        if has_bit(by_table, j) {
            let a = choose|a: u32| separating(family, table, p).contains(a) && has_bit(a, j);
            let o = choose|o: u32|
                family.contains(o) && o & single_bit(p - 1) != 0u32 && a == table[o];
            assert(a == antipode(family, o));
            lemma_union_mask_bits(disjoint_from(family, o));
            let q = choose|q: u32| disjoint_from(family, o).contains(q) && has_bit(q, j);
            assert(separable_from(family, p).contains(q));
        }
        if has_bit(direct, j) {
            let q = choose|q: u32| separable_from(family, p).contains(q) && has_bit(q, j);
            let o = choose|o: u32|
                family.contains(o) && o & single_bit(p - 1) != 0u32 && o & q == 0u32;
            lemma_union_mask_bits(disjoint_from(family, o));
            assert(disjoint_from(family, o).contains(q));
            assert(has_bit(antipode(family, o), j));
            assert(separating(family, table, p).contains(table[o]));
        }
    }
    lemma_masks_equal(by_table, direct);
}

} // verus!

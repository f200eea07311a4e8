//! A search never goes deeper than the number of subsets of the ground set:
//! to allow it more generations changes nothing.

use crate::bits::{below, has_bit, lemma_has_bit_zero, lemma_masks_equal, pow2};
use crate::family::{ascending, lemma_sorted_exists, sorted, within};
use crate::graph::LabelingProblem;
use crate::model_checker::FormulaTerm;
use crate::order_laws::among;
use crate::search::{
    bumped, children, explore, explore_children, flushed, stream, stream_children, Filter, Trace,
};
use crate::search_laws::{lemma_child_is_larger, lemma_pow2_shift};
use vstd::prelude::*;

verus! {

/// A subset within the first `n` elements is less than the number of their
/// subsets.
pub proof fn lemma_below_is_small(x: u32, n: nat)
    requires
        n <= 32,
        below(x, n),
    ensures
        x < pow2(n),
{
    if n < 32 {
        let shift = n as u32;
        let high = x >> shift;
        assert forall|i: int| 0 <= i < 32 implies has_bit(high, i) == has_bit(0u32, i) by {
            lemma_has_bit_zero(i);
            let at = i as u32;
            assert(((x >> shift) >> at) & 1u32 == 1u32 ==> at + shift < 32 && (x >> ((at
                + shift) as u32)) & 1u32 == 1u32) by (bit_vector)
                requires
                    at < 32,
                    shift < 32,
            ;
            if has_bit(high, i) {
                assert(has_bit(x, i + n));
            }
        }
        lemma_masks_equal(high, 0u32);
        lemma_pow2_shift(n);
        assert((x >> shift) == 0u32 ==> x < (1u32 << shift)) by (bit_vector)
            requires
                shift < 32,
        ;
    } else {
        crate::bits::lemma_pow2_32();
    }
}

/// The item at a place of an ascending listing is at least the place.
proof fn lemma_ascending_at_least(q: Seq<u32>, i: int)
    requires
        ascending(q),
        0 <= i < q.len(),
    ensures
        q[i] >= i,
    decreases i,
{
    if i > 0 {
        lemma_ascending_at_least(q, i - 1);
        assert(q[i - 1] < q[i]);
    }
}

/// A family within the ground set has at most as many members as the
/// ground set has subsets.
pub proof fn lemma_within_size(family: Set<u32>, n: nat)
    requires
        n <= 32,
        within(family, n),
    ensures
        family.len() <= pow2(n),
{
    lemma_sorted_exists(family);
    let q = sorted(family);
    if q.len() > 0 {
        let last = q.len() - 1;
        lemma_ascending_at_least(q, last);
        assert(q.to_set().contains(q[last]));
        lemma_below_is_small(q[last], n);
    }
}

/// The number of generations that a search below `family` can need.
pub open spec fn generations(family: Set<u32>, n: nat) -> nat {
    if within(family, n) {
        (pow2(n) + 1 - family.len()) as nat
    } else {
        pow2(n) + 1
    }
}

/// A child needs one generation less than the family it came from.
pub proof fn lemma_child_generations<L: Fn(&LabelingProblem) -> Vec<usize>>(
    labeler: &L,
    family: Set<u32>,
    n: nat,
    c: Set<u32>,
)
    requires
        n <= 32,
        children(labeler, family, n) is Ok,
        among(children(labeler, family, n)->Ok_0, c),
    ensures
        generations(c, n) + 1 <= generations(family, n),
        generations(family, n) >= 1,
{
    lemma_child_is_larger(labeler, family, n, c);
    lemma_within_size(c, n);
    if within(family, n) {
        lemma_within_size(family, n);
    }
}

/// A search below a family gives the same with any number of generations
/// that is at least the number that it can need.
pub proof fn lemma_explore_depth<L: Fn(&LabelingProblem) -> Vec<usize>>(
    labeler: &L,
    filter: Filter,
    formula: Option<FormulaTerm>,
    family: Set<u32>,
    t: Trace,
    fuel: nat,
    more: nat,
)
    requires
        filter.n <= 32,
        fuel >= generations(family, filter.n as nat),
        more >= generations(family, filter.n as nat),
    ensures
        explore(labeler, filter, formula, family, t, fuel) == explore(
            labeler,
            filter,
            formula,
            family,
            t,
            more,
        ),
    decreases fuel, 0nat, 0nat,
{
    let n = filter.n as nat;
    if within(family, n) {
        lemma_within_size(family, n);
    }
    assert(fuel > 0 && more > 0);
    match children(labeler, family, n) {
        Err(_) => {},
        Ok(kids) => {
            lemma_explore_children_depth(
                labeler,
                filter,
                formula,
                family,
                kids,
                0,
                t,
                (fuel - 1) as nat,
                (more - 1) as nat,
            );
        },
    }
}

/// The search through the children of a family gives the same with any
/// number of generations that is at least the number that it can need.
pub proof fn lemma_explore_children_depth<L: Fn(&LabelingProblem) -> Vec<usize>>(
    labeler: &L,
    filter: Filter,
    formula: Option<FormulaTerm>,
    parent: Set<u32>,
    kids: Seq<Set<u32>>,
    i: nat,
    t: Trace,
    fuel: nat,
    more: nat,
)
    requires
        filter.n <= 32,
        children(labeler, parent, filter.n as nat) == Ok::<
            Seq<Set<u32>>,
            crate::relabel::CanonError,
        >(kids),
        fuel + 1 >= generations(parent, filter.n as nat),
        more + 1 >= generations(parent, filter.n as nat),
    ensures
        explore_children(labeler, filter, formula, kids, i, t, fuel) == explore_children(
            labeler,
            filter,
            formula,
            kids,
            i,
            t,
            more,
        ),
    decreases fuel, 1nat, kids.len() - i,
{
    if i < kids.len() {
        let kid = kids[i as int];
        assert(among(kids, kid));
        lemma_child_generations(labeler, parent, filter.n as nat, kid);
        let joined = Trace {
            batch: t.batch.push(kid),
            found: t.found,
            explored: bumped(t.explored),
        };
        let (filtered, hit) = if joined.batch.len() >= filter.batch_size {
            flushed(filter, formula, joined)
        } else {
            (joined, false)
        };
        if !hit {
            lemma_explore_depth(labeler, filter, formula, kid, filtered, fuel, more);
            match explore(labeler, filter, formula, kid, filtered, fuel) {
                Err(_) => {},
                Ok((below, hit_below)) => {
                    if !hit_below {
                        lemma_explore_children_depth(
                            labeler,
                            filter,
                            formula,
                            parent,
                            kids,
                            i + 1,
                            below,
                            fuel,
                            more,
                        );
                    }
                },
            }
        }
    }
}

/// A search at and below a family that takes each result at once gives the
/// same with any number of generations that is at least the number that it
/// can need.
pub proof fn lemma_stream_depth<L: Fn(&LabelingProblem) -> Vec<usize>>(
    labeler: &L,
    filter: Filter,
    formula: Option<FormulaTerm>,
    family: Set<u32>,
    t: Trace,
    fuel: nat,
    more: nat,
)
    requires
        filter.n <= 32,
        fuel >= generations(family, filter.n as nat),
        more >= generations(family, filter.n as nat),
    ensures
        stream(labeler, filter, formula, family, t, fuel) == stream(
            labeler,
            filter,
            formula,
            family,
            t,
            more,
        ),
    decreases fuel, 0nat, 0nat,
{
    let n = filter.n as nat;
    if within(family, n) {
        lemma_within_size(family, n);
    }
    assert(fuel > 0 && more > 0);
    let took = crate::search::accepted(filter, formula, family);
    let seen = if took {
        Trace {
            batch: t.batch,
            found: t.found.push(crate::search::completed(family)),
            explored: t.explored,
        }
    } else {
        t
    };
    if !(took && filter.limit > 0 && seen.found.len() >= filter.limit) {
        match children(labeler, family, n) {
            Err(_) => {},
            Ok(kids) => {
                lemma_stream_children_depth(
                    labeler,
                    filter,
                    formula,
                    family,
                    kids,
                    0,
                    seen,
                    (fuel - 1) as nat,
                    (more - 1) as nat,
                );
            },
        }
    }
}

/// The search through the children of a family that takes each result at
/// once gives the same with any number of generations that is at least the
/// number that it can need.
pub proof fn lemma_stream_children_depth<L: Fn(&LabelingProblem) -> Vec<usize>>(
    labeler: &L,
    filter: Filter,
    formula: Option<FormulaTerm>,
    parent: Set<u32>,
    kids: Seq<Set<u32>>,
    i: nat,
    t: Trace,
    fuel: nat,
    more: nat,
)
    requires
        filter.n <= 32,
        children(labeler, parent, filter.n as nat) == Ok::<
            Seq<Set<u32>>,
            crate::relabel::CanonError,
        >(kids),
        fuel + 1 >= generations(parent, filter.n as nat),
        more + 1 >= generations(parent, filter.n as nat),
    ensures
        stream_children(labeler, filter, formula, kids, i, t, fuel) == stream_children(
            labeler,
            filter,
            formula,
            kids,
            i,
            t,
            more,
        ),
    decreases fuel, 1nat, kids.len() - i,
{
    if i < kids.len() {
        let kid = kids[i as int];
        assert(among(kids, kid));
        lemma_child_generations(labeler, parent, filter.n as nat, kid);
        let counted = Trace { batch: t.batch, found: t.found, explored: bumped(t.explored) };
        lemma_stream_depth(labeler, filter, formula, kid, counted, fuel, more);
        match stream(labeler, filter, formula, kid, counted, fuel) {
            Err(_) => {},
            Ok((below, hit)) => {
                if !hit {
                    lemma_stream_children_depth(
                        labeler,
                        filter,
                        formula,
                        parent,
                        kids,
                        i + 1,
                        below,
                        fuel,
                        more,
                    );
                }
            },
        }
    }
}

} // verus!

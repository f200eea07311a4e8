//! What a search finds, said without its batches: the accepted families
//! among the start and its descendants in the order in which they are
//! generated, as far as the limit allows.

use crate::graph::LabelingProblem;
use crate::model_checker::FormulaTerm;
use crate::order_laws::among;
use crate::relabel::CanonError;
use crate::search_laws::{
    is_descent, lemma_children_distinct, lemma_descent_grows, lemma_generated_once,
};
use crate::search::{
    accepted, bumped, children, completed, explore, explore_children, flushed, room, search,
    stream, stream_children, stream_search, survivors, Filter, Trace,
};
use crate::bits::pow2;
use vstd::prelude::*;

verus! {

/// The descendants of `family`, at most `fuel` generations deep, in the
/// order in which a search generates them: each child, and behind it its own
/// descendants.
pub open spec fn preorder<L: Fn(&LabelingProblem) -> Vec<usize>>(
    labeler: &L,
    n: nat,
    family: Set<u32>,
    fuel: nat,
) -> Result<Seq<Set<u32>>, CanonError>
    decreases fuel, 0nat, 0nat,
{
    if fuel == 0 {
        Ok(Seq::empty())
    } else {
        match children(labeler, family, n) {
            Err(e) => Err(e),
            Ok(kids) => preorder_children(labeler, n, kids, 0, (fuel - 1) as nat),
        }
    }
}

/// The children from place `i` on, each with its descendants behind it.
pub open spec fn preorder_children<L: Fn(&LabelingProblem) -> Vec<usize>>(
    labeler: &L,
    n: nat,
    kids: Seq<Set<u32>>,
    i: nat,
    fuel: nat,
) -> Result<Seq<Set<u32>>, CanonError>
    decreases fuel, 1nat, kids.len() - i,
{
    if i >= kids.len() {
        Ok(Seq::empty())
    } else {
        match preorder(labeler, n, kids[i as int], fuel) {
            Err(e) => Err(e),
            Ok(below) => match preorder_children(labeler, n, kids, i + 1, fuel) {
                Err(e) => Err(e),
                Ok(rest) => Ok(seq![kids[i as int]] + below + rest),
            },
        }
    }
}

/// The first `limit` of `results`, and all of them where the limit is 0.
pub open spec fn capped(results: Seq<Set<u32>>, limit: nat) -> Seq<Set<u32>> {
    if limit == 0 || results.len() <= limit {
        results
    } else {
        results.subrange(0, limit as int)
    }
}

/// What a search from `start` finds where the start and every family below
/// it has its children: the accepted families among the start and its
/// descendants, in the order in which they are generated and each with the
/// empty set, as far as the limit allows.
pub open spec fn first_accepted<L: Fn(&LabelingProblem) -> Vec<usize>>(
    labeler: &L,
    filter: Filter,
    formula: Option<FormulaTerm>,
    start: Set<u32>,
) -> Option<Seq<Set<u32>>> {
    match preorder(labeler, filter.n as nat, start, pow2(filter.n as nat) + 1) {
        Ok(line) => Some(
            capped(survivors(filter, formula, seq![start] + line), filter.limit as nat),
        ),
        Err(_) => None,
    }
}

/// The results so far with the accepted ones of the waiting families.
pub open spec fn value(filter: Filter, formula: Option<FormulaTerm>, t: Trace) -> Seq<Set<u32>> {
    t.found + survivors(filter, formula, t.batch)
}

/// Whether the limit is not reached yet.
pub open spec fn unfilled(filter: Filter, t: Trace) -> bool {
    filter.limit == 0 || t.found.len() < filter.limit
}

/// Where the search stands when `x` has joined the waiting families, and
/// they have been filtered where they are `batch_size` or more; with it,
/// whether the limit is reached.
pub open spec fn taken_in(filter: Filter, formula: Option<FormulaTerm>, t: Trace, x: Set<u32>) -> (
    Trace,
    bool,
) {
    let joined = Trace { batch: t.batch.push(x), found: t.found, explored: bumped(t.explored) };
    if joined.batch.len() >= filter.batch_size {
        flushed(filter, formula, joined)
    } else {
        (joined, false)
    }
}

/// Where the search stands when the families `line` have joined one after
/// the other, until the limit is reached.
pub open spec fn fed(filter: Filter, formula: Option<FormulaTerm>, t: Trace, line: Seq<Set<u32>>) -> (
    Trace,
    bool,
)
    decreases line.len(),
{
    if line.len() == 0 {
        (t, false)
    } else {
        let (next, hit) = taken_in(filter, formula, t, line.first());
        if hit {
            (next, true)
        } else {
            fed(filter, formula, next, line.drop_first())
        }
    }
}

/// The accepted families of two lines are those of the first and those of
/// the second.
pub proof fn lemma_survivors_concat(
    filter: Filter,
    formula: Option<FormulaTerm>,
    a: Seq<Set<u32>>,
    b: Seq<Set<u32>>,
)
    ensures
        survivors(filter, formula, a + b) == survivors(filter, formula, a) + survivors(
            filter,
            formula,
            b,
        ),
    decreases b.len(),
{
    if b.len() == 0 {
        assert(a + b =~= a);
        assert(survivors(filter, formula, a) + survivors(filter, formula, b) =~= survivors(
            filter,
            formula,
            a,
        ));
    } else {
        let whole = a + b;
        assert(whole.drop_last() =~= a + b.drop_last());
        assert(whole.last() == b.last());
        lemma_survivors_concat(filter, formula, a, b.drop_last());
        let left = survivors(filter, formula, a);
        let inner = survivors(filter, formula, b.drop_last());
        if accepted(filter, formula, b.last()) {
            assert((left + inner).push(completed(b.last())) =~= left + inner.push(
                completed(b.last()),
            ));
        }
    }
}

/// The accepted family of a line of one.
pub proof fn lemma_survivors_one(filter: Filter, formula: Option<FormulaTerm>, x: Set<u32>)
    ensures
        survivors(filter, formula, seq![x]) == (if accepted(filter, formula, x) {
            seq![completed(x)]
        } else {
            Seq::empty()
        }),
{
    let line = seq![x];
    assert(line.drop_last() =~= Seq::<Set<u32>>::empty());
    assert(line.last() == x);
    assert(survivors(filter, formula, line.drop_last()) =~= Seq::<Set<u32>>::empty());
    if accepted(filter, formula, x) {
        assert(Seq::<Set<u32>>::empty().push(completed(x)) =~= seq![completed(x)]);
    }
}

/// Where the first results fill the limit, later results do not count.
pub proof fn lemma_capped_prefix(a: Seq<Set<u32>>, b: Seq<Set<u32>>, limit: nat)
    requires
        limit > 0,
        a.len() >= limit,
    ensures
        capped(a + b, limit) == capped(a, limit),
{
    assert((a + b).subrange(0, limit as int) =~= a.subrange(0, limit as int));
    if a.len() == limit {
        assert(a.subrange(0, limit as int) =~= a);
        if b.len() == 0 {
            assert(a + b =~= a);
        }
    }
}

/// Filtering keeps what will be found, and says that the limit is reached
/// exactly when the results fill it.
pub proof fn lemma_flushed(filter: Filter, formula: Option<FormulaTerm>, t: Trace)
    requires
        unfilled(filter, t),
    ensures
        ({
            let (next, hit) = flushed(filter, formula, t);
            if hit {
                &&& filter.limit > 0
                &&& next.batch.len() == 0
                &&& next.found == capped(value(filter, formula, t), filter.limit as nat)
                &&& next.found.len() == filter.limit
            } else {
                &&& value(filter, formula, next) == value(filter, formula, t)
                &&& unfilled(filter, next)
                &&& next.found == capped(value(filter, formula, t), filter.limit as nat) || t.batch.len()
                    == 0
            }
        }),
{
    let (next, hit) = flushed(filter, formula, t);
    let all = value(filter, formula, t);
    if t.batch.len() > 0 {
        let fresh = survivors(filter, formula, t.batch);
        let taken = room(filter.limit as nat, t.found.len(), fresh.len());
        assert(survivors(filter, formula, next.batch) =~= Seq::<Set<u32>>::empty());
        if taken == fresh.len() {
            assert(fresh.subrange(0, taken as int) =~= fresh);
            assert(next.found =~= all);
            assert(value(filter, formula, next) =~= all);
        } else {
            assert(next.found =~= all.subrange(0, filter.limit as int));
        }
    }
}

/// One more family joins what will be found where it is accepted.
pub proof fn lemma_taken_in(filter: Filter, formula: Option<FormulaTerm>, t: Trace, x: Set<u32>)
    requires
        unfilled(filter, t),
    ensures
        ({
            let (next, hit) = taken_in(filter, formula, t, x);
            let all = value(filter, formula, t) + survivors(filter, formula, seq![x]);
            if hit {
                &&& filter.limit > 0
                &&& next.batch.len() == 0
                &&& next.found == capped(all, filter.limit as nat)
                &&& next.found.len() == filter.limit
            } else {
                &&& value(filter, formula, next) == all
                &&& unfilled(filter, next)
            }
        }),
{
    let joined = Trace { batch: t.batch.push(x), found: t.found, explored: bumped(t.explored) };
    lemma_survivors_concat(filter, formula, t.batch, seq![x]);
    assert(t.batch.push(x) =~= t.batch + seq![x]);
    assert(value(filter, formula, joined) =~= value(filter, formula, t) + survivors(
        filter,
        formula,
        seq![x],
    ));
    if joined.batch.len() >= filter.batch_size {
        lemma_flushed(filter, formula, joined);
    }
}

/// A line of families joins what will be found, as far as the limit
/// allows.
pub proof fn lemma_fed(filter: Filter, formula: Option<FormulaTerm>, t: Trace, line: Seq<Set<u32>>)
    requires
        unfilled(filter, t),
    ensures
        ({
            let (next, hit) = fed(filter, formula, t, line);
            let all = value(filter, formula, t) + survivors(filter, formula, line);
            if hit {
                &&& filter.limit > 0
                &&& next.batch.len() == 0
                &&& next.found == capped(all, filter.limit as nat)
                &&& next.found.len() == filter.limit
            } else {
                &&& value(filter, formula, next) == all
                &&& unfilled(filter, next)
            }
        }),
    decreases line.len(),
{
    if line.len() == 0 {
        assert(survivors(filter, formula, line) =~= Seq::<Set<u32>>::empty());
        assert(value(filter, formula, t) + survivors(filter, formula, line) =~= value(
            filter,
            formula,
            t,
        ));
    } else {
        let x = line.first();
        let rest = line.drop_first();
        let (next, hit) = taken_in(filter, formula, t, x);
        lemma_taken_in(filter, formula, t, x);
        lemma_survivors_concat(filter, formula, seq![x], rest);
        assert(seq![x] + rest =~= line);
        let one = survivors(filter, formula, seq![x]);
        let more = survivors(filter, formula, rest);
        let base = value(filter, formula, t);
        assert(base + (one + more) =~= (base + one) + more);
        if hit {
            lemma_capped_prefix(next.found, Seq::empty(), filter.limit as nat);
            if (base + one).len() >= filter.limit {
                lemma_capped_prefix(base + one, more, filter.limit as nat);
            }
        } else {
            lemma_fed(filter, formula, next, rest);
        }
    }
}

/// Two lines join one after the other.
pub proof fn lemma_fed_concat(
    filter: Filter,
    formula: Option<FormulaTerm>,
    t: Trace,
    a: Seq<Set<u32>>,
    b: Seq<Set<u32>>,
)
    ensures
        fed(filter, formula, t, a + b) == ({
            let (next, hit) = fed(filter, formula, t, a);
            if hit {
                (next, true)
            } else {
                fed(filter, formula, next, b)
            }
        }),
    decreases a.len(),
{
    if a.len() == 0 {
        assert(a + b =~= b);
    } else {
        let whole = a + b;
        assert(whole.first() == a.first());
        assert(whole.drop_first() =~= a.drop_first() + b);
        let (next, hit) = taken_in(filter, formula, t, a.first());
        if !hit {
            lemma_fed_concat(filter, formula, next, a.drop_first(), b);
        }
    }
}

/// Where every family below `family` has its children, the search below
/// `family` is the joining of its descendants in the order in which they
/// are generated.
pub proof fn lemma_explore_is_fed<L: Fn(&LabelingProblem) -> Vec<usize>>(
    labeler: &L,
    filter: Filter,
    formula: Option<FormulaTerm>,
    family: Set<u32>,
    t: Trace,
    fuel: nat,
)
    requires
        preorder(labeler, filter.n as nat, family, fuel) is Ok,
    ensures
        explore(labeler, filter, formula, family, t, fuel) == Ok::<(Trace, bool), CanonError>(
            fed(filter, formula, t, preorder(labeler, filter.n as nat, family, fuel)->Ok_0),
        ),
    decreases fuel, 0nat, 0nat,
{
    if fuel > 0 {
        let kids = children(labeler, family, filter.n as nat)->Ok_0;
        lemma_explore_children_is_fed(labeler, filter, formula, kids, 0, t, (fuel - 1) as nat);
    }
}

/// The search through the children from place `i` on is the joining of
/// these children and their descendants.
pub proof fn lemma_explore_children_is_fed<L: Fn(&LabelingProblem) -> Vec<usize>>(
    labeler: &L,
    filter: Filter,
    formula: Option<FormulaTerm>,
    kids: Seq<Set<u32>>,
    i: nat,
    t: Trace,
    fuel: nat,
)
    requires
        preorder_children(labeler, filter.n as nat, kids, i, fuel) is Ok,
    ensures
        explore_children(labeler, filter, formula, kids, i, t, fuel) == Ok::<
            (Trace, bool),
            CanonError,
        >(
            fed(
                filter,
                formula,
                t,
                preorder_children(labeler, filter.n as nat, kids, i, fuel)->Ok_0,
            ),
        ),
    decreases fuel, 1nat, kids.len() - i,
{
    let n = filter.n as nat;
    if i < kids.len() {
        let kid = kids[i as int];
        let below = preorder(labeler, n, kid, fuel)->Ok_0;
        let rest = preorder_children(labeler, n, kids, i + 1, fuel)->Ok_0;
        let line = seq![kid] + below + rest;
        let (filtered, hit) = taken_in(filter, formula, t, kid);
        assert(seq![kid] + below + rest =~= seq![kid] + (below + rest));
        lemma_fed_concat(filter, formula, t, seq![kid], below + rest);
        assert(fed(filter, formula, t, seq![kid]) == (filtered, hit)) by {
            let one = seq![kid];
            assert(one.first() == kid);
            assert(one.drop_first() =~= Seq::<Set<u32>>::empty());
            assert(fed(filter, formula, filtered, one.drop_first()) == (filtered, false));
        }
        if !hit {
            lemma_explore_is_fed(labeler, filter, formula, kid, filtered, fuel);
            lemma_fed_concat(filter, formula, filtered, below, rest);
            let (after, hit_below) = fed(filter, formula, filtered, below);
            if !hit_below {
                lemma_explore_children_is_fed(labeler, filter, formula, kids, i + 1, after, fuel);
            }
        }
    }
}

/// Where the start and every family below it has its children, a search
/// finds the accepted families among the start and its descendants, in the
/// order in which they are generated and each with the empty set, as far
/// as the limit allows: whatever the size of the batches.
pub proof fn lemma_search_finds_the_first_accepted<L: Fn(&LabelingProblem) -> Vec<usize>>(
    labeler: &L,
    filter: Filter,
    formula: Option<FormulaTerm>,
    start: Set<u32>,
)
    requires
        preorder(labeler, filter.n as nat, start, pow2(filter.n as nat) + 1) is Ok,
    ensures
        search(labeler, filter, formula, start) is Ok,
        search(labeler, filter, formula, start)->Ok_0.found == capped(
            survivors(
                filter,
                formula,
                seq![start] + preorder(
                    labeler,
                    filter.n as nat,
                    start,
                    pow2(filter.n as nat) + 1,
                )->Ok_0,
            ),
            filter.limit as nat,
        ),
{
    let fuel = pow2(filter.n as nat) + 1;
    let line = preorder(labeler, filter.n as nat, start, fuel)->Ok_0;
    let first = Trace { batch: seq![start], found: Seq::empty(), explored: 0 };
    lemma_explore_is_fed(labeler, filter, formula, start, first, fuel);
    lemma_fed(filter, formula, first, line);
    lemma_survivors_concat(filter, formula, seq![start], line);
    assert(value(filter, formula, first) =~= survivors(filter, formula, seq![start]));
    let (last, hit) = fed(filter, formula, first, line);
    if !hit {
        lemma_flushed(filter, formula, last);
        let (done, _) = flushed(filter, formula, last);
        if last.batch.len() == 0 {
            assert(survivors(filter, formula, last.batch) =~= Seq::<Set<u32>>::empty());
            assert(value(filter, formula, last) =~= last.found);
        }
    }
}

/// Where the search that takes each result at once stands when it has
/// looked at `x`; with it, whether the limit is reached.
pub open spec fn sipped(filter: Filter, formula: Option<FormulaTerm>, t: Trace, x: Set<u32>) -> (
    Trace,
    bool,
) {
    let took = accepted(filter, formula, x);
    let seen = if took {
        Trace { batch: t.batch, found: t.found.push(completed(x)), explored: t.explored }
    } else {
        t
    };
    (seen, took && filter.limit > 0 && seen.found.len() >= filter.limit)
}

/// Where the search that takes each result at once stands when it has
/// counted and looked at the families `line` one after the other, until the
/// limit is reached.
pub open spec fn poured(
    filter: Filter,
    formula: Option<FormulaTerm>,
    t: Trace,
    line: Seq<Set<u32>>,
) -> (Trace, bool)
    decreases line.len(),
{
    if line.len() == 0 {
        (t, false)
    } else {
        let counted = Trace { batch: t.batch, found: t.found, explored: bumped(t.explored) };
        let (seen, hit) = sipped(filter, formula, counted, line.first());
        if hit {
            (seen, true)
        } else {
            poured(filter, formula, seen, line.drop_first())
        }
    }
}

/// Two lines are looked at one after the other.
pub proof fn lemma_poured_concat(
    filter: Filter,
    formula: Option<FormulaTerm>,
    t: Trace,
    a: Seq<Set<u32>>,
    b: Seq<Set<u32>>,
)
    ensures
        poured(filter, formula, t, a + b) == ({
            let (next, hit) = poured(filter, formula, t, a);
            if hit {
                (next, true)
            } else {
                poured(filter, formula, next, b)
            }
        }),
    decreases a.len(),
{
    if a.len() == 0 {
        assert(a + b =~= b);
    } else {
        let whole = a + b;
        assert(whole.first() == a.first());
        assert(whole.drop_first() =~= a.drop_first() + b);
        let counted = Trace { batch: t.batch, found: t.found, explored: bumped(t.explored) };
        let (seen, hit) = sipped(filter, formula, counted, a.first());
        if !hit {
            lemma_poured_concat(filter, formula, seen, a.drop_first(), b);
        }
    }
}

/// A family that is looked at is a result where it is accepted.
pub proof fn lemma_sipped(filter: Filter, formula: Option<FormulaTerm>, t: Trace, x: Set<u32>)
    requires
        unfilled(filter, t),
    ensures
        ({
            let (seen, hit) = sipped(filter, formula, t, x);
            &&& seen.found == t.found + survivors(filter, formula, seq![x])
            &&& hit ==> filter.limit > 0 && seen.found.len() == filter.limit
            &&& !hit ==> unfilled(filter, seen)
        }),
{
    lemma_survivors_one(filter, formula, x);
    let (seen, hit) = sipped(filter, formula, t, x);
    if accepted(filter, formula, x) {
        assert(seen.found =~= t.found + seq![completed(x)]);
    } else {
        assert(seen.found =~= t.found + Seq::<Set<u32>>::empty());
    }
}

/// A line of families that is looked at gives the accepted ones among its
/// families as results, as far as the limit allows.
pub proof fn lemma_poured(
    filter: Filter,
    formula: Option<FormulaTerm>,
    t: Trace,
    line: Seq<Set<u32>>,
)
    requires
        unfilled(filter, t),
    ensures
        ({
            let (next, hit) = poured(filter, formula, t, line);
            &&& next.found == capped(
                t.found + survivors(filter, formula, line),
                filter.limit as nat,
            )
            &&& hit ==> filter.limit > 0 && next.found.len() == filter.limit
            &&& !hit ==> unfilled(filter, next)
        }),
    decreases line.len(),
{
    if line.len() == 0 {
        assert(survivors(filter, formula, line) =~= Seq::<Set<u32>>::empty());
        assert(t.found + survivors(filter, formula, line) =~= t.found);
    } else {
        let x = line.first();
        let rest = line.drop_first();
        let counted = Trace { batch: t.batch, found: t.found, explored: bumped(t.explored) };
        let (seen, hit) = sipped(filter, formula, counted, x);
        lemma_sipped(filter, formula, counted, x);
        lemma_survivors_concat(filter, formula, seq![x], rest);
        assert(seq![x] + rest =~= line);
        let one = survivors(filter, formula, seq![x]);
        let more = survivors(filter, formula, rest);
        assert(t.found + (one + more) =~= (t.found + one) + more);
        if hit {
            lemma_capped_prefix(seen.found, more, filter.limit as nat);
        } else {
            lemma_poured(filter, formula, seen, rest);
        }
    }
}

/// Where every family below `family` has its children, the search at and
/// below `family` that takes each result at once looks at `family` and then
/// at its descendants in the order in which they are generated.
pub proof fn lemma_stream_is_poured<L: Fn(&LabelingProblem) -> Vec<usize>>(
    labeler: &L,
    filter: Filter,
    formula: Option<FormulaTerm>,
    family: Set<u32>,
    t: Trace,
    fuel: nat,
)
    requires
        preorder(labeler, filter.n as nat, family, fuel) is Ok,
    ensures
        stream(labeler, filter, formula, family, t, fuel) == Ok::<(Trace, bool), CanonError>(
            {
                let (seen, hit) = sipped(filter, formula, t, family);
                if hit {
                    (seen, true)
                } else {
                    poured(
                        filter,
                        formula,
                        seen,
                        preorder(labeler, filter.n as nat, family, fuel)->Ok_0,
                    )
                }
            },
        ),
    decreases fuel, 0nat, 0nat,
{
    let (seen, hit) = sipped(filter, formula, t, family);
    if !hit && fuel > 0 {
        let kids = children(labeler, family, filter.n as nat)->Ok_0;
        lemma_stream_children_is_poured(labeler, filter, formula, kids, 0, seen, (fuel - 1) as nat);
    }
}

/// The search through the children from place `i` on that takes each
/// result at once looks at these children and their descendants.
pub proof fn lemma_stream_children_is_poured<L: Fn(&LabelingProblem) -> Vec<usize>>(
    labeler: &L,
    filter: Filter,
    formula: Option<FormulaTerm>,
    kids: Seq<Set<u32>>,
    i: nat,
    t: Trace,
    fuel: nat,
)
    requires
        preorder_children(labeler, filter.n as nat, kids, i, fuel) is Ok,
    ensures
        stream_children(labeler, filter, formula, kids, i, t, fuel) == Ok::<
            (Trace, bool),
            CanonError,
        >(
            poured(
                filter,
                formula,
                t,
                preorder_children(labeler, filter.n as nat, kids, i, fuel)->Ok_0,
            ),
        ),
    decreases fuel, 1nat, kids.len() - i,
{
    let n = filter.n as nat;
    if i < kids.len() {
        let kid = kids[i as int];
        let below = preorder(labeler, n, kid, fuel)->Ok_0;
        let rest = preorder_children(labeler, n, kids, i + 1, fuel)->Ok_0;
        let counted = Trace { batch: t.batch, found: t.found, explored: bumped(t.explored) };
        let (seen, hit) = sipped(filter, formula, counted, kid);
        assert(seq![kid] + below + rest =~= seq![kid] + (below + rest));
        lemma_poured_concat(filter, formula, t, seq![kid], below + rest);
        assert(poured(filter, formula, t, seq![kid]) == (seen, hit)) by {
            let one = seq![kid];
            assert(one.first() == kid);
            assert(one.drop_first() =~= Seq::<Set<u32>>::empty());
            assert(poured(filter, formula, seen, one.drop_first()) == (seen, false));
        }
        lemma_stream_is_poured(labeler, filter, formula, kid, counted, fuel);
        if !hit {
            lemma_poured_concat(filter, formula, seen, below, rest);
            let (after, hit_below) = poured(filter, formula, seen, below);
            if !hit_below {
                lemma_stream_children_is_poured(
                    labeler,
                    filter,
                    formula,
                    kids,
                    i + 1,
                    after,
                    fuel,
                );
            }
        }
    }
}

/// Where the start and every family below it has its children, a search
/// that takes each result at once finds what a search with batches finds:
/// the accepted families among the start and its descendants, in the order
/// in which they are generated and each with the empty set, as far as the
/// limit allows.
pub proof fn lemma_stream_finds_the_first_accepted<L: Fn(&LabelingProblem) -> Vec<usize>>(
    labeler: &L,
    filter: Filter,
    formula: Option<FormulaTerm>,
    start: Set<u32>,
)
    requires
        preorder(labeler, filter.n as nat, start, pow2(filter.n as nat) + 1) is Ok,
    ensures
        stream_search(labeler, filter, formula, start) is Ok,
        stream_search(labeler, filter, formula, start)->Ok_0.found == capped(
            survivors(
                filter,
                formula,
                seq![start] + preorder(
                    labeler,
                    filter.n as nat,
                    start,
                    pow2(filter.n as nat) + 1,
                )->Ok_0,
            ),
            filter.limit as nat,
        ),
        stream_search(labeler, filter, formula, start)->Ok_0.found == search(
            labeler,
            filter,
            formula,
            start,
        )->Ok_0.found,
{
    let fuel = pow2(filter.n as nat) + 1;
    let line = preorder(labeler, filter.n as nat, start, fuel)->Ok_0;
    let first = Trace { batch: Seq::empty(), found: Seq::empty(), explored: 0 };
    lemma_stream_is_poured(labeler, filter, formula, start, first, fuel);
    lemma_sipped(filter, formula, first, start);
    lemma_survivors_concat(filter, formula, seq![start], line);
    let (seen, hit) = sipped(filter, formula, first, start);
    let one = survivors(filter, formula, seq![start]);
    let more = survivors(filter, formula, line);
    assert(seen.found =~= one);
    if hit {
        lemma_capped_prefix(one, more, filter.limit as nat);
        lemma_capped_prefix(one, Seq::empty(), filter.limit as nat);
        assert(one + Seq::<Set<u32>>::empty() =~= one);
    } else {
        lemma_poured(filter, formula, seen, line);
    }
    lemma_search_finds_the_first_accepted(labeler, filter, formula, start);
}

/// Whether a descent leads from `from` through its child `kid` to `to`.
pub open spec fn leads_through<L: Fn(&LabelingProblem) -> Vec<usize>>(
    labeler: &L,
    n: nat,
    from: Set<u32>,
    kid: Set<u32>,
    to: Set<u32>,
) -> bool {
    exists|path: Seq<Set<u32>>|
        path.len() >= 2 && path[0] == from && path[1] == kid && path.last() == to
            && #[trigger] is_descent(labeler, n, path)
}

/// Whether `x` is one of `line`.
pub open spec fn in_line(line: Seq<Set<u32>>, x: Set<u32>) -> bool {
    exists|i: int| 0 <= i < line.len() && line[i] == x
}

/// A descent from a child goes on from its parent.
pub proof fn lemma_leads_on<L: Fn(&LabelingProblem) -> Vec<usize>>(
    labeler: &L,
    n: nat,
    from: Set<u32>,
    kid: Set<u32>,
    grandchild: Set<u32>,
    to: Set<u32>,
)
    requires
        children(labeler, from, n) is Ok,
        among(children(labeler, from, n)->Ok_0, kid),
        leads_through(labeler, n, kid, grandchild, to),
    ensures
        leads_through(labeler, n, from, kid, to),
{
    let path = choose|path: Seq<Set<u32>>|
        path.len() >= 2 && path[0] == kid && path[1] == grandchild && path.last() == to
            && #[trigger] is_descent(labeler, n, path);
    let longer = seq![from] + path;
    assert forall|i: int| 0 <= i < longer.len() - 1 implies children(
        labeler,
        #[trigger] longer[i],
        n,
    ) is Ok && among(children(labeler, longer[i], n)->Ok_0, longer[i + 1]) by {
        if i > 0 {
            assert(longer[i] == path[i - 1]);
            assert(longer[i + 1] == path[i]);
            assert(children(labeler, path[i - 1], n) is Ok);
        } else {
            assert(longer[1] == path[0]);
        }
    }
    assert(longer[1] == kid);
    assert(longer.last() == to);
    assert(is_descent(labeler, n, longer));
}

/// A child is reached from its parent.
pub proof fn lemma_leads_to_child<L: Fn(&LabelingProblem) -> Vec<usize>>(
    labeler: &L,
    n: nat,
    from: Set<u32>,
    kid: Set<u32>,
)
    requires
        children(labeler, from, n) is Ok,
        among(children(labeler, from, n)->Ok_0, kid),
    ensures
        leads_through(labeler, n, from, kid, kid),
{
    let path = seq![from, kid];
    assert forall|i: int| 0 <= i < path.len() - 1 implies children(
        labeler,
        #[trigger] path[i],
        n,
    ) is Ok && among(children(labeler, path[i], n)->Ok_0, path[i + 1]) by {
        assert(path[0] == from);
        assert(path[1] == kid);
    }
    assert(is_descent(labeler, n, path));
    assert(path.last() == kid);
}

/// Two descents from one family to one family go through one child.
pub proof fn lemma_one_way<L: Fn(&LabelingProblem) -> Vec<usize>>(
    labeler: &L,
    n: nat,
    from: Set<u32>,
    a: Set<u32>,
    b: Set<u32>,
    to: Set<u32>,
)
    requires
        n <= 32,
        leads_through(labeler, n, from, a, to),
        leads_through(labeler, n, from, b, to),
    ensures
        a == b,
{
    let p = choose|path: Seq<Set<u32>>|
        path.len() >= 2 && path[0] == from && path[1] == a && path.last() == to
            && #[trigger] is_descent(labeler, n, path);
    let q = choose|path: Seq<Set<u32>>|
        path.len() >= 2 && path[0] == from && path[1] == b && path.last() == to
            && #[trigger] is_descent(labeler, n, path);
    lemma_generated_once(labeler, n, p, q);
}

/// A family is not reached from itself.
pub proof fn lemma_not_back<L: Fn(&LabelingProblem) -> Vec<usize>>(
    labeler: &L,
    n: nat,
    from: Set<u32>,
    kid: Set<u32>,
)
    requires
        n <= 32,
    ensures
        !leads_through(labeler, n, from, kid, from),
{
    if leads_through(labeler, n, from, kid, from) {
        let p = choose|path: Seq<Set<u32>>|
            path.len() >= 2 && path[0] == from && path[1] == kid && path.last() == from
                && #[trigger] is_descent(labeler, n, path);
        lemma_descent_grows(labeler, n, p);
    }
}

/// The descendants of a family in the order in which they are generated:
/// each is reached from the family through one of its children, and none
/// stands there twice.
pub proof fn lemma_preorder_distinct<L: Fn(&LabelingProblem) -> Vec<usize>>(
    labeler: &L,
    n: nat,
    family: Set<u32>,
    fuel: nat,
)
    requires
        n <= 32,
        preorder(labeler, n, family, fuel) is Ok,
    ensures
        preorder(labeler, n, family, fuel)->Ok_0.no_duplicates(),
        forall|x: Set<u32>|
            #[trigger] in_line(preorder(labeler, n, family, fuel)->Ok_0, x) ==> exists|
                kid: Set<u32>,
            | leads_through(labeler, n, family, kid, x),
    decreases fuel, 0nat, 0nat,
{
    if fuel > 0 {
        let kids = children(labeler, family, n)->Ok_0;
        lemma_preorder_children_distinct(labeler, n, family, kids, 0, (fuel - 1) as nat);
        let line = preorder(labeler, n, family, fuel)->Ok_0;
        assert forall|x: Set<u32>| #[trigger] in_line(line, x) implies exists|kid: Set<u32>|
            leads_through(labeler, n, family, kid, x) by {
            let j = choose|j: int|
                0 <= j < kids.len() && leads_through(labeler, n, family, kids[j], x);
            assert(leads_through(labeler, n, family, kids[j], x));
        }
    } else {
        let line = preorder(labeler, n, family, fuel)->Ok_0;
        assert forall|x: Set<u32>| #[trigger] in_line(line, x) implies exists|kid: Set<u32>|
            leads_through(labeler, n, family, kid, x) by {}
    }
}

/// The children of a family from place `i` on, each with its descendants:
/// each of these families is reached from the family through one of these
/// children, and none stands there twice.
pub proof fn lemma_preorder_children_distinct<L: Fn(&LabelingProblem) -> Vec<usize>>(
    labeler: &L,
    n: nat,
    parent: Set<u32>,
    kids: Seq<Set<u32>>,
    i: nat,
    fuel: nat,
)
    requires
        n <= 32,
        children(labeler, parent, n) == Ok::<Seq<Set<u32>>, CanonError>(kids),
        preorder_children(labeler, n, kids, i, fuel) is Ok,
    ensures
        preorder_children(labeler, n, kids, i, fuel)->Ok_0.no_duplicates(),
        forall|x: Set<u32>|
            #[trigger] in_line(preorder_children(labeler, n, kids, i, fuel)->Ok_0, x) ==> exists|
                j: int,
            | i <= j < kids.len() && leads_through(labeler, n, parent, kids[j], x),
    decreases fuel, 1nat, kids.len() - i,
{
    let line = preorder_children(labeler, n, kids, i, fuel)->Ok_0;
    if i < kids.len() {
        let kid = kids[i as int];
        let below = preorder(labeler, n, kid, fuel)->Ok_0;
        let rest = preorder_children(labeler, n, kids, i + 1, fuel)->Ok_0;
        assert(line == seq![kid] + below + rest);
        assert(among(kids, kid));
        lemma_preorder_distinct(labeler, n, kid, fuel);
        lemma_preorder_children_distinct(labeler, n, parent, kids, i + 1, fuel);
        lemma_leads_to_child(labeler, n, parent, kid);
        lemma_children_distinct(labeler, parent, n);
        // every family of the line is reached through a child from place i on
        assert forall|k: int| 0 <= k < line.len() implies exists|j: int|
            i <= j < kids.len() && leads_through(labeler, n, parent, kids[j], #[trigger] line[k]) by {
            if k == 0 {
                assert(line[k] == kid);
                assert(leads_through(labeler, n, parent, kids[i as int], line[k]));
            } else if k < 1 + below.len() {
                let target = below[k - 1];
                assert(line[k] == target);
                assert(in_line(below, target));
                let grandchild = choose|g: Set<u32>| leads_through(labeler, n, kid, g, target);
                lemma_leads_on(labeler, n, parent, kid, grandchild, target);
                assert(leads_through(labeler, n, parent, kids[i as int], line[k]));
            } else {
                let target = rest[k - 1 - below.len()];
                assert(line[k] == target);
                assert(in_line(rest, target));
                let j = choose|j: int|
                    i + 1 <= j < kids.len() && leads_through(labeler, n, parent, kids[j], target);
                assert(i <= j < kids.len() && leads_through(labeler, n, parent, kids[j], line[k]));
            }
        }
        assert forall|x: Set<u32>| #[trigger] in_line(line, x) implies exists|j: int|
            i <= j < kids.len() && leads_through(labeler, n, parent, kids[j], x) by {
            let k = choose|k: int| 0 <= k < line.len() && line[k] == x;
            let j = choose|j: int|
                i <= j < kids.len() && leads_through(labeler, n, parent, kids[j], line[k]);
            assert(leads_through(labeler, n, parent, kids[j], x));
        }
        // no family stands twice in the line
        assert forall|a: int, b: int| 0 <= a < b < line.len() implies line[a] != line[b] by {
            let head = 1 + below.len();
            if b < head {
                // both in the child and its descendants
                if a == 0 {
                    let target = below[b - 1];
                    assert(line[b] == target);
                    assert(in_line(below, target));
                    if line[b] == kid {
                        let g = choose|g: Set<u32>| leads_through(labeler, n, kid, g, target);
                        lemma_not_back(labeler, n, kid, g);
                    }
                } else {
                    assert(line[a] == below[a - 1]);
                    assert(line[b] == below[b - 1]);
                }
            } else if a >= head {
                assert(line[a] == rest[a - head]);
                assert(line[b] == rest[b - head]);
            } else {
                // one in the child's part, one behind it
                let later = rest[b - head];
                assert(line[b] == later);
                assert(in_line(rest, later));
                let j = choose|j: int|
                    i + 1 <= j < kids.len() && leads_through(labeler, n, parent, kids[j], later);
                if a == 0 {
                    assert(line[a] == kid);
                } else {
                    let target = below[a - 1];
                    assert(line[a] == target);
                    assert(in_line(below, target));
                    let g = choose|g: Set<u32>| leads_through(labeler, n, kid, g, target);
                    lemma_leads_on(labeler, n, parent, kid, g, target);
                }
                assert(leads_through(labeler, n, parent, kid, line[a]));
                if line[a] == line[b] {
                    lemma_one_way(labeler, n, parent, kid, kids[j], line[a]);
                    assert(kids[i as int] == kids[j]);
                    assert(false);
                }
            }
        }
    } else {
        assert forall|x: Set<u32>| #[trigger] in_line(line, x) implies exists|j: int|
            i <= j < kids.len() && leads_through(labeler, n, parent, kids[j], x) by {}
    }
}

/// No family is generated twice: the start and its descendants, in the
/// order in which a search generates them, are all different.
pub proof fn lemma_generated_families_distinct<L: Fn(&LabelingProblem) -> Vec<usize>>(
    labeler: &L,
    n: nat,
    start: Set<u32>,
    fuel: nat,
)
    requires
        n <= 32,
        preorder(labeler, n, start, fuel) is Ok,
    ensures
        (seq![start] + preorder(labeler, n, start, fuel)->Ok_0).no_duplicates(),
{
    let line = preorder(labeler, n, start, fuel)->Ok_0;
    let all = seq![start] + line;
    lemma_preorder_distinct(labeler, n, start, fuel);
    assert forall|a: int, b: int| 0 <= a < all.len() && 0 <= b < all.len() && a != b implies all[a]
        != all[b] by {
        if a == 0 || b == 0 {
            let k = if a == 0 {
                b
            } else {
                a
            };
            let target = line[k - 1];
            assert(all[k] == target);
            assert(in_line(line, target));
            if all[k] == start {
                let kid = choose|kid: Set<u32>| leads_through(labeler, n, start, kid, target);
                lemma_not_back(labeler, n, start, kid);
            }
        } else {
            assert(all[a] == line[a - 1]);
            assert(all[b] == line[b - 1]);
        }
    }
}

} // verus!

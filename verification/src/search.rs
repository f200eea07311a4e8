//! Orderly generation of union-closed families, each once up to relabeling
//! of the ground set.

use crate::bits::{has_bit, pow2, test_bit};
use crate::canon::{
    accepts_problems, canonical_delete, canonical_form, canonical_parent, canonicalize,
    functional, same_items, CanonCache, CanonError, Family,
};
use crate::family::{
    ascending, compare_members, insert_member, is_member, lemma_sorted_is, lex_less, members,
    sorted, to_family, union_closed, Order,
};
use crate::graph::LabelingProblem;
use crate::model_checker::{satisfies, Formula, FormulaTerm, ModelChecker};
use crate::relabel::{lemma_relabeled_union_closed, relabeling_of};
use vstd::prelude::*;

verus! {

/// What a search is to do.
#[derive(Debug)]
pub struct Config {
    /// The sizes of the ground set to search, one after the other.
    pub sizes: Vec<usize>,
    /// The bound on the memory of canonical forms; 0 for no memory.
    pub cache_size: usize,
    /// The number of families after which the search stops; 0 for no limit.
    pub limit: usize,
    /// Where the families go: a file name with `{n}` for the size.
    pub output_pattern: String,
    /// Whether only families with every point distinguished are wanted.
    pub search_semiframes: bool,
    /// The family from which the search starts, where it is not the family
    /// of the full set alone.
    pub starting_family: Option<Family>,
    /// The number of discovered families that are filtered at a time.
    pub batch_size: usize,
    /// The number of explored families between two reports of progress.
    pub log_interval: usize,
    /// The number of threads that a parallel search is to use.
    pub num_threads: usize,
}

/// Whether `s` holds exactly one of the points `p` and `q`.
pub open spec fn separates(s: u32, p: int, q: int) -> bool {
    has_bit(s, p - 1) != has_bit(s, q - 1)
}

/// Whether some member of `family` holds exactly one of the points `p` and
/// `q`.
pub open spec fn separated(family: Set<u32>, p: int, q: int) -> bool {
    exists|s: u32| family.contains(s) && separates(s, p, q)
}

/// Whether the point `p` is distinguished: for every other point, some
/// member of `family` holds exactly one of the two.
pub open spec fn distinguished(family: Set<u32>, p: int, n: nat) -> bool {
    forall|q: int| 1 <= q <= n && q != p ==> #[trigger] separated(family, p, q)
}

/// Whether every point of the ground set is distinguished.
pub open spec fn all_distinguished(family: Set<u32>, n: nat) -> bool {
    forall|p: int| 1 <= p <= n ==> #[trigger] distinguished(family, p, n)
}

/// Whether the points `p` and `q` lie in the same members of `family`.
pub open spec fn inseparable(family: Set<u32>, p: int, q: int) -> bool {
    forall|s: u32| family.contains(s) ==> has_bit(s, p - 1) == has_bit(s, q - 1)
}

/// A family lacks a distinguished point exactly when two different points
/// of the ground set lie in the same members of it.
pub proof fn lemma_not_distinguished_iff_inseparable_pair(family: Set<u32>, n: nat)
    ensures
        !all_distinguished(family, n) <==> exists|p: int, q: int|
            1 <= p <= n && 1 <= q <= n && p != q && #[trigger] inseparable(family, p, q),
{
    if !all_distinguished(family, n) {
        let p = choose|p: int| 1 <= p <= n && !distinguished(family, p, n);
        let q = choose|q: int| 1 <= q <= n && q != p && !separated(family, p, q);
        assert forall|s: u32| family.contains(s) implies has_bit(s, p - 1) == has_bit(
            s,
            q - 1,
        ) by {
            assert(!(family.contains(s) && separates(s, p, q)));
        }
        assert(inseparable(family, p, q));
    }
    if exists|p: int, q: int|
        1 <= p <= n && 1 <= q <= n && p != q && #[trigger] inseparable(family, p, q) {
        let (p, q) = choose|p: int, q: int|
            1 <= p <= n && 1 <= q <= n && p != q && #[trigger] inseparable(family, p, q);
        assert(!distinguished(family, p, n)) by {
            if distinguished(family, p, n) {
                assert(separated(family, p, q));
                let s = choose|s: u32| family.contains(s) && separates(s, p, q);
                assert(false);
            }
        }
    }
}

/// Whether the point `p` is distinguished in `family`.
pub fn is_distinguished(family: &Family, p: usize, n: usize) -> (b: bool)
    requires
        1 <= p <= 32,
        n <= 32,
    ensures
        b == distinguished(family@, p as int, n as nat),
{
    let listed = members(family);
    let mut q: usize = 1;
    while q <= n
        invariant
            1 <= p <= 32,
            n <= 32,
            1 <= q <= n + 1,
            listed@.to_set() == family@,
            forall|r: int| 1 <= r < q && r != p ==> #[trigger] separated(family@, p as int, r),
        decreases n + 1 - q,
    {
        if p != q {
            let mut is_separated = false;
            let mut i: usize = 0;
            while i < listed.len() && !is_separated
                invariant
                    1 <= p <= 32,
                    1 <= q <= 32,
                    i <= listed@.len(),
                    listed@.to_set() == family@,
                    is_separated ==> separated(family@, p as int, q as int),
                    !is_separated ==> forall|j: int|
                        0 <= j < i ==> !separates(listed@[j], p as int, q as int),
                decreases listed@.len() - i + (if is_separated { 0int } else { 1int }),
            {
                let s_int: u32 = listed[i];
                if test_bit(s_int, p - 1) != test_bit(s_int, q - 1) {
                    is_separated = true;
                    proof {
                        assert(listed@.to_set().contains(listed@[i as int]));
                    }
                } else {
                    i = i + 1;
                }
            }
            if !is_separated {
                proof {
                    assert forall|s: u32| family@.contains(s) implies !separates(
                        s,
                        p as int,
                        q as int,
                    ) by {
                        assert(listed@.contains(s));
                        let j = choose|j: int| 0 <= j < listed@.len() && listed@[j] == s;
                        assert(!separates(listed@[j], p as int, q as int));
                    }
                    assert(!separated(family@, p as int, q as int));
                }
                return false;
            }
        }
        q = q + 1;
    }
    true
}

/// Whether every point of the ground set is distinguished in `family`.
pub fn has_all_distinguished(family: &Family, n: usize) -> (b: bool)
    requires
        n <= 32,
    ensures
        b == all_distinguished(family@, n as nat),
{
    let mut p: usize = 1;
    while p <= n
        invariant
            n <= 32,
            1 <= p <= n + 1,
            forall|r: int| 1 <= r < p ==> #[trigger] distinguished(family@, r, n as nat),
        decreases n + 1 - p,
    {
        if !is_distinguished(family, p, n) {
            return false;
        }
        p = p + 1;
    }
    true
}

/// Whether `s` can be added to `family`: it is a non-empty subset of the
/// ground set, not a member yet, and its union with any member is a member.
pub open spec fn is_extension(family: Set<u32>, n: nat, s: u32) -> bool {
    &&& 1 <= s < pow2(n)
    &&& !family.contains(s)
    &&& forall|x: u32| family.contains(x) ==> family.contains(x | s)
}

/// What adding `s` to `family` gives: the canonical form of the larger
/// family where the canonical parent of that form is `family`, and nothing
/// where it is not.
pub open spec fn child_of<L: Fn(&LabelingProblem) -> Vec<usize>>(
    labeler: &L,
    family: Set<u32>,
    n: nat,
    s: u32,
) -> Result<Option<Set<u32>>, CanonError> {
    match canonical_form(labeler, family.insert(s), n) {
        Err(e) => Err(e),
        Ok(c) => match canonical_parent(labeler, c, n) {
            Err(e) => Err(e),
            Ok(p) => if p == family {
                Ok(Some(c))
            } else {
                Ok(None)
            },
        },
    }
}

/// Whether `a` comes before `b` in the order of families: by their members
/// in ascending order, one after the other.
pub open spec fn family_less(a: Set<u32>, b: Set<u32>) -> bool {
    lex_less(sorted(a), sorted(b))
}

/// `found` with `c` at its place in the order of families, once.
pub open spec fn insert_family(found: Seq<Set<u32>>, c: Set<u32>) -> Seq<Set<u32>>
    decreases found.len(),
{
    if found.len() == 0 {
        seq![c]
    } else if found.last() == c {
        found
    } else if family_less(found.last(), c) {
        found.push(c)
    } else {
        insert_family(found.drop_last(), c).push(found.last())
    }
}

/// The children of `family` that the subsets below `t` give, in the order
/// of families, each once; or the first error that a canonical form gave.
pub open spec fn children_upto<L: Fn(&LabelingProblem) -> Vec<usize>>(
    labeler: &L,
    family: Set<u32>,
    n: nat,
    t: nat,
) -> Result<Seq<Set<u32>>, CanonError>
    decreases t,
{
    if t <= 1 {
        Ok(Seq::empty())
    } else {
        match children_upto(labeler, family, n, (t - 1) as nat) {
            Err(e) => Err(e),
            Ok(found) => {
                let s = (t - 1) as u32;
                if !is_extension(family, n, s) {
                    Ok(found)
                } else {
                    match child_of(labeler, family, n, s) {
                        Err(e) => Err(e),
                        Ok(None) => Ok(found),
                        Ok(Some(c)) => Ok(insert_family(found, c)),
                    }
                }
            },
        }
    }
}

/// The children of `family`: for every subset that can be added to it, the
/// canonical form of the larger family, where the canonical parent of that
/// form is `family` again.
pub open spec fn children<L: Fn(&LabelingProblem) -> Vec<usize>>(
    labeler: &L,
    family: Set<u32>,
    n: nat,
) -> Result<Seq<Set<u32>>, CanonError> {
    children_upto(labeler, family, n, pow2(n))
}

/// Whether `c` is what adding a subset to `family` can give: a relabeling of
/// `family` with one subset more that can be added to it.
pub open spec fn is_child(family: Set<u32>, n: nat, c: Set<u32>) -> bool {
    exists|s: u32| is_extension(family, n, s) && relabeling_of(family.insert(s), n, c)
}

/// The sets of the items of some vectors.
pub open spec fn listed_sets(v: Seq<Vec<u32>>) -> Seq<Set<u32>> {
    Seq::new(v.len(), |i: int| v[i]@.to_set())
}

/// The families as sets.
pub open spec fn family_sets(v: Seq<Family>) -> Seq<Set<u32>> {
    Seq::new(v.len(), |i: int| v[i]@)
}

/// Where the last family is neither `c` nor before `c`, `c` goes among the
/// families before the last.
proof fn lemma_insert_suffix(found: Seq<Set<u32>>, c: Set<u32>, i: int)
    requires
        0 <= i <= found.len(),
        forall|j: int| i <= j < found.len() ==> found[j] != c && !family_less(found[j], c),
    ensures
        insert_family(found, c) == insert_family(found.subrange(0, i), c) + found.subrange(
            i,
            found.len() as int,
        ),
    decreases found.len() - i,
{
    if i == found.len() {
        assert(found.subrange(0, i) =~= found);
        assert(insert_family(found, c) + found.subrange(i, found.len() as int) =~= insert_family(
            found,
            c,
        ));
    } else {
        let shorter = found.drop_last();
        assert(found.last() == found[found.len() - 1]);
        lemma_insert_suffix(shorter, c, i);
        assert(shorter.subrange(0, i) =~= found.subrange(0, i));
        assert(shorter.subrange(i, shorter.len() as int).push(found.last()) =~= found.subrange(
            i,
            found.len() as int,
        ));
        assert((insert_family(shorter.subrange(0, i), c) + shorter.subrange(
            i,
            shorter.len() as int,
        )).push(found.last()) =~= insert_family(found.subrange(0, i), c) + found.subrange(
            i,
            found.len() as int,
        ));
    }
}

/// Puts `c` at its place among `kids`, unless it is there.
fn insert_sorted(kids: &mut Vec<Vec<u32>>, c: Vec<u32>)
    requires
        ascending(c@),
        forall|j: int| 0 <= j < old(kids)@.len() ==> ascending(#[trigger] old(kids)@[j]@),
    ensures
        forall|j: int| 0 <= j < final(kids)@.len() ==> ascending(#[trigger] final(kids)@[j]@),
        listed_sets(final(kids)@) == insert_family(listed_sets(old(kids)@), c@.to_set()),
        forall|j: int|
            0 <= j < final(kids)@.len() ==> (#[trigger] final(kids)@[j]@ == c@ || exists|k: int|
                0 <= k < old(kids)@.len() && old(kids)@[k]@ == final(kids)@[j]@),
{
    let ghost before = listed_sets(kids@);
    let ghost target = c@.to_set();
    let mut i: usize = kids.len();
    let mut placed = false;
    proof {
        lemma_sorted_is(c@);
    }
    while i > 0 && !placed
        invariant
            i <= kids@.len(),
            placed ==> i > 0 && before[i - 1] != target && family_less(before[i - 1], target),
            kids@ == old(kids)@,
            before == listed_sets(kids@),
            target == c@.to_set(),
            ascending(c@),
            sorted(target) == c@,
            forall|j: int| 0 <= j < kids@.len() ==> ascending(#[trigger] kids@[j]@),
            forall|j: int| i <= j < before.len() ==> before[j] != target && !family_less(
                before[j],
                target,
            ),
        decreases i + (if placed { 0int } else { 1int }),
    {
        proof {
            lemma_sorted_is(kids@[i - 1]@);
            assert(before[i - 1] == kids@[i - 1]@.to_set());
        }
        match compare_members(&kids[i - 1], &c) {
            Order::Same => {
                proof {
                    lemma_insert_suffix(before, target, i as int);
                    let prefix = before.subrange(0, i as int);
                    assert(prefix.last() == target);
                    assert(prefix + before.subrange(i as int, before.len() as int) =~= before);
                }
                return ;
            },
            Order::Before => {
                proof {
                    if before[i - 1] == target {
                        assert(sorted(before[i - 1]) == sorted(target));
                    }
                }
                placed = true;
            },
            Order::After => {
                proof {
                    if before[i - 1] == target {
                        assert(sorted(before[i - 1]) == sorted(target));
                    }
                }
                i = i - 1;
            },
        }
    }
    proof {
        lemma_insert_suffix(before, target, i as int);
        let prefix = before.subrange(0, i as int);
        if i > 0 {
            assert(prefix.last() == before[i - 1]);
        }
        assert(insert_family(prefix, target) == prefix.push(target));
    }
    kids.insert(i, c);
    proof {
        let prefix = before.subrange(0, i as int);
        assert(listed_sets(kids@) =~= prefix.push(target) + before.subrange(
            i as int,
            before.len() as int,
        ));
        assert forall|j: int| 0 <= j < kids@.len() implies (#[trigger] kids@[j]@ == c@ || exists|
            k: int,
        |
            0 <= k < old(kids)@.len() && old(kids)@[k]@ == kids@[j]@) by {
            if j < i {
                assert(old(kids)@[j]@ == kids@[j]@);
            } else if j > i {
                assert(old(kids)@[j - 1]@ == kids@[j]@);
            }
        }
    }
}

/// An error that the subsets below `t` gave is the error that all give.
pub proof fn lemma_children_error_stays<L: Fn(&LabelingProblem) -> Vec<usize>>(
    labeler: &L,
    family: Set<u32>,
    n: nat,
    t: nat,
    later: nat,
)
    requires
        t <= later,
        children_upto(labeler, family, n, t) is Err,
    ensures
        children_upto(labeler, family, n, later) == children_upto(labeler, family, n, t),
    decreases later - t,
{
    if t < later {
        lemma_children_error_stays(labeler, family, n, t, (later - 1) as nat);
    }
}

/// A family that is closed under union stays so when a subset that can be
/// added to it is added.
pub proof fn lemma_extension_union_closed(family: Set<u32>, n: nat, s: u32)
    requires
        union_closed(family),
        is_extension(family, n, s),
    ensures
        union_closed(family.insert(s)),
{
    let bigger = family.insert(s);
    assert forall|x: u32, y: u32| bigger.contains(x) && bigger.contains(y) implies bigger.contains(
        x | y,
    ) by {
        assert(s | s == s) by (bit_vector);
        assert(x | y == y | x) by (bit_vector);
        if x == s && y != s {
            assert(family.contains(y | s));
        } else if y == s && x != s {
            assert(family.contains(x | s));
        }
    }
}

/// A child of a family that is closed under union is closed under union.
pub proof fn lemma_child_union_closed(family: Set<u32>, n: nat, c: Set<u32>)
    requires
        n <= 32,
        union_closed(family),
        is_child(family, n, c),
    ensures
        union_closed(c),
{
    let s = choose|s: u32| is_extension(family, n, s) && relabeling_of(family.insert(s), n, c);
    lemma_extension_union_closed(family, n, s);
    let lab = choose|lab: Seq<usize>|
        crate::relabel::is_element_permutation(lab, n) && c == crate::relabel::relabeled(
            family.insert(s),
            n,
            lab,
        );
    lemma_relabeled_union_closed(family.insert(s), n, lab);
}

/// Whether the union of `s` with every member of `family` is a member.
fn keeps_closed(family: &Family, listed: &Vec<u32>, s: u32) -> (b: bool)
    requires
        listed@.to_set() == family@,
    ensures
        b == forall|x: u32| family@.contains(x) ==> family@.contains(x | s),
{
    let mut i: usize = 0;
    while i < listed.len()
        invariant
            i <= listed@.len(),
            listed@.to_set() == family@,
            forall|j: int| 0 <= j < i ==> family@.contains(#[trigger] listed@[j] | s),
        decreases listed@.len() - i,
    {
        let x: u32 = listed[i];
        if !is_member(family, x | s) {
            proof {
                assert(listed@.to_set().contains(listed@[i as int]));
            }
            return false;
        }
        i = i + 1;
    }
    proof {
        assert forall|x: u32| family@.contains(x) implies family@.contains(x | s) by {
            assert(listed@.contains(x));
            let j = choose|j: int| 0 <= j < listed@.len() && listed@[j] == x;
            assert(family@.contains(listed@[j] | s));
        }
    }
    true
}

/// The children of `family` over `n` elements: for every subset that can be
/// added to it, the canonical form of the larger family where the canonical
/// parent of that form is `family` again; each child once, in the order of
/// families.
pub fn extend<L: Fn(&LabelingProblem) -> Vec<usize>>(
    family: &Family,
    n: usize,
    labeler: &L,
    cache: &mut CanonCache,
    max_cache_size: usize,
) -> (r: Result<Vec<Family>, CanonError>)
    requires
        n <= 32,
        accepts_problems(labeler),
        old(cache).wf(labeler, n as nat),
    ensures
        final(cache).wf(labeler, n as nat),
        functional(labeler) ==> match r {
            Ok(kids) => children(labeler, family@, n as nat) == Ok::<Seq<Set<u32>>, CanonError>(
                family_sets(kids@),
            ),
            Err(e) => children(labeler, family@, n as nat) == Err::<Seq<Set<u32>>, CanonError>(e),
        },
        r matches Ok(kids) ==> forall|i: int|
            0 <= i < kids@.len() ==> is_child(family@, n as nat, #[trigger] kids@[i]@),
        r matches Ok(kids) ==> union_closed(family@) ==> forall|i: int|
            0 <= i < kids@.len() ==> union_closed(#[trigger] kids@[i]@),
        r matches Ok(kids) ==> crate::order_laws::in_order(family_sets(kids@)),
{
    let listed = members(family);
    let upper: u64 = crate::bits::subset_count(n);
    let mut kids: Vec<Vec<u32>> = Vec::new();
    let mut s: u64 = 1;
    proof {
        assert(listed_sets(kids@) =~= Seq::<Set<u32>>::empty());
    }
    while s < upper
        invariant
            n <= 32,
            1 <= s <= upper,
            upper == pow2(n as nat),
            upper <= 0x1_0000_0000,
            accepts_problems(labeler),
            cache.wf(labeler, n as nat),
            listed@ == sorted(family@),
            listed@.to_set() == family@,
            forall|j: int| 0 <= j < kids@.len() ==> ascending(#[trigger] kids@[j]@),
            forall|j: int|
                0 <= j < kids@.len() ==> is_child(family@, n as nat, #[trigger] kids@[j]@.to_set()),
            crate::order_laws::in_order(listed_sets(kids@)),
            functional(labeler) ==> children_upto(labeler, family@, n as nat, s as nat) == Ok::<
                Seq<Set<u32>>,
                CanonError,
            >(listed_sets(kids@)),
        decreases upper - s,
    {
        let mask: u32 = s as u32;
        let ghost before = listed_sets(kids@);
        if !is_member(family, mask) && keeps_closed(family, &listed, mask) {
            assert(is_extension(family@, n as nat, mask));
            let mut new_family = family.clone();
            insert_member(&mut new_family, mask);
            let c_new = match canonicalize(&new_family, n, labeler, cache, max_cache_size) {
                Ok(c) => c,
                Err(e) => {
                    proof {
                        if functional(labeler) {
                            assert(children_upto(labeler, family@, n as nat, (s + 1) as nat)
                                == Err::<Seq<Set<u32>>, CanonError>(e));
                            lemma_children_error_stays(
                                labeler,
                                family@,
                                n as nat,
                                (s + 1) as nat,
                                upper as nat,
                            );
                        }
                    }
                    return Err(e);
                },
            };
            let parent = match canonical_delete(&c_new, n, labeler, cache, max_cache_size) {
                Ok(p) => p,
                Err(e) => {
                    proof {
                        if functional(labeler) {
                            assert(children_upto(labeler, family@, n as nat, (s + 1) as nat)
                                == Err::<Seq<Set<u32>>, CanonError>(e));
                            lemma_children_error_stays(
                                labeler,
                                family@,
                                n as nat,
                                (s + 1) as nat,
                                upper as nat,
                            );
                        }
                    }
                    return Err(e);
                },
            };
            let parent_listed = members(&parent);
            if same_items(&parent_listed, &listed) {
                let child_listed = members(&c_new);
                let ghost old_kids = kids@;
                insert_sorted(&mut kids, child_listed);
                proof {
                    crate::order_laws::lemma_insert_family(before, c_new@);
                    assert(parent@ == family@);
                    assert forall|j: int| 0 <= j < kids@.len() implies is_child(
                        family@,
                        n as nat,
                        #[trigger] kids@[j]@.to_set(),
                    ) by {
                        if kids@[j]@ != child_listed@ {
                            let k = choose|k: int|
                                0 <= k < old_kids.len() && old_kids[k]@ == kids@[j]@;
                            assert(is_child(family@, n as nat, old_kids[k]@.to_set()));
                        }
                    }
                }
            } else {
                proof {
                    if parent@ == family@ {
                        assert(parent_listed@ == listed@);
                    }
                }
            }
        }
        s = s + 1;
    }
    let mut result: Vec<Family> = Vec::new();
    let mut i: usize = 0;
    while i < kids.len()
        invariant
            i <= kids@.len(),
            result@.len() == i,
            forall|j: int| 0 <= j < i ==> (#[trigger] result@[j])@ == kids@[j]@.to_set(),
        decreases kids@.len() - i,
    {
        let child = to_family(&kids[i]);
        result.push(child);
        i = i + 1;
    }
    proof {
        assert(family_sets(result@) =~= listed_sets(kids@));
        assert forall|j: int| 0 <= j < result@.len() implies is_child(
            family@,
            n as nat,
            #[trigger] result@[j]@,
        ) by {
            assert(is_child(family@, n as nat, kids@[j]@.to_set()));
        }
        if union_closed(family@) {
            assert forall|j: int| 0 <= j < result@.len() implies union_closed(
                #[trigger] result@[j]@,
            ) by {
                lemma_child_union_closed(family@, n as nat, result@[j]@);
            }
        }
    }
    Ok(result)
}

/// The rules of one search.
pub struct Filter {
    /// The size of the ground set.
    pub n: usize,
    /// Whether only families with every point distinguished are accepted.
    pub search_semiframes: bool,
    /// The number of families after which the search stops; 0 for no limit.
    pub limit: usize,
    /// The number of discovered families that are filtered at a time.
    pub batch_size: usize,
}

/// The formula of a search, as a term.
pub open spec fn term_of(formula: Option<&Formula>) -> Option<FormulaTerm> {
    match formula {
        Some(f) => Some(f@),
        None => None,
    }
}

/// `family` with the empty set.
pub open spec fn completed(family: Set<u32>) -> Set<u32> {
    family.insert(0u32)
}

/// Whether a discovered family is accepted: every point is distinguished,
/// where that is asked for, and the family with the empty set satisfies the
/// formula, where there is one.
pub open spec fn accepted(filter: Filter, formula: Option<FormulaTerm>, family: Set<u32>) -> bool {
    &&& filter.search_semiframes ==> all_distinguished(family, filter.n as nat)
    &&& formula matches Some(f) ==> satisfies(filter.n as nat, completed(family), f)
}

/// Whether `f` can be a result of the search: it holds the empty set, every
/// point is distinguished in it, where that is asked for, and it satisfies
/// the formula, where there is one.
pub open spec fn is_result(filter: Filter, formula: Option<FormulaTerm>, f: Set<u32>) -> bool {
    &&& f.contains(0u32)
    &&& filter.search_semiframes ==> all_distinguished(f, filter.n as nat)
    &&& formula matches Some(t) ==> satisfies(filter.n as nat, f, t)
}

/// The accepted families of `batch`, each with the empty set, in their
/// order.
pub open spec fn survivors(filter: Filter, formula: Option<FormulaTerm>, batch: Seq<Set<u32>>) -> Seq<
    Set<u32>,
>
    decreases batch.len(),
{
    if batch.len() == 0 {
        Seq::empty()
    } else {
        let rest = survivors(filter, formula, batch.drop_last());
        if accepted(filter, formula, batch.last()) {
            rest.push(completed(batch.last()))
        } else {
            rest
        }
    }
}

/// How many of `fresh` new results may still be taken where `found` are
/// there already.
pub open spec fn room(limit: nat, found: nat, fresh: nat) -> nat {
    if limit == 0 {
        fresh
    } else if found >= limit {
        0
    } else if fresh <= limit - found {
        fresh
    } else {
        (limit - found) as nat
    }
}

/// Where a search stands: the families that wait to be filtered, the
/// results so far, and the number of families explored.
pub struct Trace {
    pub batch: Seq<Set<u32>>,
    pub found: Seq<Set<u32>>,
    pub explored: nat,
}

/// Where a search stands.
pub struct SearchState {
    /// The discovered families that wait to be filtered.
    pub batch: Vec<Family>,
    /// The results so far, each with the empty set.
    pub found: Vec<Family>,
    /// The number of families explored, as far as it can be counted.
    pub explored: usize,
}

impl View for SearchState {
    type V = Trace;

    open spec fn view(&self) -> Trace {
        Trace {
            batch: family_sets(self.batch@),
            found: family_sets(self.found@),
            explored: self.explored as nat,
        }
    }
}

/// What filtering the waiting families leaves: none waiting, and the
/// accepted ones among the results as far as the limit allows; with it,
/// whether the limit is reached. Where none waits, nothing changes and the
/// limit does not count as reached.
pub open spec fn flushed(filter: Filter, formula: Option<FormulaTerm>, t: Trace) -> (Trace, bool) {
    if t.batch.len() == 0 {
        (t, false)
    } else {
        let fresh = survivors(filter, formula, t.batch);
        let taken = room(filter.limit as nat, t.found.len(), fresh.len());
        (
            Trace {
                batch: Seq::empty(),
                found: t.found + fresh.subrange(0, taken as int),
                explored: t.explored,
            },
            filter.limit > 0 && t.found.len() + taken >= filter.limit,
        )
    }
}

/// One more explored family, as far as the count can go.
pub open spec fn bumped(explored: nat) -> nat {
    if explored < usize::MAX {
        explored + 1
    } else {
        explored
    }
}

/// The search below `family`, at most `fuel` generations deep: each child in
/// turn joins the waiting families, which are filtered when they are
/// `batch_size` or more, and is searched itself, until the limit is reached.
pub open spec fn explore<L: Fn(&LabelingProblem) -> Vec<usize>>(
    labeler: &L,
    filter: Filter,
    formula: Option<FormulaTerm>,
    family: Set<u32>,
    t: Trace,
    fuel: nat,
) -> Result<(Trace, bool), CanonError>
    decreases fuel, 0nat, 0nat,
{
    if fuel == 0 {
        Ok((t, false))
    } else {
        match children(labeler, family, filter.n as nat) {
            Err(e) => Err(e),
            Ok(kids) => explore_children(labeler, filter, formula, kids, 0, t, (fuel - 1) as nat),
        }
    }
}

/// The search through the children from place `i` on.
pub open spec fn explore_children<L: Fn(&LabelingProblem) -> Vec<usize>>(
    labeler: &L,
    filter: Filter,
    formula: Option<FormulaTerm>,
    kids: Seq<Set<u32>>,
    i: nat,
    t: Trace,
    fuel: nat,
) -> Result<(Trace, bool), CanonError>
    decreases fuel, 1nat, kids.len() - i,
{
    if i >= kids.len() {
        Ok((t, false))
    } else {
        let joined = Trace {
            batch: t.batch.push(kids[i as int]),
            found: t.found,
            explored: bumped(t.explored),
        };
        let (filtered, hit) = if joined.batch.len() >= filter.batch_size {
            flushed(filter, formula, joined)
        } else {
            (joined, false)
        };
        if hit {
            Ok((filtered, true))
        } else {
            match explore(labeler, filter, formula, kids[i as int], filtered, fuel) {
                Err(e) => Err(e),
                Ok((below, hit_below)) => if hit_below {
                    Ok((below, true))
                } else {
                    explore_children(labeler, filter, formula, kids, i + 1, below, fuel)
                },
            }
        }
    }
}

/// The whole search from `start`: `start` waits first, the search below it
/// follows, and what waits at the end is filtered, unless the limit was
/// reached before. No generation is deeper than the number of subsets.
pub open spec fn search<L: Fn(&LabelingProblem) -> Vec<usize>>(
    labeler: &L,
    filter: Filter,
    formula: Option<FormulaTerm>,
    start: Set<u32>,
) -> Result<Trace, CanonError> {
    let first = Trace { batch: seq![start], found: Seq::empty(), explored: 0 };
    match explore(labeler, filter, formula, start, first, pow2(filter.n as nat) + 1) {
        Err(e) => Err(e),
        Ok((t, hit)) => if hit {
            Ok(t)
        } else {
            Ok(flushed(filter, formula, t).0)
        },
    }
}

/// Whether what a search has found so far can stand: the results are within
/// the limit, each can be a result, and, where `closed` holds, every result
/// and every waiting family is closed under union.
pub open spec fn sound(filter: Filter, formula: Option<FormulaTerm>, t: Trace, closed: bool) -> bool {
    &&& filter.limit > 0 ==> t.found.len() <= filter.limit
    &&& forall|i: int| 0 <= i < t.found.len() ==> is_result(filter, formula, #[trigger] t.found[i])
    &&& closed ==> forall|i: int| 0 <= i < t.found.len() ==> union_closed(#[trigger] t.found[i])
    &&& closed ==> forall|i: int| 0 <= i < t.batch.len() ==> union_closed(#[trigger] t.batch[i])
}

/// The empty set separates no two points.
pub proof fn lemma_completed_distinguished(family: Set<u32>, n: nat)
    ensures
        all_distinguished(completed(family), n) == all_distinguished(family, n),
{
    let bigger = completed(family);
    assert forall|p: int, q: int| separated(bigger, p, q) == separated(family, p, q) by {
        crate::bits::lemma_has_bit_zero(p - 1);
        crate::bits::lemma_has_bit_zero(q - 1);
        if separated(bigger, p, q) {
            let s = choose|s: u32| bigger.contains(s) && separates(s, p, q);
            assert(family.contains(s));
        }
        if separated(family, p, q) {
            let s = choose|s: u32| family.contains(s) && separates(s, p, q);
            assert(bigger.contains(s));
        }
    }
    assert forall|p: int| distinguished(bigger, p, n) == distinguished(family, p, n) by {
        if distinguished(family, p, n) {
            assert forall|q: int| 1 <= q <= n && q != p implies #[trigger] separated(
                bigger,
                p,
                q,
            ) by {
                assert(separated(family, p, q));
            }
        }
        if distinguished(bigger, p, n) {
            assert forall|q: int| 1 <= q <= n && q != p implies #[trigger] separated(
                family,
                p,
                q,
            ) by {
                assert(separated(bigger, p, q));
            }
        }
    }
    if all_distinguished(family, n) {
        assert forall|p: int| 1 <= p <= n implies #[trigger] distinguished(bigger, p, n) by {
            assert(distinguished(family, p, n));
        }
    }
    if all_distinguished(bigger, n) {
        assert forall|p: int| 1 <= p <= n implies #[trigger] distinguished(family, p, n) by {
            assert(distinguished(bigger, p, n));
        }
    }
}

/// A family that is closed under union stays so with the empty set.
pub proof fn lemma_completed_union_closed(family: Set<u32>)
    requires
        union_closed(family),
    ensures
        union_closed(completed(family)),
{
    let bigger = completed(family);
    assert forall|x: u32, y: u32| bigger.contains(x) && bigger.contains(y) implies bigger.contains(
        x | y,
    ) by {
        assert(x | 0u32 == x) by (bit_vector);
        assert(0u32 | y == y) by (bit_vector);
    }
}

/// The accepted families of the first families of a batch.
proof fn lemma_survivors_step(
    filter: Filter,
    formula: Option<FormulaTerm>,
    batch: Seq<Set<u32>>,
    i: int,
)
    requires
        0 <= i < batch.len(),
    ensures
        survivors(filter, formula, batch.subrange(0, i + 1)) == (if accepted(
            filter,
            formula,
            batch[i],
        ) {
            survivors(filter, formula, batch.subrange(0, i)).push(completed(batch[i]))
        } else {
            survivors(filter, formula, batch.subrange(0, i))
        }),
{
    let longer = batch.subrange(0, i + 1);
    assert(longer.drop_last() =~= batch.subrange(0, i));
    assert(longer.last() == batch[i]);
}

/// `family` with the empty set, where `family` is accepted: where every
/// point is distinguished in it, if that is asked for, and it satisfies the
/// formula with the empty set, if there is one.
pub fn accept_family(
    family: &Family,
    n: usize,
    search_semiframes: bool,
    formula: Option<&Formula>,
) -> (r: Option<Family>)
    requires
        n <= 32,
    ensures
        match r {
            Some(complete) => complete@ == completed(family@) && accepted(
                Filter { n, search_semiframes, limit: 0, batch_size: 0 },
                term_of(formula),
                family@,
            ),
            None => !accepted(
                Filter { n, search_semiframes, limit: 0, batch_size: 0 },
                term_of(formula),
                family@,
            ),
        },
{
    let filter = Filter { n, search_semiframes, limit: 0, batch_size: 0 };
    let (ok, complete) = accepts(family, &filter, formula);
    if ok {
        Some(complete)
    } else {
        None
    }
}

/// Whether `family` is accepted, with `family` and the empty set.
fn accepts(family: &Family, filter: &Filter, formula: Option<&Formula>) -> (r: (bool, Family))
    requires
        filter.n <= 32,
    ensures
        r.0 == accepted(*filter, term_of(formula), family@),
        r.1@ == completed(family@),
{
    let mut complete_family = family.clone();
    insert_member(&mut complete_family, 0);
    let base_filter = if filter.search_semiframes {
        has_all_distinguished(family, filter.n)
    } else {
        true
    };
    if !base_filter {
        return (false, complete_family);
    }
    match formula {
        None => (true, complete_family),
        Some(f) => {
            let mut checker = ModelChecker::new(filter.n, complete_family.clone());
            let verdict = checker.check(f).satisfied;
            (verdict, complete_family)
        },
    }
}

/// Filters the waiting families: the accepted ones join the results, each
/// with the empty set, as far as the limit allows. It says whether the
/// limit is reached.
fn process_and_dump_batch_with_formula(
    state: &mut SearchState,
    filter: &Filter,
    formula: Option<&Formula>,
    Ghost(closed): Ghost<bool>,
) -> (hit: bool)
    requires
        filter.n <= 32,
        sound(*filter, term_of(formula), old(state)@, closed),
    ensures
        (final(state)@, hit) == flushed(*filter, term_of(formula), old(state)@),
        sound(*filter, term_of(formula), final(state)@, closed),
{
    if state.batch.len() == 0 {
        return false;
    }
    let ghost term = term_of(formula);
    let ghost before = state@;
    let mut kept: Vec<Family> = Vec::new();
    let mut i: usize = 0;
    proof {
        assert(state@.batch.subrange(0, 0) =~= Seq::<Set<u32>>::empty());
        assert(family_sets(kept@) =~= Seq::<Set<u32>>::empty());
    }
    while i < state.batch.len()
        invariant
            filter.n <= 32,
            i <= state.batch@.len(),
            state@ == before,
            term == term_of(formula),
            sound(*filter, term, before, closed),
            family_sets(kept@) == survivors(*filter, term, before.batch.subrange(0, i as int)),
            forall|j: int| 0 <= j < kept@.len() ==> is_result(*filter, term, #[trigger] kept@[j]@),
            closed ==> forall|j: int| 0 <= j < kept@.len() ==> union_closed(#[trigger] kept@[j]@),
        decreases state.batch@.len() - i,
    {
        let (ok, complete_family) = accepts(&state.batch[i], filter, formula);
        proof {
            lemma_survivors_step(*filter, term, before.batch, i as int);
            assert(before.batch[i as int] == state.batch@[i as int]@);
            lemma_completed_distinguished(state.batch@[i as int]@, filter.n as nat);
            if closed {
                assert(union_closed(before.batch[i as int]));
                lemma_completed_union_closed(state.batch@[i as int]@);
            }
        }
        if ok {
            let ghost old_kept = kept@;
            kept.push(complete_family);
            proof {
                assert(family_sets(kept@) =~= family_sets(old_kept).push(complete_family@));
            }
        }
        i = i + 1;
    }
    proof {
        assert(before.batch.subrange(0, before.batch.len() as int) =~= before.batch);
    }
    let ghost fresh = family_sets(kept@);
    let mut k: usize = 0;
    proof {
        assert(before.found + fresh.subrange(0, 0) =~= before.found);
    }
    while k < kept.len() && !(filter.limit > 0 && state.found.len() >= filter.limit)
        invariant
            k <= kept@.len(),
            fresh == family_sets(kept@),
            state@.batch == before.batch,
            state@.explored == before.explored,
            state@.found == before.found + fresh.subrange(0, k as int),
            k == room(filter.limit as nat, before.found.len(), k as nat),
            sound(*filter, term, before, closed),
            sound(*filter, term, state@, closed),
            forall|j: int| 0 <= j < kept@.len() ==> is_result(*filter, term, #[trigger] kept@[j]@),
            closed ==> forall|j: int| 0 <= j < kept@.len() ==> union_closed(#[trigger] kept@[j]@),
        decreases kept@.len() - k,
    {
        let next = kept[k].clone();
        let ghost old_found = state.found@;
        state.found.push(next);
        proof {
            assert(family_sets(state.found@) =~= family_sets(old_found).push(kept@[k as int]@));
            assert(fresh.subrange(0, k + 1) =~= fresh.subrange(0, k as int).push(fresh[k as int]));
            assert(state@.found =~= before.found + fresh.subrange(0, k + 1));
            assert forall|j: int| 0 <= j < state@.found.len() implies is_result(
                *filter,
                term,
                #[trigger] state@.found[j],
            ) by {
                if j < old_found.len() {
                    assert(state@.found[j] == family_sets(old_found)[j]);
                }
            }
            if closed {
                assert forall|j: int| 0 <= j < state@.found.len() implies union_closed(
                    #[trigger] state@.found[j],
                ) by {
                    if j < old_found.len() {
                        assert(state@.found[j] == family_sets(old_found)[j]);
                    }
                }
            }
        }
        k = k + 1;
    }
    state.batch = Vec::new();
    proof {
        assert(state@.batch =~= Seq::<Set<u32>>::empty());
        assert(k == room(filter.limit as nat, before.found.len(), fresh.len()));
    }
    filter.limit > 0 && state.found.len() >= filter.limit
}

/// Whether an outcome of a search below a family, with where the search
/// stands after it, is the outcome `wanted`.
pub open spec fn explored_as(
    r: Result<bool, CanonError>,
    after: Trace,
    wanted: Result<(Trace, bool), CanonError>,
) -> bool {
    match r {
        Ok(hit) => wanted == Ok::<(Trace, bool), CanonError>((after, hit)),
        Err(e) => wanted == Err::<(Trace, bool), CanonError>(e),
    }
}

/// Searches below `family`, at most `depth` generations deep. It says
/// whether the limit is reached.
#[verifier::loop_isolation(false)]
fn dfs_explore_with_formula<L: Fn(&LabelingProblem) -> Vec<usize>>(
    family: &Family,
    labeler: &L,
    cache: &mut CanonCache,
    max_cache_size: usize,
    filter: &Filter,
    formula: Option<&Formula>,
    state: &mut SearchState,
    depth: u64,
    Ghost(closed): Ghost<bool>,
) -> (r: Result<bool, CanonError>)
    requires
        filter.n <= 32,
        accepts_problems(labeler),
        old(cache).wf(labeler, filter.n as nat),
        sound(*filter, term_of(formula), old(state)@, closed),
        closed ==> union_closed(family@),
    ensures
        final(cache).wf(labeler, filter.n as nat),
        sound(*filter, term_of(formula), final(state)@, closed),
        functional(labeler) ==> explored_as(
            r,
            final(state)@,
            explore(labeler, *filter, term_of(formula), family@, old(state)@, depth as nat),
        ),
    decreases depth,
{
    if depth == 0 {
        return Ok(false);
    }
    let ghost term = term_of(formula);
    let ghost first = state@;
    let ghost fuel = (depth - 1) as nat;
    let new_families = match extend(family, filter.n, labeler, cache, max_cache_size) {
        Ok(kids) => kids,
        Err(e) => {
            return Err(e);
        },
    };
    let ghost kids = family_sets(new_families@);
    let mut i: usize = 0;
    while i < new_families.len()
        invariant
            filter.n <= 32,
            depth > 0,
            fuel == depth - 1,
            term == term_of(formula),
            kids == family_sets(new_families@),
            i <= new_families@.len(),
            accepts_problems(labeler),
            cache.wf(labeler, filter.n as nat),
            sound(*filter, term, state@, closed),
            closed ==> forall|j: int|
                0 <= j < new_families@.len() ==> union_closed(#[trigger] new_families@[j]@),
            functional(labeler) ==> explore_children(labeler, *filter, term, kids, 0, first, fuel)
                == explore_children(labeler, *filter, term, kids, i as nat, state@, fuel),
        decreases new_families@.len() - i,
    {
        let nf = new_families[i].clone();
        let ghost before = state@;
        state.batch.push(nf);
        if state.explored < usize::MAX {
            state.explored = state.explored + 1;
        }
        proof {
            assert(kids[i as int] == new_families@[i as int]@);
            assert(state@.batch =~= before.batch.push(kids[i as int]));
            assert(state@.found == before.found);
            assert forall|j: int| 0 <= j < state@.batch.len() && closed implies union_closed(
                #[trigger] state@.batch[j],
            ) by {
                if j < before.batch.len() {
                    assert(state@.batch[j] == before.batch[j]);
                }
            }
        }
        if state.batch.len() >= filter.batch_size {
            let hit_limit = process_and_dump_batch_with_formula(
                state,
                filter,
                formula,
                Ghost(closed),
            );
            if hit_limit {
                return Ok(true);
            }
        }
        let hit_limit = match dfs_explore_with_formula(
            &new_families[i],
            labeler,
            cache,
            max_cache_size,
            filter,
            formula,
            state,
            depth - 1,
            Ghost(closed),
        ) {
            Ok(hit) => hit,
            Err(e) => {
                return Err(e);
            },
        };
        if hit_limit {
            return Ok(true);
        }
        i = i + 1;
    }
    Ok(false)
}

/// Searches below `family`, with no formula.
fn dfs_explore<L: Fn(&LabelingProblem) -> Vec<usize>>(
    family: &Family,
    labeler: &L,
    cache: &mut CanonCache,
    max_cache_size: usize,
    filter: &Filter,
    state: &mut SearchState,
    depth: u64,
    Ghost(closed): Ghost<bool>,
) -> (r: Result<bool, CanonError>)
    requires
        filter.n <= 32,
        accepts_problems(labeler),
        old(cache).wf(labeler, filter.n as nat),
        sound(*filter, None, old(state)@, closed),
        closed ==> union_closed(family@),
    ensures
        final(cache).wf(labeler, filter.n as nat),
        sound(*filter, None, final(state)@, closed),
        functional(labeler) ==> explored_as(
            r,
            final(state)@,
            explore(labeler, *filter, None, family@, old(state)@, depth as nat),
        ),
{
    dfs_explore_with_formula(
        family,
        labeler,
        cache,
        max_cache_size,
        filter,
        None,
        state,
        depth,
        Ghost(closed),
    )
}

/// Filters the waiting families, with no formula.
fn process_and_dump_batch(state: &mut SearchState, filter: &Filter, Ghost(closed): Ghost<bool>) -> (hit:
    bool)
    requires
        filter.n <= 32,
        sound(*filter, None, old(state)@, closed),
    ensures
        (final(state)@, hit) == flushed(*filter, None, old(state)@),
        sound(*filter, None, final(state)@, closed),
{
    process_and_dump_batch_with_formula(state, filter, None, Ghost(closed))
}

/// What a search found.
#[derive(Debug)]
pub struct SearchReport {
    /// The accepted families, each with the empty set, in the order in which
    /// they were found.
    pub found: Vec<Family>,
    /// The number of families explored, as far as it can be counted.
    pub explored: usize,
}

/// The rules of a search by `config` over `n` elements.
pub open spec fn filter_of(config: &Config, n: usize) -> Filter {
    Filter {
        n,
        search_semiframes: config.search_semiframes,
        limit: config.limit,
        batch_size: config.batch_size,
    }
}

/// The family from which a search by `config` over `n` elements starts: the
/// one that `config` names, else the family of the full set alone.
pub open spec fn start_of(config: &Config, n: usize) -> Set<u32> {
    match config.starting_family {
        Some(f) => f@,
        None => set![crate::bits::full_mask(n as nat)],
    }
}

/// Whether an outcome of a whole search is the outcome `wanted`.
pub open spec fn reported_as(
    r: Result<SearchReport, CanonError>,
    wanted: Result<Trace, CanonError>,
) -> bool {
    match r {
        Ok(report) => wanted matches Ok(t) && t.found == family_sets(report.found@) && t.explored
            == report.explored,
        Err(e) => wanted == Err::<Trace, CanonError>(e),
    }
}

/// Whether a report can stand: the results are within the limit, each can
/// be a result, and each is closed under union where the start is.
pub open spec fn report_sound(
    report: SearchReport,
    filter: Filter,
    formula: Option<FormulaTerm>,
    start: Set<u32>,
) -> bool {
    &&& filter.limit > 0 ==> report.found@.len() <= filter.limit
    &&& forall|i: int|
        0 <= i < report.found@.len() ==> is_result(filter, formula, #[trigger] report.found@[i]@)
    &&& union_closed(start) ==> forall|i: int|
        0 <= i < report.found@.len() ==> union_closed(#[trigger] report.found@[i]@)
}

/// The family from which a search by `config` over `n` elements starts.
fn starting_family(config: &Config, n: usize) -> (start: Family)
    requires
        n <= 32,
    ensures
        start@ == start_of(config, n),
        config.starting_family is None ==> union_closed(start@),
{
    match &config.starting_family {
        Some(custom_start) => custom_start.clone(),
        None => {
            let full_set: u32 = crate::bits::full(n);
            let mut family: Family = std::collections::BTreeSet::new();
            insert_member(&mut family, full_set);
            proof {
                assert(family@ =~= set![full_set]);
                assert forall|x: u32, y: u32| family@.contains(x) && family@.contains(
                    y,
                ) implies family@.contains(x | y) by {
                    assert(x | x == x) by (bit_vector);
                }
            }
            family
        },
    }
}

/// All families over `n` elements that the search by `config` generates
/// and accepts, each with the empty set. A ground set of no element gives
/// no family.
pub fn gen_fam<L: Fn(&LabelingProblem) -> Vec<usize>>(config: &Config, n: usize, labeler: &L) -> (r:
    Result<SearchReport, CanonError>)
    requires
        n <= 32,
        accepts_problems(labeler),
    ensures
        n == 0 ==> (r matches Ok(report) && report.found@.len() == 0 && report.explored == 0),
        n > 0 && functional(labeler) ==> reported_as(
            r,
            search(labeler, filter_of(config, n), None, start_of(config, n)),
        ),
        n > 0 && functional(labeler) ==> (crate::result_laws::first_accepted(
            labeler,
            filter_of(config, n),
            None,
            start_of(config, n),
        ) matches Some(found) ==> (r matches Ok(report) && family_sets(report.found@) == found)),
        r matches Ok(report) ==> report_sound(
            report,
            filter_of(config, n),
            None,
            start_of(config, n),
        ),
{
    if n == 0 {
        return Ok(SearchReport { found: Vec::new(), explored: 0 });
    }
    let filter = Filter {
        n,
        search_semiframes: config.search_semiframes,
        limit: config.limit,
        batch_size: config.batch_size,
    };
    let start_family = starting_family(config, n);
    let ghost closed = union_closed(start_family@);
    let mut cache = CanonCache::new();
    let mut state = SearchState { batch: Vec::new(), found: Vec::new(), explored: 0 };
    state.batch.push(start_family.clone());
    proof {
        assert(state@.batch =~= seq![start_family@]);
        assert(state@.found =~= Seq::<Set<u32>>::empty());
    }
    let depth: u64 = crate::bits::subset_count(n) + 1;
    proof {
        if crate::result_laws::first_accepted(labeler, filter, None, start_family@) is Some {
            crate::result_laws::lemma_search_finds_the_first_accepted(
                labeler,
                filter,
                None,
                start_family@,
            );
        }
    }
    let hit_limit = match dfs_explore(
        &start_family,
        labeler,
        &mut cache,
        config.cache_size,
        &filter,
        &mut state,
        depth,
        Ghost(closed),
    ) {
        Ok(hit) => hit,
        Err(e) => {
            return Err(e);
        },
    };
    if !hit_limit {
        process_and_dump_batch(&mut state, &filter, Ghost(closed));
    }
    let ghost last = state@;
    let report = SearchReport { found: state.found, explored: state.explored };
    proof {
        assert(last.found == family_sets(report.found@));
        assert forall|i: int| 0 <= i < report.found@.len() implies is_result(
            filter,
            None,
            #[trigger] report.found@[i]@,
        ) by {
            assert(last.found[i] == report.found@[i]@);
        }
        if closed {
            assert forall|i: int| 0 <= i < report.found@.len() implies union_closed(
                #[trigger] report.found@[i]@,
            ) by {
                assert(last.found[i] == report.found@[i]@);
            }
        }
    }
    Ok(report)
}

/// All families over `n` elements that the search by `config` generates
/// and accepts and that satisfy `formula`, each with the empty set.
pub fn gen_fam_with_formula<L: Fn(&LabelingProblem) -> Vec<usize>>(
    config: &Config,
    n: usize,
    formula: &Formula,
    labeler: &L,
) -> (r: Result<SearchReport, CanonError>)
    requires
        n <= 32,
        accepts_problems(labeler),
    ensures
        n == 0 ==> (r matches Ok(report) && report.found@.len() == 0 && report.explored == 0),
        n > 0 && functional(labeler) ==> reported_as(
            r,
            search(labeler, filter_of(config, n), Some(formula@), start_of(config, n)),
        ),
        n > 0 && functional(labeler) ==> (crate::result_laws::first_accepted(
            labeler,
            filter_of(config, n),
            Some(formula@),
            start_of(config, n),
        ) matches Some(found) ==> (r matches Ok(report) && family_sets(report.found@) == found)),
        r matches Ok(report) ==> report_sound(
            report,
            filter_of(config, n),
            Some(formula@),
            start_of(config, n),
        ),
{
    if n == 0 {
        return Ok(SearchReport { found: Vec::new(), explored: 0 });
    }
    let filter = Filter {
        n,
        search_semiframes: config.search_semiframes,
        limit: config.limit,
        batch_size: config.batch_size,
    };
    let start_family = starting_family(config, n);
    let ghost closed = union_closed(start_family@);
    let ghost term = Some(formula@);
    let mut cache = CanonCache::new();
    let mut state = SearchState { batch: Vec::new(), found: Vec::new(), explored: 0 };
    state.batch.push(start_family.clone());
    proof {
        assert(state@.batch =~= seq![start_family@]);
        assert(state@.found =~= Seq::<Set<u32>>::empty());
    }
    let depth: u64 = crate::bits::subset_count(n) + 1;
    proof {
        if crate::result_laws::first_accepted(labeler, filter, term, start_family@) is Some {
            crate::result_laws::lemma_search_finds_the_first_accepted(
                labeler,
                filter,
                term,
                start_family@,
            );
        }
    }
    let hit_limit = match dfs_explore_with_formula(
        &start_family,
        labeler,
        &mut cache,
        config.cache_size,
        &filter,
        Some(formula),
        &mut state,
        depth,
        Ghost(closed),
    ) {
        Ok(hit) => hit,
        Err(e) => {
            return Err(e);
        },
    };
    if !hit_limit {
        process_and_dump_batch_with_formula(&mut state, &filter, Some(formula), Ghost(closed));
    }
    let ghost last = state@;
    let report = SearchReport { found: state.found, explored: state.explored };
    proof {
        assert(last.found == family_sets(report.found@));
        assert forall|i: int| 0 <= i < report.found@.len() implies is_result(
            filter,
            term,
            #[trigger] report.found@[i]@,
        ) by {
            assert(last.found[i] == report.found@[i]@);
        }
        if closed {
            assert forall|i: int| 0 <= i < report.found@.len() implies union_closed(
                #[trigger] report.found@[i]@,
            ) by {
                assert(last.found[i] == report.found@[i]@);
            }
        }
    }
    Ok(report)
}

/// The search at and below `family` that takes each result at once, at
/// most `fuel` generations deep: `family` is a result where it is accepted,
/// and the search stops where the limit is reached with it; else each child
/// in turn is counted and searched.
pub open spec fn stream<L: Fn(&LabelingProblem) -> Vec<usize>>(
    labeler: &L,
    filter: Filter,
    formula: Option<FormulaTerm>,
    family: Set<u32>,
    t: Trace,
    fuel: nat,
) -> Result<(Trace, bool), CanonError>
    decreases fuel, 0nat, 0nat,
{
    let took = accepted(filter, formula, family);
    let seen = if took {
        Trace { batch: t.batch, found: t.found.push(completed(family)), explored: t.explored }
    } else {
        t
    };
    if took && filter.limit > 0 && seen.found.len() >= filter.limit {
        Ok((seen, true))
    } else if fuel == 0 {
        Ok((seen, false))
    } else {
        match children(labeler, family, filter.n as nat) {
            Err(e) => Err(e),
            Ok(kids) => stream_children(labeler, filter, formula, kids, 0, seen, (fuel - 1) as nat),
        }
    }
}

/// The search through the children from place `i` on, each result taken at
/// once.
pub open spec fn stream_children<L: Fn(&LabelingProblem) -> Vec<usize>>(
    labeler: &L,
    filter: Filter,
    formula: Option<FormulaTerm>,
    kids: Seq<Set<u32>>,
    i: nat,
    t: Trace,
    fuel: nat,
) -> Result<(Trace, bool), CanonError>
    decreases fuel, 1nat, kids.len() - i,
{
    if i >= kids.len() {
        Ok((t, false))
    } else {
        let counted = Trace { batch: t.batch, found: t.found, explored: bumped(t.explored) };
        match stream(labeler, filter, formula, kids[i as int], counted, fuel) {
            Err(e) => Err(e),
            Ok((below, hit)) => if hit {
                Ok((below, true))
            } else {
                stream_children(labeler, filter, formula, kids, i + 1, below, fuel)
            },
        }
    }
}

/// The whole search from `start`, each result taken at once.
pub open spec fn stream_search<L: Fn(&LabelingProblem) -> Vec<usize>>(
    labeler: &L,
    filter: Filter,
    formula: Option<FormulaTerm>,
    start: Set<u32>,
) -> Result<Trace, CanonError> {
    let first = Trace { batch: Seq::empty(), found: Seq::empty(), explored: 0 };
    match stream(labeler, filter, formula, start, first, pow2(filter.n as nat) + 1) {
        Err(e) => Err(e),
        Ok((t, _)) => Ok(t),
    }
}

/// Searches at and below `family`, each result taken at once, at most
/// `depth` generations deep. It says whether the limit is reached.
#[verifier::loop_isolation(false)]
fn dfs_explore_with_formula_console<L: Fn(&LabelingProblem) -> Vec<usize>>(
    family: &Family,
    labeler: &L,
    cache: &mut CanonCache,
    max_cache_size: usize,
    filter: &Filter,
    formula: Option<&Formula>,
    state: &mut SearchState,
    depth: u64,
    Ghost(closed): Ghost<bool>,
) -> (r: Result<bool, CanonError>)
    requires
        filter.n <= 32,
        accepts_problems(labeler),
        old(cache).wf(labeler, filter.n as nat),
        sound(*filter, term_of(formula), old(state)@, closed),
        filter.limit > 0 ==> old(state)@.found.len() < filter.limit,
        closed ==> union_closed(family@),
    ensures
        final(cache).wf(labeler, filter.n as nat),
        sound(*filter, term_of(formula), final(state)@, closed),
        r matches Ok(hit) ==> !hit ==> filter.limit > 0 ==> final(state)@.found.len()
            < filter.limit,
        functional(labeler) ==> explored_as(
            r,
            final(state)@,
            stream(labeler, *filter, term_of(formula), family@, old(state)@, depth as nat),
        ),
    decreases depth,
{
    let ghost term = term_of(formula);
    let ghost first = state@;
    let (took, complete_family) = accepts(family, filter, formula);
    if took {
        let ghost old_found = state.found@;
        state.found.push(complete_family);
        proof {
            lemma_completed_distinguished(family@, filter.n as nat);
            if closed {
                lemma_completed_union_closed(family@);
            }
            assert(state@.found =~= first.found.push(completed(family@)));
            assert forall|j: int| 0 <= j < state@.found.len() implies is_result(
                *filter,
                term,
                #[trigger] state@.found[j],
            ) by {
                if j < old_found.len() {
                    assert(state@.found[j] == first.found[j]);
                }
            }
            if closed {
                assert forall|j: int| 0 <= j < state@.found.len() implies union_closed(
                    #[trigger] state@.found[j],
                ) by {
                    if j < old_found.len() {
                        assert(state@.found[j] == first.found[j]);
                    }
                }
            }
        }
        if filter.limit > 0 && state.found.len() >= filter.limit {
            return Ok(true);
        }
    }
    if depth == 0 {
        return Ok(false);
    }
    let ghost seen = state@;
    let ghost fuel = (depth - 1) as nat;
    let new_families = match extend(family, filter.n, labeler, cache, max_cache_size) {
        Ok(kids) => kids,
        Err(e) => {
            return Err(e);
        },
    };
    let ghost kids = family_sets(new_families@);
    let mut i: usize = 0;
    while i < new_families.len()
        invariant
            i <= new_families@.len(),
            accepts_problems(labeler),
            cache.wf(labeler, filter.n as nat),
            sound(*filter, term, state@, closed),
            filter.limit > 0 ==> state@.found.len() < filter.limit,
            functional(labeler) ==> stream_children(labeler, *filter, term, kids, 0, seen, fuel)
                == stream_children(labeler, *filter, term, kids, i as nat, state@, fuel),
        decreases new_families@.len() - i,
    {
        if state.explored < usize::MAX {
            state.explored = state.explored + 1;
        }
        proof {
            assert(kids[i as int] == new_families@[i as int]@);
        }
        let hit_limit = match dfs_explore_with_formula_console(
            &new_families[i],
            labeler,
            cache,
            max_cache_size,
            filter,
            formula,
            state,
            depth - 1,
            Ghost(closed),
        ) {
            Ok(hit) => hit,
            Err(e) => {
                return Err(e);
            },
        };
        if hit_limit {
            return Ok(true);
        }
        i = i + 1;
    }
    Ok(false)
}

/// All families over `n` elements that the search by `config` generates
/// and accepts and that satisfy `formula`, each with the empty set and
/// each taken as soon as it is found.
pub fn gen_fam_with_formula_console<L: Fn(&LabelingProblem) -> Vec<usize>>(
    config: &Config,
    n: usize,
    formula: &Formula,
    labeler: &L,
) -> (r: Result<SearchReport, CanonError>)
    requires
        n <= 32,
        accepts_problems(labeler),
    ensures
        n == 0 ==> (r matches Ok(report) && report.found@.len() == 0 && report.explored == 0),
        n > 0 && functional(labeler) ==> reported_as(
            r,
            stream_search(labeler, filter_of(config, n), Some(formula@), start_of(config, n)),
        ),
        n > 0 && functional(labeler) ==> (crate::result_laws::first_accepted(
            labeler,
            filter_of(config, n),
            Some(formula@),
            start_of(config, n),
        ) matches Some(found) ==> (r matches Ok(report) && family_sets(report.found@) == found)),
        r matches Ok(report) ==> report_sound(
            report,
            filter_of(config, n),
            Some(formula@),
            start_of(config, n),
        ),
{
    if n == 0 {
        return Ok(SearchReport { found: Vec::new(), explored: 0 });
    }
    let filter = Filter {
        n,
        search_semiframes: config.search_semiframes,
        limit: config.limit,
        batch_size: config.batch_size,
    };
    let start_family = starting_family(config, n);
    let ghost closed = union_closed(start_family@);
    let ghost term = Some(formula@);
    let mut cache = CanonCache::new();
    let mut state = SearchState { batch: Vec::new(), found: Vec::new(), explored: 0 };
    proof {
        assert(state@.batch =~= Seq::<Set<u32>>::empty());
        assert(state@.found =~= Seq::<Set<u32>>::empty());
    }
    let depth: u64 = crate::bits::subset_count(n) + 1;
    proof {
        if crate::result_laws::first_accepted(labeler, filter, term, start_family@) is Some {
            crate::result_laws::lemma_stream_finds_the_first_accepted(
                labeler,
                filter,
                term,
                start_family@,
            );
        }
    }
    match dfs_explore_with_formula_console(
        &start_family,
        labeler,
        &mut cache,
        config.cache_size,
        &filter,
        Some(formula),
        &mut state,
        depth,
        Ghost(closed),
    ) {
        Ok(_) => {},
        Err(e) => {
            return Err(e);
        },
    }
    let ghost last = state@;
    let report = SearchReport { found: state.found, explored: state.explored };
    proof {
        assert(last.found == family_sets(report.found@));
        assert forall|i: int| 0 <= i < report.found@.len() implies is_result(
            filter,
            term,
            #[trigger] report.found@[i]@,
        ) by {
            assert(last.found[i] == report.found@[i]@);
        }
        if closed {
            assert forall|i: int| 0 <= i < report.found@.len() implies union_closed(
                #[trigger] report.found@[i]@,
            ) by {
                assert(last.found[i] == report.found@[i]@);
            }
        }
    }
    Ok(report)
}

} // verus!

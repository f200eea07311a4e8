//! Relabeling the ground set: what a vertex ordering does to a subset and to
//! a family.

use crate::bits::{
    below, has_bit, lemma_has_bit_insert, lemma_has_bit_union, lemma_has_bit_zero,
    lemma_masks_equal, single_bit, test_bit, with_bit,
};
use crate::family::{insert_member, lemma_push_to_set, Family};
use std::collections::BTreeSet;
use vstd::prelude::*;

verus! {

/// Why a family could not be brought to its canonical form.
#[derive(Clone, Copy, Debug, PartialEq, Eq, Structural)]
pub enum CanonError {
    /// The first `n` vertices of the labeling are not the `n` elements, each
    /// once.
    InvalidLabeling,
    /// The incidence graph has more vertices, or more words, than can be
    /// held.
    GraphTooLarge,
}

impl CanonError {
    /// What this error says.
    pub fn message(&self) -> (text: String)
        ensures
            *self == CanonError::InvalidLabeling ==> text@
                == "Invalid element permutation: the labeling does not start with the elements"@,
            *self == CanonError::GraphTooLarge ==> text@
                == "The incidence graph is too large"@,
    {
        match self {
            CanonError::InvalidLabeling => String::from_str(
                "Invalid element permutation: the labeling does not start with the elements",
            ),
            CanonError::GraphTooLarge => String::from_str("The incidence graph is too large"),
        }
    }
}

/// Whether the first `n` items of `lab` are the numbers below `n`, each once.
pub open spec fn is_element_permutation(lab: Seq<usize>, n: nat) -> bool {
    &&& lab.len() >= n
    &&& forall|p: int| 0 <= p < n ==> #[trigger] lab[p] < n
    &&& forall|p: int, q: int| 0 <= p < q < n ==> lab[p] != lab[q]
}

/// The subset that holds position `p`, for each `p` below `k`, exactly when
/// `mask` holds the element `lab[p]`.
pub open spec fn relabel_upto(mask: u32, lab: Seq<usize>, k: nat) -> u32
    decreases k,
{
    if k == 0 {
        0u32
    } else {
        let rest = relabel_upto(mask, lab, (k - 1) as nat);
        if has_bit(mask, lab[k - 1] as int) {
            rest | single_bit(k - 1)
        } else {
            rest
        }
    }
}

/// `mask` with each element moved to its position in `lab`: the result holds
/// position `p` below `n` exactly when `mask` holds the element `lab[p]`.
pub open spec fn relabel_mask(mask: u32, n: nat, lab: Seq<usize>) -> u32 {
    relabel_upto(mask, lab, n)
}

/// The family of the relabeled members of `family`.
pub open spec fn relabeled(family: Set<u32>, n: nat, lab: Seq<usize>) -> Set<u32> {
    Set::new(|m: u32| exists|s: u32| family.contains(s) && m == relabel_mask(s, n, lab))
}

/// Whether `image` is `family` with the ground set relabeled by some
/// permutation of its `n` elements.
pub open spec fn relabeling_of(family: Set<u32>, n: nat, image: Set<u32>) -> bool {
    exists|lab: Seq<usize>| is_element_permutation(lab, n) && image == relabeled(family, n, lab)
}

/// What a labeling makes of a family: the relabeled family, or an error
/// where the labeling does not start with a permutation of the elements.
pub open spec fn canonical_outcome(family: Set<u32>, n: nat, lab: Seq<usize>) -> Result<
    Set<u32>,
    CanonError,
> {
    if is_element_permutation(lab, n) {
        Ok(relabeled(family, n, lab))
    } else {
        Err(CanonError::InvalidLabeling)
    }
}

/// Whether an outcome on families is the outcome `s` on sets.
pub open spec fn outcome_is(r: Result<Family, CanonError>, s: Result<Set<u32>, CanonError>) -> bool {
    match r {
        Ok(c) => s == Ok::<Set<u32>, CanonError>(c@),
        Err(e) => s == Err::<Set<u32>, CanonError>(e),
    }
}

/// The members of a relabeled subset.
pub proof fn lemma_relabel_bits(mask: u32, lab: Seq<usize>, k: nat)
    requires
        k <= 32,
        lab.len() >= k,
    ensures
        forall|p: int|
            has_bit(relabel_upto(mask, lab, k), p) == (0 <= p < k && has_bit(mask, lab[p] as int)),
    decreases k,
{
    if k == 0 {
        assert forall|p: int| !has_bit(relabel_upto(mask, lab, k), p) by {
            lemma_has_bit_zero(p);
        }
    } else {
        lemma_relabel_bits(mask, lab, (k - 1) as nat);
        let rest = relabel_upto(mask, lab, (k - 1) as nat);
        assert forall|p: int|
            has_bit(relabel_upto(mask, lab, k), p) == (0 <= p < k && has_bit(
                mask,
                lab[p] as int,
            )) by {
            if has_bit(mask, lab[k - 1] as int) {
                lemma_has_bit_insert(rest, k - 1, p);
            }
        }
    }
}

/// A relabeled subset lies within the first `n` elements.
pub proof fn lemma_relabel_below(mask: u32, n: nat, lab: Seq<usize>)
    requires
        n <= 32,
        lab.len() >= n,
    ensures
        below(relabel_mask(mask, n, lab), n),
{
    lemma_relabel_bits(mask, lab, n);
}

/// Relabeling commutes with union.
pub proof fn lemma_relabel_union(x: u32, y: u32, n: nat, lab: Seq<usize>)
    requires
        n <= 32,
        lab.len() >= n,
    ensures
        relabel_mask(x | y, n, lab) == relabel_mask(x, n, lab) | relabel_mask(y, n, lab),
{
    lemma_relabel_bits(x, lab, n);
    lemma_relabel_bits(y, lab, n);
    lemma_relabel_bits(x | y, lab, n);
    let a = relabel_mask(x | y, n, lab);
    let b = relabel_mask(x, n, lab) | relabel_mask(y, n, lab);
    assert forall|p: int| 0 <= p < 32 implies has_bit(a, p) == has_bit(b, p) by {
        lemma_has_bit_union(relabel_mask(x, n, lab), relabel_mask(y, n, lab), p);
        if 0 <= p < n {
            lemma_has_bit_union(x, y, lab[p] as int);
        }
    }
    lemma_masks_equal(a, b);
}

/// A relabeling of a union-closed family is union-closed.
pub proof fn lemma_relabeled_union_closed(family: Set<u32>, n: nat, lab: Seq<usize>)
    requires
        n <= 32,
        lab.len() >= n,
        crate::family::union_closed(family),
    ensures
        crate::family::union_closed(relabeled(family, n, lab)),
{
    let image = relabeled(family, n, lab);
    assert forall|a: u32, b: u32| image.contains(a) && image.contains(b) implies image.contains(
        a | b,
    ) by {
        let x = choose|s: u32| family.contains(s) && a == relabel_mask(s, n, lab);
        let y = choose|s: u32| family.contains(s) && b == relabel_mask(s, n, lab);
        lemma_relabel_union(x, y, n, lab);
        assert(family.contains(x | y));
    }
}

/// Whether the first `n` items of `lab` are the numbers below `n`, each once.
pub fn is_permutation_prefix(lab: &Vec<usize>, n: usize) -> (b: bool)
    requires
        n <= 32,
    ensures
        b == is_element_permutation(lab@, n as nat),
{
    if lab.len() < n {
        return false;
    }
    let mut seen: u32 = 0;
    let mut p: usize = 0;
    proof {
        assert forall|j: int| !has_bit(seen, j) by {
            lemma_has_bit_zero(j);
        }
    }
    while p < n
        invariant
            n <= 32,
            p <= n,
            lab@.len() >= n,
            forall|q: int| 0 <= q < p ==> #[trigger] lab@[q] < n,
            forall|q: int, r: int| 0 <= q < r < p ==> lab@[q] != lab@[r],
            forall|j: int| has_bit(seen, j) == exists|q: int| 0 <= q < p && lab@[q] == j,
        decreases n - p,
    {
        let x: usize = lab[p];
        if x >= n {
            return false;
        }
        if test_bit(seen, x) {
            proof {
                let q = choose|q: int| 0 <= q < p && lab@[q] == x as int;
                assert(lab@[q] == lab@[p as int]);
            }
            return false;
        }
        let ghost before = seen;
        seen = with_bit(seen, x);
        proof {
            assert forall|j: int| has_bit(seen, j) == exists|q: int|
                0 <= q < p + 1 && lab@[q] == j by {
                if has_bit(before, j) {
                    let q = choose|q: int| 0 <= q < p && lab@[q] == j;
                    assert(0 <= q < p + 1 && lab@[q] == j);
                }
                if j == x {
                    assert(0 <= p < p + 1 && lab@[p as int] == j);
                }
                if exists|q: int| 0 <= q < p + 1 && lab@[q] == j {
                    let q = choose|q: int| 0 <= q < p + 1 && lab@[q] == j;
                    if q < p {
                        assert(has_bit(before, j));
                    }
                }
            }
            assert forall|q: int, r: int| 0 <= q < r < p + 1 implies lab@[q] != lab@[r] by {
                if r == p && lab@[q] == lab@[r] {
                    assert(has_bit(before, x as int));
                }
            }
        }
        p = p + 1;
    }
    true
}

/// `mask` with each element moved to its position in `lab`.
pub fn relabel(mask: u32, n: usize, lab: &Vec<usize>) -> (r: u32)
    requires
        n <= 32,
        is_element_permutation(lab@, n as nat),
    ensures
        r == relabel_mask(mask, n as nat, lab@),
{
    let mut r: u32 = 0;
    let mut p: usize = 0;
    while p < n
        invariant
            n <= 32,
            p <= n,
            is_element_permutation(lab@, n as nat),
            r == relabel_upto(mask, lab@, p as nat),
        decreases n - p,
    {
        let from: usize = lab[p];
        assert(lab@[p as int] < n);
        if test_bit(mask, from) {
            r = with_bit(r, p);
        }
        p = p + 1;
    }
    r
}

/// What the labeling `lab` makes of the family listed by `sets`: each member
/// relabeled, or `InvalidLabeling` where `lab` does not start with a
/// permutation of the `n` elements.
pub fn apply_labeling(sets: &Vec<u32>, n: usize, lab: &Vec<usize>) -> (r: Result<
    Family,
    CanonError,
>)
    requires
        n <= 32,
    ensures
        outcome_is(r, canonical_outcome(sets@.to_set(), n as nat, lab@)),
{
    if !is_permutation_prefix(lab, n) {
        return Err(CanonError::InvalidLabeling);
    }
    let mut image: Family = BTreeSet::new();
    let mut i: usize = 0;
    proof {
        assert(image@ =~= relabeled(sets@.subrange(0, 0).to_set(), n as nat, lab@));
    }
    while i < sets.len()
        invariant
            n <= 32,
            i <= sets.len(),
            is_element_permutation(lab@, n as nat),
            image@ == relabeled(sets@.subrange(0, i as int).to_set(), n as nat, lab@),
        decreases sets.len() - i,
    {
        let s: u32 = sets[i];
        let moved: u32 = relabel(s, n, lab);
        let ghost before = image@;
        insert_member(&mut image, moved);
        proof {
            let done = sets@.subrange(0, i as int);
            assert(sets@.subrange(0, i + 1) =~= done.push(s));
            lemma_push_to_set(done, s);
            let next = relabeled(done.push(s).to_set(), n as nat, lab@);
            assert forall|m: u32| before.insert(moved).contains(m) == next.contains(m) by {
                if before.contains(m) {
                    let w = choose|w: u32|
                        done.to_set().contains(w) && m == relabel_mask(w, n as nat, lab@);
                    assert(done.push(s).to_set().contains(w));
                }
                if m == moved {
                    assert(done.push(s).to_set().contains(s));
                }
                if next.contains(m) {
                    let w = choose|w: u32|
                        done.push(s).to_set().contains(w) && m == relabel_mask(w, n as nat, lab@);
                    if w != s {
                        assert(done.to_set().contains(w));
                    }
                }
            }
            assert(image@ =~= next);
        }
        i = i + 1;
    }
    proof {
        assert(sets@.subrange(0, sets@.len() as int) =~= sets@);
    }
    Ok(image)
}

} // verus!

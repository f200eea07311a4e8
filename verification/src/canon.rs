//! Canonical forms of families under relabeling of the ground set.
//!
//! The canonical labeling of the incidence graph is computed by a labeling
//! procedure that the caller hands in; everything around it is done here.

use crate::family::{ascending, lemma_sorted_is, members, sorted, to_family};
pub use crate::codec::{family_to_str, infer_size_from_family, parse_family_str, ParseError};
pub use crate::family::Family;
use crate::graph::{fits, incidence_problem, is_incidence_problem, LabelingProblem};
pub use crate::relabel::CanonError;
use crate::relabel::{
    apply_labeling, canonical_outcome, is_element_permutation, outcome_is, relabeled,
    relabeling_of,
};
use std::collections::BTreeSet;
use vstd::prelude::*;

verus! {

/// Whether `labeler` can be called on the labeling problem of every family.
pub open spec fn accepts_problems<L: Fn(&LabelingProblem) -> Vec<usize>>(labeler: &L) -> bool {
    forall|p: LabelingProblem, sets: Seq<u32>, n: nat| #[trigger]
        is_incidence_problem(p@, sets, n) ==> labeler.requires((&p,))
}

/// Whether `lab` is a labeling that `labeler` can return for the family
/// listed by `sets` over `n` elements.
pub open spec fn answers<L: Fn(&LabelingProblem) -> Vec<usize>>(
    labeler: &L,
    sets: Seq<u32>,
    n: nat,
    lab: Seq<usize>,
) -> bool {
    exists|p: LabelingProblem, r: Vec<usize>|
        is_incidence_problem(p@, sets, n) && #[trigger] labeler.ensures((&p,), r) && r@ == lab
}

/// Whether `labeler` is a function of the family: it has one answer for each.
pub open spec fn functional<L: Fn(&LabelingProblem) -> Vec<usize>>(labeler: &L) -> bool {
    forall|sets: Seq<u32>, n: nat, a: Seq<usize>, b: Seq<usize>|
        #![trigger answers(labeler, sets, n, a), answers(labeler, sets, n, b)]
        answers(labeler, sets, n, a) && answers(labeler, sets, n, b) ==> a == b
}

/// The labeling that `labeler` returns for the family listed by `sets`.
pub open spec fn labeling_of<L: Fn(&LabelingProblem) -> Vec<usize>>(
    labeler: &L,
    sets: Seq<u32>,
    n: nat,
) -> Seq<usize> {
    choose|lab: Seq<usize>| answers(labeler, sets, n, lab)
}

/// The canonical form of `family` over `n` elements under `labeler`: empty
/// for the empty family, else what the labeling of its incidence graph makes
/// of it.
pub open spec fn canonical_form<L: Fn(&LabelingProblem) -> Vec<usize>>(
    labeler: &L,
    family: Set<u32>,
    n: nat,
) -> Result<Set<u32>, CanonError> {
    if family.len() == 0 {
        Ok(Set::empty())
    } else if !fits(n + family.len()) {
        Err(CanonError::GraphTooLarge)
    } else {
        canonical_outcome(family, n, labeling_of(labeler, sorted(family), n))
    }
}

/// `family` without its largest member.
pub open spec fn without_largest(family: Set<u32>) -> Set<u32> {
    sorted(family).drop_last().to_set()
}

/// The canonical parent of `family`: empty where it has at most one member,
/// else the canonical form of the family without its largest member.
pub open spec fn canonical_parent<L: Fn(&LabelingProblem) -> Vec<usize>>(
    labeler: &L,
    family: Set<u32>,
    n: nat,
) -> Result<Set<u32>, CanonError> {
    if family.len() <= 1 {
        Ok(Set::empty())
    } else {
        canonical_form(labeler, without_largest(family), n)
    }
}

/// The labeling of the family listed by `sets` over `n` elements, as
/// `labeler` computes it on the family's incidence graph.
pub fn canon_permutation<L: Fn(&LabelingProblem) -> Vec<usize>>(
    sets: &Vec<u32>,
    n: usize,
    labeler: &L,
) -> (r: Result<Vec<usize>, CanonError>)
    requires
        n <= 32,
        accepts_problems(labeler),
    ensures
        r is Ok == fits((n + sets@.len()) as nat),
        r matches Err(e) ==> e == CanonError::GraphTooLarge,
        r matches Ok(lab) ==> answers(labeler, sets@, n as nat, lab@),
        r matches Ok(lab) ==> functional(labeler) ==> lab@ == labeling_of(labeler, sets@, n as nat),
{
    match incidence_problem(sets, n) {
        None => Err(CanonError::GraphTooLarge),
        Some(p) => {
            assert(is_incidence_problem(p@, sets@, n as nat));
            let lab = labeler(&p);
            proof {
                assert(answers(labeler, sets@, n as nat, lab@));
                if functional(labeler) {
                    let chosen = labeling_of(labeler, sets@, n as nat);
                    assert(answers(labeler, sets@, n as nat, chosen));
                }
            }
            Ok(lab)
        },
    }
}

/// A bounded memory of canonical forms, each family with its canonical
/// form, in the order in which they were stored.
pub struct CanonCache {
    keys: Vec<Vec<u32>>,
    values: Vec<Vec<u32>>,
}

impl CanonCache {
    /// The stored pairs: the ascending members of a family, and those of its
    /// canonical form.
    pub closed spec fn entries(&self) -> Seq<(Seq<u32>, Seq<u32>)> {
        Seq::new(
            self.keys@.len(),
            |i: int|
                (
                    self.keys@[i]@,
                    if i < self.values@.len() {
                        self.values@[i]@
                    } else {
                        Seq::empty()
                    },
                ),
        )
    }

    /// Whether the two halves of the memory are of one length.
    pub closed spec fn paired(&self) -> bool {
        self.keys@.len() == self.values@.len()
    }

    /// Whether every stored pair is a non-empty family over `n` elements with
    /// a relabeling of it, which is its canonical form under `labeler` where
    /// `labeler` is a function.
    pub open spec fn wf<L: Fn(&LabelingProblem) -> Vec<usize>>(&self, labeler: &L, n: nat) -> bool {
        &&& self.paired()
        &&& forall|i: int|
            0 <= i < self.entries().len() ==> entry_holds(labeler, n, #[trigger] self.entries()[i])
    }

    /// An empty memory.
    pub fn new() -> (cache: CanonCache)
        ensures
            cache.entries() == Seq::<(Seq<u32>, Seq<u32>)>::empty(),
            cache.paired(),
    {
        let cache = CanonCache { keys: Vec::new(), values: Vec::new() };
        assert(cache.entries() =~= Seq::<(Seq<u32>, Seq<u32>)>::empty());
        cache
    }

    /// The number of stored pairs.
    pub fn len(&self) -> (k: usize)
        ensures
            k == self.entries().len(),
    {
        self.keys.len()
    }

    /// Forgets every stored pair.
    pub fn clear(&mut self)
        ensures
            final(self).entries() == Seq::<(Seq<u32>, Seq<u32>)>::empty(),
            final(self).paired(),
    {
        self.keys = Vec::new();
        self.values = Vec::new();
        assert(self.entries() =~= Seq::<(Seq<u32>, Seq<u32>)>::empty());
    }

    /// The canonical form stored for the family listed by `sets`, from the
    /// pair that was stored first.
    pub fn lookup(&self, sets: &Vec<u32>) -> (found: Option<Vec<u32>>)
        requires
            self.paired(),
        ensures
            found matches Some(v) ==> stored(self.entries(), sets@) == Some(v@),
            found is None ==> stored(self.entries(), sets@) is None,
    {
        let mut i: usize = 0;
        while i < self.keys.len()
            invariant
                i <= self.keys@.len(),
                self.paired(),
                stored(self.entries().subrange(0, i as int), sets@) is None,
            decreases self.keys@.len() - i,
        {
            let ghost before = self.entries().subrange(0, i as int);
            let ghost next = self.entries().subrange(0, i + 1);
            proof {
                assert(next.drop_last() =~= before);
                assert(next.last() == self.entries()[i as int]);
            }
            if same_items(&self.keys[i], sets) {
                let v = self.values[i].clone();
                proof {
                    assert(v@ =~= self.values@[i as int]@);
                    lemma_stored_prefix(self.entries(), sets@, i + 1);
                }
                return Some(v);
            }
            i = i + 1;
        }
        proof {
            assert(self.entries().subrange(0, self.entries().len() as int) =~= self.entries());
        }
        None
    }

    /// Stores a pair behind those that are stored.
    fn insert(&mut self, sets: Vec<u32>, canonical: Vec<u32>)
        requires
            old(self).paired(),
        ensures
            final(self).paired(),
            final(self).entries() == old(self).entries().push((sets@, canonical@)),
    {
        self.keys.push(sets);
        self.values.push(canonical);
        assert(self.entries() =~= old(self).entries().push((sets@, canonical@)));
    }
}

/// Whether a stored pair is a non-empty family with a relabeling of it, its
/// canonical form under `labeler` where `labeler` is a function.
pub open spec fn entry_holds<L: Fn(&LabelingProblem) -> Vec<usize>>(
    labeler: &L,
    n: nat,
    entry: (Seq<u32>, Seq<u32>),
) -> bool {
    &&& ascending(entry.0)
    &&& ascending(entry.1)
    &&& entry.0.len() > 0
    &&& relabeling_of(entry.0.to_set(), n, entry.1.to_set())
    &&& functional(labeler) ==> canonical_form(labeler, entry.0.to_set(), n) == Ok::<
        Set<u32>,
        CanonError,
    >(entry.1.to_set())
}

/// The value of the first pair of `entries` whose key is `key`.
pub open spec fn stored(entries: Seq<(Seq<u32>, Seq<u32>)>, key: Seq<u32>) -> Option<Seq<u32>>
    decreases entries.len(),
{
    if entries.len() == 0 {
        None
    } else {
        match stored(entries.drop_last(), key) {
            Some(v) => Some(v),
            None => if entries.last().0 == key {
                Some(entries.last().1)
            } else {
                None
            },
        }
    }
}

/// A value found among the first pairs is the value found among all.
pub proof fn lemma_stored_prefix(entries: Seq<(Seq<u32>, Seq<u32>)>, key: Seq<u32>, k: int)
    requires
        0 <= k <= entries.len(),
        stored(entries.subrange(0, k), key) is Some,
    ensures
        stored(entries, key) == stored(entries.subrange(0, k), key),
    decreases entries.len() - k,
{
    if k < entries.len() {
        let next = entries.subrange(0, k + 1);
        assert(next.drop_last() =~= entries.subrange(0, k));
        lemma_stored_prefix(entries, key, k + 1);
    } else {
        assert(entries.subrange(0, k) =~= entries);
    }
}

/// A value that is found stands in one of the pairs, under its key.
pub proof fn lemma_stored_is_entry(entries: Seq<(Seq<u32>, Seq<u32>)>, key: Seq<u32>)
    requires
        stored(entries, key) is Some,
    ensures
        exists|i: int| 0 <= i < entries.len() && #[trigger] entries[i] == (key, stored(entries, key)->0),
    decreases entries.len(),
{
    if entries.len() > 0 {
        match stored(entries.drop_last(), key) {
            Some(v) => {
                lemma_stored_is_entry(entries.drop_last(), key);
                let shorter = entries.drop_last();
                let i = choose|i: int| 0 <= i < shorter.len() && #[trigger] shorter[i] == (key, v);
                assert(entries[i] == (key, v));
            },
            None => {
                assert(entries[entries.len() - 1] == (key, entries.last().1));
            },
        }
    }
}

/// Whether two vectors hold the same items in the same order.
pub fn same_items(a: &Vec<u32>, b: &Vec<u32>) -> (same: bool)
    ensures
        same == (a@ == b@),
{
    if a.len() != b.len() {
        return false;
    }
    let mut i: usize = 0;
    while i < a.len()
        invariant
            i <= a.len(),
            a.len() == b.len(),
            forall|j: int| 0 <= j < i ==> a@[j] == b@[j],
        decreases a.len() - i,
    {
        if a[i] != b[i] {
            return false;
        }
        i = i + 1;
    }
    proof {
        assert(a@ =~= b@);
    }
    true
}

/// What a call of `canonicalize` with the bound `max_cache_size` leaves in
/// the memory: nothing new where the bound is 0, the family was found, or no
/// canonical form came out; else the new pair, behind the old pairs where
/// they were fewer than the bound, and alone where they were not.
pub open spec fn entries_after(
    before: Seq<(Seq<u32>, Seq<u32>)>,
    family: Set<u32>,
    outcome: Result<Set<u32>, CanonError>,
    max_cache_size: nat,
) -> Seq<(Seq<u32>, Seq<u32>)> {
    if max_cache_size == 0 || family.len() == 0 || stored(before, sorted(family)) is Some {
        before
    } else {
        match outcome {
            Err(_) => before,
            Ok(c) => {
                let kept = if before.len() >= max_cache_size {
                    Seq::empty()
                } else {
                    before
                };
                kept.push((sorted(family), sorted(c)))
            },
        }
    }
}

/// The identity is a permutation, and relabels the empty family to itself.
pub proof fn lemma_empty_relabeling(n: nat)
    requires
        n <= 32,
    ensures
        relabeling_of(Set::<u32>::empty(), n, Set::<u32>::empty()),
{
    let lab = Seq::new(n, |i: int| i as usize);
    assert(is_element_permutation(lab, n));
    assert(relabeled(Set::<u32>::empty(), n, lab) =~= Set::<u32>::empty());
}

/// Whether `r` is what bringing `family` to its canonical form can give,
/// with the memory `entries` and the bound `max_cache_size`: the empty
/// family for the empty family; what the memory holds for a family that it
/// holds, where the bound is not 0; `GraphTooLarge` for a family whose
/// incidence graph cannot be held; and else what a labeling that `labeler`
/// returns for the family makes of it.
pub open spec fn is_canonical_outcome<L: Fn(&LabelingProblem) -> Vec<usize>>(
    labeler: &L,
    family: Set<u32>,
    n: nat,
    entries: Seq<(Seq<u32>, Seq<u32>)>,
    max_cache_size: nat,
    r: Result<Family, CanonError>,
) -> bool {
    if family.len() == 0 {
        r matches Ok(c) && c@ == Set::<u32>::empty()
    } else if max_cache_size > 0 && stored(entries, sorted(family)) is Some {
        r matches Ok(c) && c@ == stored(entries, sorted(family))->0.to_set()
    } else if !fits(n + family.len()) {
        r == Err::<Family, CanonError>(CanonError::GraphTooLarge)
    } else {
        exists|lab: Seq<usize>|
            answers(labeler, sorted(family), n, lab) && outcome_is(
                r,
                canonical_outcome(family, n, lab),
            )
    }
}

/// The canonical form of `family` over `n` elements: the family relabeled by
/// the labeling that `labeler` gives for its incidence graph. A family that
/// `cache` holds is answered from it, where `max_cache_size` is not 0.
pub fn canonicalize<L: Fn(&LabelingProblem) -> Vec<usize>>(
    family: &Family,
    n: usize,
    labeler: &L,
    cache: &mut CanonCache,
    max_cache_size: usize,
) -> (r: Result<Family, CanonError>)
    requires
        n <= 32,
        accepts_problems(labeler),
        old(cache).wf(labeler, n as nat),
    ensures
        final(cache).wf(labeler, n as nat),
        functional(labeler) ==> outcome_is(r, canonical_form(labeler, family@, n as nat)),
        r matches Ok(c) ==> relabeling_of(family@, n as nat, c@),
        is_canonical_outcome(
            labeler,
            family@,
            n as nat,
            old(cache).entries(),
            max_cache_size as nat,
            r,
        ),
        final(cache).entries() == entries_after(
            old(cache).entries(),
            family@,
            match r {
                Ok(c) => Ok(c@),
                Err(e) => Err(e),
            },
            max_cache_size as nat,
        ),
{
    let sets = members(family);
    if sets.len() == 0 {
        proof {
            lemma_empty_relabeling(n as nat);
            assert(family@ =~= Set::<u32>::empty());
        }
        let empty: Family = BTreeSet::new();
        return Ok(empty);
    }
    if max_cache_size > 0 {
        match cache.lookup(&sets) {
            Some(v) => {
                proof {
                    lemma_stored_is_entry(cache.entries(), sets@);
                    let held = cache.entries();
                    let i = choose|i: int| 0 <= i < held.len() && #[trigger] held[i] == (sets@, v@);
                    assert(entry_holds(labeler, n as nat, held[i]));
                }
                let found = to_family(&v);
                return Ok(found);
            },
            None => {},
        }
    }
    let lab = match canon_permutation(&sets, n, labeler) {
        Ok(lab) => lab,
        Err(e) => {
            return Err(e);
        },
    };
    let canonical = match apply_labeling(&sets, n, &lab) {
        Ok(c) => c,
        Err(e) => {
            return Err(e);
        },
    };
    if max_cache_size > 0 {
        if cache.len() >= max_cache_size {
            cache.clear();
        }
        let image = members(&canonical);
        proof {
            lemma_sorted_is(sets@);
            lemma_sorted_is(image@);
            assert(entry_holds(labeler, n as nat, (sets@, image@)));
        }
        cache.insert(sets, image);
    }
    Ok(canonical)
}

/// The canonical form of `family` over `n` elements, computed afresh.
pub fn canonicalize_once<L: Fn(&LabelingProblem) -> Vec<usize>>(
    family: &Family,
    n: usize,
    labeler: &L,
) -> (r: Result<Family, CanonError>)
    requires
        n <= 32,
        accepts_problems(labeler),
    ensures
        functional(labeler) ==> outcome_is(r, canonical_form(labeler, family@, n as nat)),
        r matches Ok(c) ==> relabeling_of(family@, n as nat, c@),
        is_canonical_outcome(labeler, family@, n as nat, Seq::empty(), 0, r),
{
    let mut unused = CanonCache::new();
    canonicalize(family, n, labeler, &mut unused, 0)
}

/// The canonical parent of `family`: the canonical form of the family
/// without its largest member, and the empty family where it has at most one
/// member.
pub fn canonical_delete<L: Fn(&LabelingProblem) -> Vec<usize>>(
    family: &Family,
    n: usize,
    labeler: &L,
    cache: &mut CanonCache,
    max_cache_size: usize,
) -> (r: Result<Family, CanonError>)
    requires
        n <= 32,
        accepts_problems(labeler),
        old(cache).wf(labeler, n as nat),
    ensures
        final(cache).wf(labeler, n as nat),
        functional(labeler) ==> outcome_is(r, canonical_parent(labeler, family@, n as nat)),
        family@.len() <= 1 ==> (r matches Ok(c) && c@ == Set::<u32>::empty()),
        family@.len() > 1 ==> (r matches Ok(c) ==> relabeling_of(
            without_largest(family@),
            n as nat,
            c@,
        )),
        family@.len() > 1 ==> is_canonical_outcome(
            labeler,
            without_largest(family@),
            n as nat,
            old(cache).entries(),
            max_cache_size as nat,
            r,
        ),
        final(cache).entries() == (if family@.len() <= 1 {
            old(cache).entries()
        } else {
            entries_after(
                old(cache).entries(),
                without_largest(family@),
                match r {
                    Ok(c) => Ok(c@),
                    Err(e) => Err(e),
                },
                max_cache_size as nat,
            )
        }),
{
    let mut listed = members(family);
    if listed.len() <= 1 {
        let empty: Family = BTreeSet::new();
        return Ok(empty);
    }
    listed.pop();
    proof {
        assert(listed@ =~= sorted(family@).drop_last());
    }
    let reduced = to_family(&listed);
    canonicalize(&reduced, n, labeler, cache, max_cache_size)
}

} // verus!

//! Families of subsets: ordered sets of bitmasks, and their ascending listing.

use crate::bits::below;
use std::collections::BTreeSet;
use vstd::prelude::*;
use vstd::std_specs::cmp::OrdSpec;
use vstd::std_specs::iter::IteratorSpec;

verus! {

/// A family of subsets of the ground set, each subset a bitmask.
pub type Family = BTreeSet<u32>;

/// Whether `s` lists its items in strictly ascending order.
pub open spec fn ascending(s: Seq<u32>) -> bool {
    forall|i: int, j: int| 0 <= i < j < s.len() ==> s[i] < s[j]
}

/// The members of `family` in ascending order.
pub open spec fn sorted(family: Set<u32>) -> Seq<u32> {
    choose|q: Seq<u32>| ascending(q) && q.to_set() == family
}

/// Whether the union of any two members of `family` is a member again.
pub open spec fn union_closed(family: Set<u32>) -> bool {
    forall|x: u32, y: u32| family.contains(x) && family.contains(y) ==> family.contains(x | y)
}

/// Whether every member of `family` is a subset of the first `n` elements.
pub open spec fn within(family: Set<u32>, n: nat) -> bool {
    forall|x: u32| family.contains(x) ==> below(x, n)
}

/// Whether `a` comes before `b` when two families are compared member by
/// member in ascending order, a proper prefix coming first.
pub open spec fn lex_less(a: Seq<u32>, b: Seq<u32>) -> bool
    decreases a.len(),
{
    if b.len() == 0 {
        false
    } else if a.len() == 0 {
        true
    } else if a[0] != b[0] {
        a[0] < b[0]
    } else {
        lex_less(a.drop_first(), b.drop_first())
    }
}

/// An ascending sequence has no item twice.
pub proof fn lemma_ascending_no_duplicates(q: Seq<u32>)
    requires
        ascending(q),
    ensures
        q.no_duplicates(),
        q.len() == q.to_set().len(),
        q.to_set().finite(),
{
    assert forall|i: int, j: int| 0 <= i < q.len() && 0 <= j < q.len() && i != j implies q[i]
        != q[j] by {
        if i < j {
            assert(q[i] < q[j]);
        } else {
            assert(q[j] < q[i]);
        }
    }
    q.unique_seq_to_set();
    vstd::seq_lib::seq_to_set_is_finite(q);
}

/// Two ascending sequences that hold the same items are the same sequence.
pub proof fn lemma_ascending_unique(p: Seq<u32>, q: Seq<u32>)
    requires
        ascending(p),
        ascending(q),
        p.to_set() == q.to_set(),
    ensures
        p == q,
    decreases p.len(),
{
    lemma_ascending_no_duplicates(p);
    lemma_ascending_no_duplicates(q);
    assert(p.len() == q.len());
    if p.len() > 0 {
        let pl = p.last();
        let ql = q.last();
        assert(p.to_set().contains(pl));
        assert(q.to_set().contains(ql));
        assert(q.contains(pl));
        assert(p.contains(ql));
        let i = choose|i: int| 0 <= i < q.len() && q[i] == pl;
        let j = choose|j: int| 0 <= j < p.len() && p[j] == ql;
        assert(pl <= ql) by {
            if i < q.len() - 1 {
                assert(q[i] < q[q.len() - 1]);
            }
        }
        assert(ql <= pl) by {
            if j < p.len() - 1 {
                assert(p[j] < p[p.len() - 1]);
            }
        }
        let p1 = p.drop_last();
        let q1 = q.drop_last();
        assert(ascending(p1));
        assert(ascending(q1));
        assert(p1.to_set() =~= q1.to_set()) by {
            assert forall|x: u32| p1.to_set().contains(x) == q1.to_set().contains(x) by {
                if p1.to_set().contains(x) {
                    let k = choose|k: int| 0 <= k < p1.len() && p1[k] == x;
                    assert(p[k] == x);
                    assert(p[k] < p[p.len() - 1]);
                    assert(p.to_set().contains(x));
                    assert(q.contains(x));
                    let m = choose|m: int| 0 <= m < q.len() && q[m] == x;
                    assert(m < q.len() - 1);
                    assert(q1[m] == x);
                }
                if q1.to_set().contains(x) {
                    let k = choose|k: int| 0 <= k < q1.len() && q1[k] == x;
                    assert(q[k] == x);
                    assert(q[k] < q[q.len() - 1]);
                    assert(q.to_set().contains(x));
                    assert(p.contains(x));
                    let m = choose|m: int| 0 <= m < p.len() && p[m] == x;
                    assert(m < p.len() - 1);
                    assert(p1[m] == x);
                }
            }
        }
        lemma_ascending_unique(p1, q1);
        assert(p =~= p1.push(pl));
        assert(q =~= q1.push(ql));
    } else {
        assert(p =~= q);
    }
}

/// An ascending sequence is the ascending listing of the set of its items.
pub proof fn lemma_sorted_is(q: Seq<u32>)
    requires
        ascending(q),
    ensures
        sorted(q.to_set()) == q,
{
    let s = sorted(q.to_set());
    assert(ascending(s) && s.to_set() == q.to_set());
    lemma_ascending_unique(s, q);
}

/// The members of `family`, smallest first.
pub fn members(family: &Family) -> (v: Vec<u32>)
    ensures
        ascending(v@),
        v@.to_set() == family@,
        v@.len() == family@.len(),
        v@ == sorted(family@),
        family@.finite(),
{
    broadcast use vstd::std_specs::btree::group_btree_axioms;
    broadcast use vstd::laws_cmp::group_laws_cmp;

    let mut v: Vec<u32> = Vec::new();
    let ghost whole: Seq<&u32> = family.iter().remaining();
    for x in it: family.iter()
        invariant
            it.seq() == whole,
            v@.len() == it.index(),
            forall|i: int| 0 <= i < v@.len() ==> v@[i] == *whole[i],
    {
        v.push(*x);
    }
    proof {
        assert(v@ =~= whole.unref());
        assert(vstd::laws_cmp::obeys_cmp::<u32>());
        assert(vstd::laws_cmp::obeys_cmp::<&u32>());
        assert(vstd::std_specs::btree::increasing_seq(whole));
        assert forall|i: int, j: int| 0 <= i < j < v@.len() implies v@[i] < v@[j] by {
            assert(OrdSpec::cmp_spec(&whole[i], &whole[j]) is Less);
        }
        lemma_sorted_is(v@);
        lemma_ascending_no_duplicates(v@);
    }
    v
}

/// Adds `x` to `family`.
pub fn insert_member(family: &mut Family, x: u32)
    ensures
        final(family)@ == old(family)@.insert(x),
{
    broadcast use vstd::std_specs::btree::group_btree_axioms;
    broadcast use vstd::laws_cmp::group_laws_cmp;

    proof {
        assert(vstd::laws_cmp::obeys_cmp::<u32>());
    }
    family.insert(x);
}

/// Whether `x` is a member of `family`.
pub fn is_member(family: &Family, x: u32) -> (b: bool)
    ensures
        b == family@.contains(x),
{
    broadcast use vstd::std_specs::btree::group_btree_axioms;
    broadcast use vstd::laws_cmp::group_laws_cmp;

    proof {
        assert(vstd::laws_cmp::obeys_cmp::<u32>());
    }
    family.contains(&x)
}

/// The set of the items of a sequence with one more item at its end.
pub proof fn lemma_push_to_set(s: Seq<u32>, x: u32)
    ensures
        s.push(x).to_set() == s.to_set().insert(x),
{
    assert forall|y: u32| s.push(x).to_set().contains(y) == s.to_set().insert(x).contains(y) by {
        if s.push(x).to_set().contains(y) {
            let k = choose|k: int| 0 <= k < s.push(x).len() && s.push(x)[k] == y;
            if k < s.len() {
                assert(s[k] == y);
            }
        }
        if s.to_set().contains(y) {
            let k = choose|k: int| 0 <= k < s.len() && s[k] == y;
            assert(s.push(x)[k] == y);
        }
        if y == x {
            assert(s.push(x)[s.len() as int] == x);
        }
    }
    assert(s.push(x).to_set() =~= s.to_set().insert(x));
}

/// The family whose members are the items of `v`.
pub fn to_family(v: &Vec<u32>) -> (family: Family)
    ensures
        family@ == v@.to_set(),
{
    let mut family: Family = BTreeSet::new();
    let mut i: usize = 0;
    while i < v.len()
        invariant
            i <= v.len(),
            family@ == v@.subrange(0, i as int).to_set(),
        decreases v.len() - i,
    {
        let x: u32 = v[i];
        insert_member(&mut family, x);
        proof {
            assert(v@.subrange(0, i + 1) =~= v@.subrange(0, i as int).push(x));
            lemma_push_to_set(v@.subrange(0, i as int), x);
        }
        i = i + 1;
    }
    proof {
        assert(v@.subrange(0, v@.len() as int) =~= v@);
    }
    family
}

/// How two listings stand in the order of listings.
pub enum Order {
    Before,
    Same,
    After,
}

/// How `a` and `b` stand when compared item by item.
pub fn compare_members(a: &Vec<u32>, b: &Vec<u32>) -> (o: Order)
    ensures
        (o is Same) == (a@ == b@),
        (o is Before) == lex_less(a@, b@),
{
    let mut i: usize = 0;
    proof {
        assert(a@.subrange(0, a@.len() as int) =~= a@);
        assert(b@.subrange(0, b@.len() as int) =~= b@);
    }
    while i < a.len() && i < b.len()
        invariant
            i <= a@.len(),
            i <= b@.len(),
            forall|j: int| 0 <= j < i ==> a@[j] == b@[j],
            lex_less(a@, b@) == lex_less(
                a@.subrange(i as int, a@.len() as int),
                b@.subrange(i as int, b@.len() as int),
            ),
        decreases a@.len() - i,
    {
        let ghost ra = a@.subrange(i as int, a@.len() as int);
        let ghost rb = b@.subrange(i as int, b@.len() as int);
        proof {
            assert(ra[0] == a@[i as int]);
            assert(rb[0] == b@[i as int]);
            assert(ra.drop_first() =~= a@.subrange(i + 1, a@.len() as int));
            assert(rb.drop_first() =~= b@.subrange(i + 1, b@.len() as int));
        }
        if a[i] < b[i] {
            return Order::Before;
        }
        if a[i] > b[i] {
            return Order::After;
        }
        i = i + 1;
    }
    if i < b.len() {
        Order::Before
    } else if i < a.len() {
        Order::After
    } else {
        proof {
            assert(a@ =~= b@);
        }
        Order::Same
    }
}

/// The members of `family` below `k`, in ascending order.
pub open spec fn listing(family: Set<u32>, k: nat) -> Seq<u32>
    decreases k,
{
    if k == 0 {
        Seq::empty()
    } else {
        let rest = listing(family, (k - 1) as nat);
        if k - 1 <= u32::MAX && family.contains((k - 1) as u32) {
            rest.push((k - 1) as u32)
        } else {
            rest
        }
    }
}

/// The listing below `k` is ascending and holds the members below `k`.
pub proof fn lemma_listing(family: Set<u32>, k: nat)
    ensures
        ascending(listing(family, k)),
        forall|i: int|
            0 <= i < listing(family, k).len() ==> family.contains(#[trigger] listing(family, k)[i])
                && listing(family, k)[i] < k,
        forall|x: u32| family.contains(x) && x < k ==> #[trigger] listing(family, k).contains(x),
    decreases k,
{
    if k > 0 {
        lemma_listing(family, (k - 1) as nat);
        let rest = listing(family, (k - 1) as nat);
        let all = listing(family, k);
        if k - 1 <= u32::MAX && family.contains((k - 1) as u32) {
            let top = (k - 1) as u32;
            assert(all =~= rest.push(top));
            assert forall|i: int, j: int| 0 <= i < j < all.len() implies all[i] < all[j] by {
                assert(all[i] == rest[i]);
                assert(rest[i] < k - 1);
                if j < rest.len() {
                    assert(all[j] == rest[j]);
                }
            }
            assert forall|i: int| 0 <= i < all.len() implies family.contains(#[trigger] all[i])
                && all[i] < k by {
                if i < rest.len() {
                    assert(all[i] == rest[i]);
                }
            }
            assert forall|x: u32| family.contains(x) && x < k implies #[trigger] all.contains(
                x,
            ) by {
                if x == top {
                    assert(all[rest.len() as int] == x);
                } else {
                    assert(rest.contains(x));
                    let i = choose|i: int| 0 <= i < rest.len() && rest[i] == x;
                    assert(all[i] == x);
                }
            }
        } else {
            assert(all == rest);
            assert forall|x: u32| family.contains(x) && x < k implies #[trigger] all.contains(
                x,
            ) by {
                if x == k - 1 {
                    assert((k - 1) as u32 == x);
                    assert(false);
                }
                assert(rest.contains(x));
            }
        }
    }
}

/// Every family has an ascending listing, and is finite.
pub proof fn lemma_sorted_exists(family: Set<u32>)
    ensures
        ascending(sorted(family)),
        sorted(family).to_set() == family,
        sorted(family).len() == family.len(),
        family.finite(),
{
    let q = listing(family, 0x1_0000_0000);
    lemma_listing(family, 0x1_0000_0000);
    assert forall|x: u32| q.to_set().contains(x) == family.contains(x) by {
        if q.to_set().contains(x) {
            let i = choose|i: int| 0 <= i < q.len() && q[i] == x;
            assert(family.contains(q[i]));
        }
        if family.contains(x) {
            assert(q.contains(x));
        }
    }
    assert(q.to_set() =~= family);
    lemma_ascending_no_duplicates(sorted(family));
}

} // verus!

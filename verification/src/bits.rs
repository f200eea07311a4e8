//! Subsets of a ground set of at most 32 elements, held as bitmasks.
//!
//! Element `i` (counted from 1) is a member of the subset `mask` when bit
//! `i - 1` of `mask` is set.

use vstd::prelude::*;

verus! {

/// Whether bit `i` (counted from 0) of `mask` is set.
pub open spec fn has_bit(mask: u32, i: int) -> bool {
    0 <= i < 32 && (mask >> (i as u32)) & 1u32 == 1u32
}

/// The mask whose only member is bit `i`.
pub open spec fn single_bit(i: int) -> u32
    recommends
        0 <= i < 32,
{
    1u32 << (i as u32)
}

/// Whether every member of `mask` lies below bit `n`.
pub open spec fn below(mask: u32, n: nat) -> bool {
    forall|i: int| n <= i < 32 ==> !has_bit(mask, i)
}

/// The mask that holds exactly the bits below `n`.
pub open spec fn full_mask(n: nat) -> u32
    recommends
        n <= 32,
{
    if n >= 32 {
        u32::MAX
    } else {
        ((1u32 << (n as u32)) - 1) as u32
    }
}

/// The number of subsets of a ground set of `n` elements.
pub open spec fn pow2(n: nat) -> nat
    decreases n,
{
    if n == 0 {
        1
    } else {
        2 * pow2((n - 1) as nat)
    }
}

/// The bits of a word with one more bit.
proof fn lemma_or_single(m: u32, i: u32, j: u32)
    by (bit_vector)
    requires
        i < 32,
        j < 32,
    ensures
        ((m | (1u32 << i)) >> j) & 1u32 == (if i == j {
            1u32
        } else {
            (m >> j) & 1u32
        }),
{
}

/// The bits of the union of two words.
proof fn lemma_or_bits(a: u32, b: u32, j: u32)
    by (bit_vector)
    requires
        j < 32,
    ensures
        ((a | b) >> j) & 1u32 == 1u32 <==> ((a >> j) & 1u32 == 1u32 || (b >> j) & 1u32 == 1u32),
        (a >> j) & 1u32 == 0u32 || (a >> j) & 1u32 == 1u32,
{
}

/// The bits of the empty word.
proof fn lemma_zero_bits(j: u32)
    by (bit_vector)
    requires
        j < 32,
    ensures
        (0u32 >> j) & 1u32 == 0u32,
{
}

/// Two words with the same thirty-two bits are one word.
proof fn lemma_equal_by_bits(a: u32, b: u32)
    by (bit_vector)
    requires
        (a >> 0u32) & 1u32 == (b >> 0u32) & 1u32,
        (a >> 1u32) & 1u32 == (b >> 1u32) & 1u32,
        (a >> 2u32) & 1u32 == (b >> 2u32) & 1u32,
        (a >> 3u32) & 1u32 == (b >> 3u32) & 1u32,
        (a >> 4u32) & 1u32 == (b >> 4u32) & 1u32,
        (a >> 5u32) & 1u32 == (b >> 5u32) & 1u32,
        (a >> 6u32) & 1u32 == (b >> 6u32) & 1u32,
        (a >> 7u32) & 1u32 == (b >> 7u32) & 1u32,
        (a >> 8u32) & 1u32 == (b >> 8u32) & 1u32,
        (a >> 9u32) & 1u32 == (b >> 9u32) & 1u32,
        (a >> 10u32) & 1u32 == (b >> 10u32) & 1u32,
        (a >> 11u32) & 1u32 == (b >> 11u32) & 1u32,
        (a >> 12u32) & 1u32 == (b >> 12u32) & 1u32,
        (a >> 13u32) & 1u32 == (b >> 13u32) & 1u32,
        (a >> 14u32) & 1u32 == (b >> 14u32) & 1u32,
        (a >> 15u32) & 1u32 == (b >> 15u32) & 1u32,
        (a >> 16u32) & 1u32 == (b >> 16u32) & 1u32,
        (a >> 17u32) & 1u32 == (b >> 17u32) & 1u32,
        (a >> 18u32) & 1u32 == (b >> 18u32) & 1u32,
        (a >> 19u32) & 1u32 == (b >> 19u32) & 1u32,
        (a >> 20u32) & 1u32 == (b >> 20u32) & 1u32,
        (a >> 21u32) & 1u32 == (b >> 21u32) & 1u32,
        (a >> 22u32) & 1u32 == (b >> 22u32) & 1u32,
        (a >> 23u32) & 1u32 == (b >> 23u32) & 1u32,
        (a >> 24u32) & 1u32 == (b >> 24u32) & 1u32,
        (a >> 25u32) & 1u32 == (b >> 25u32) & 1u32,
        (a >> 26u32) & 1u32 == (b >> 26u32) & 1u32,
        (a >> 27u32) & 1u32 == (b >> 27u32) & 1u32,
        (a >> 28u32) & 1u32 == (b >> 28u32) & 1u32,
        (a >> 29u32) & 1u32 == (b >> 29u32) & 1u32,
        (a >> 30u32) & 1u32 == (b >> 30u32) & 1u32,
        (a >> 31u32) & 1u32 == (b >> 31u32) & 1u32,
    ensures
        a == b,
{
}

/// Two masks with the same members are the same mask.
pub proof fn lemma_masks_equal(a: u32, b: u32)
    requires
        forall|i: int| 0 <= i < 32 ==> has_bit(a, i) == has_bit(b, i),
    ensures
        a == b,
{
    assert forall|i: u32| i < 32 implies (a >> i) & 1u32 == (b >> i) & 1u32 by {
        lemma_or_bits(a, 0, i);
        lemma_or_bits(b, 0, i);
        assert(has_bit(a, i as int) == has_bit(b, i as int));
    }
    lemma_equal_by_bits(a, b);
}

/// The members of `m | single_bit(i)` are those of `m`, and `i`.
pub proof fn lemma_has_bit_insert(m: u32, i: int, j: int)
    requires
        0 <= i < 32,
    ensures
        has_bit(m | single_bit(i), j) == (j == i || has_bit(m, j)),
{
    if 0 <= j < 32 {
        lemma_or_single(m, i as u32, j as u32);
    }
}

/// The members of `a | b` are those of `a` and those of `b`.
pub proof fn lemma_has_bit_union(a: u32, b: u32, j: int)
    ensures
        has_bit(a | b, j) == (has_bit(a, j) || has_bit(b, j)),
{
    if 0 <= j < 32 {
        lemma_or_bits(a, b, j as u32);
    }
}

/// The empty mask has no member.
pub proof fn lemma_has_bit_zero(j: int)
    ensures
        !has_bit(0u32, j),
{
    if 0 <= j < 32 {
        lemma_zero_bits(j as u32);
    }
}

/// Whether bit `i` of `mask` is set.
pub fn test_bit(mask: u32, i: usize) -> (b: bool)
    requires
        i < 32,
    ensures
        b == has_bit(mask, i as int),
{
    let shift: u32 = i as u32;
    (mask >> shift) & 1u32 == 1u32
}

/// `mask` with bit `i` added.
pub fn with_bit(mask: u32, i: usize) -> (r: u32)
    requires
        i < 32,
    ensures
        r == mask | single_bit(i as int),
        forall|j: int| has_bit(r, j) == (j == i || has_bit(mask, j)),
{
    let shift: u32 = i as u32;
    let r: u32 = mask | (1u32 << shift);
    proof {
        assert forall|j: int| has_bit(r, j) == (j == i || has_bit(mask, j)) by {
            lemma_has_bit_insert(mask, i as int, j);
        }
    }
    r
}

/// The mask that holds bit `j`, for each `j` below `k`, exactly when
/// `member(j)`.
pub open spec fn mask_of(member: spec_fn(int) -> bool, k: nat) -> u32
    decreases k,
{
    if k == 0 {
        0u32
    } else {
        let rest = mask_of(member, (k - 1) as nat);
        if member(k - 1) {
            rest | single_bit(k - 1)
        } else {
            rest
        }
    }
}

/// The union of the members of `s`.
pub open spec fn union_mask(s: Set<u32>) -> u32 {
    mask_of(|j: int| exists|q: u32| s.contains(q) && has_bit(q, j), 32)
}

/// The members of `mask_of`.
pub proof fn lemma_mask_of_bits(member: spec_fn(int) -> bool, k: nat)
    requires
        k <= 32,
    ensures
        forall|p: int| has_bit(mask_of(member, k), p) == (0 <= p < k && member(p)),
    decreases k,
{
    if k == 0 {
        assert forall|p: int| !has_bit(mask_of(member, k), p) by {
            lemma_has_bit_zero(p);
        }
    } else {
        lemma_mask_of_bits(member, (k - 1) as nat);
        let rest = mask_of(member, (k - 1) as nat);
        assert forall|p: int| has_bit(mask_of(member, k), p) == (0 <= p < k && member(p)) by {
            if member(k - 1) {
                lemma_has_bit_insert(rest, k - 1, p);
            }
        }
    }
}

/// An element is in the union of a set of subsets exactly when one of them
/// holds it.
pub proof fn lemma_union_mask_bits(s: Set<u32>)
    ensures
        forall|j: int| has_bit(union_mask(s), j) == exists|q: u32| s.contains(q) && has_bit(q, j),
{
    let member = |j: int| exists|q: u32| s.contains(q) && has_bit(q, j);
    lemma_mask_of_bits(member, 32);
    assert forall|j: int| has_bit(union_mask(s), j) == exists|q: u32|
        s.contains(q) && has_bit(q, j) by {
        assert(member(j) == exists|q: u32| s.contains(q) && has_bit(q, j));
    }
}

/// The union of no subsets is empty.
pub proof fn lemma_union_mask_empty()
    ensures
        union_mask(Set::<u32>::empty()) == 0u32,
{
    lemma_union_mask_bits(Set::<u32>::empty());
    assert forall|i: int| 0 <= i < 32 implies has_bit(union_mask(Set::<u32>::empty()), i)
        == has_bit(0u32, i) by {
        lemma_has_bit_zero(i);
    }
    lemma_masks_equal(union_mask(Set::<u32>::empty()), 0u32);
}

/// One more subset adds its elements to the union.
pub proof fn lemma_union_mask_insert(s: Set<u32>, x: u32)
    ensures
        union_mask(s.insert(x)) == union_mask(s) | x,
{
    lemma_union_mask_bits(s);
    lemma_union_mask_bits(s.insert(x));
    let a = union_mask(s.insert(x));
    let b = union_mask(s) | x;
    assert forall|i: int| 0 <= i < 32 implies has_bit(a, i) == has_bit(b, i) by {
        lemma_has_bit_union(union_mask(s), x, i);
        if has_bit(a, i) {
            let q = choose|q: u32| s.insert(x).contains(q) && has_bit(q, i);
            if q != x {
                assert(s.contains(q) && has_bit(q, i));
            }
        }
        if has_bit(union_mask(s), i) {
            let q = choose|q: u32| s.contains(q) && has_bit(q, i);
            assert(s.insert(x).contains(q) && has_bit(q, i));
        }
        if has_bit(x, i) {
            assert(s.insert(x).contains(x) && has_bit(x, i));
        }
    }
    lemma_masks_equal(a, b);
}

/// The subset that holds every one of the first `n` elements.
pub fn full(n: usize) -> (mask: u32)
    requires
        n <= 32,
    ensures
        mask == full_mask(n as nat),
{
    if n >= 32 {
        u32::MAX
    } else {
        let shift: u32 = n as u32;
        assert((1u32 << shift) >= 1u32) by (bit_vector)
            requires
                shift < 32,
        ;
        (1u32 << shift) - 1
    }
}

/// The number of subsets grows with the ground set.
pub proof fn lemma_pow2_monotone(a: nat, b: nat)
    requires
        a <= b,
    ensures
        1 <= pow2(a) <= pow2(b),
    decreases b,
{
    if a < b {
        lemma_pow2_monotone(a, (b - 1) as nat);
    } else if a > 0 {
        lemma_pow2_monotone((a - 1) as nat, (a - 1) as nat);
    }
}

/// A ground set of 32 elements has 4294967296 subsets.
pub proof fn lemma_pow2_32()
    ensures
        pow2(32) == 0x1_0000_0000,
{
    reveal_with_fuel(pow2, 33);
}

/// The number of subsets of a ground set of `n` elements.
pub fn subset_count(n: usize) -> (count: u64)
    requires
        n <= 32,
    ensures
        count == pow2(n as nat),
        1 <= count <= 0x1_0000_0000,
{
    let mut count: u64 = 1;
    let mut i: usize = 0;
    proof {
        lemma_pow2_32();
    }
    while i < n
        invariant
            i <= n <= 32,
            count == pow2(i as nat),
            pow2(32) == 0x1_0000_0000,
        decreases n - i,
    {
        proof {
            lemma_pow2_monotone((i + 1) as nat, 32);
        }
        count = count * 2;
        i = i + 1;
    }
    proof {
        lemma_pow2_monotone(n as nat, 32);
    }
    count
}

} // verus!

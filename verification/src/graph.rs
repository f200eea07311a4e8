//! The incidence graph of a family, in the dense form that a canonical
//! labeling procedure takes: one row of 64-bit words per vertex, the bit of
//! vertex 0 being the highest bit of the first word.

use crate::bits::{has_bit, test_bit};
use vstd::prelude::*;

verus! {

/// The number of bits in a word of a row.
pub const WORD_BITS: usize = 64;

/// A graph with a two-cell vertex coloring, ready to be labeled.
pub struct LabelingProblem {
    /// The number of words in a row.
    pub words_per_row: usize,
    /// The number of vertices.
    pub vertices: usize,
    /// The adjacency rows, `words_per_row` words for each vertex in turn.
    pub rows: Vec<u64>,
    /// The vertices in their initial order.
    pub lab: Vec<i32>,
    /// The cells of the coloring: 0 at the last vertex of a cell, 1 elsewhere.
    pub ptn: Vec<i32>,
}

/// What a `LabelingProblem` holds, as plain values.
pub struct ProblemView {
    pub words_per_row: nat,
    pub vertices: nat,
    pub rows: Seq<u64>,
    pub lab: Seq<i32>,
    pub ptn: Seq<i32>,
}

impl View for LabelingProblem {
    type V = ProblemView;

    open spec fn view(&self) -> ProblemView {
        ProblemView {
            words_per_row: self.words_per_row as nat,
            vertices: self.vertices as nat,
            rows: self.rows@,
            lab: self.lab@,
            ptn: self.ptn@,
        }
    }
}

/// The number of words that a row of `vertices` bits takes.
pub open spec fn words_needed(vertices: nat) -> nat {
    (vertices + 63) / 64
}

/// Whether bit `b` of a word, counted from its highest bit, is set.
pub open spec fn word_bit(w: u64, b: int) -> bool {
    0 <= b < 64 && (w >> ((63 - b) as u64)) & 1u64 == 1u64
}

/// Whether the row of vertex `i` holds vertex `j`.
pub open spec fn row_bit(rows: Seq<u64>, m: nat, i: int, j: int) -> bool {
    &&& 0 <= i
    &&& 0 <= j < 64 * m
    &&& i * m + j / 64 < rows.len()
    &&& word_bit(rows[i * m + j / 64], j % 64)
}

/// Whether the incidence graph of `sets` over `n` elements joins the vertices
/// `i` and `j`: an element vertex and the vertex of a set that holds it.
pub open spec fn adjacent(sets: Seq<u32>, n: nat, i: int, j: int) -> bool {
    ||| (0 <= i < n && n <= j < n + sets.len() && has_bit(sets[j - n], i))
    ||| (0 <= j < n && n <= i < n + sets.len() && has_bit(sets[i - n], j))
}

/// The part of `adjacent` that the sets before `k`, and the elements before
/// `e` of set `k`, account for.
pub open spec fn adjacent_partial(sets: Seq<u32>, n: nat, k: int, e: int, i: int, j: int) -> bool {
    ||| (0 <= i < n && n <= j < n + sets.len() && has_bit(sets[j - n], i) && (j - n < k || (j - n
        == k && i < e)))
    ||| (0 <= j < n && n <= i < n + sets.len() && has_bit(sets[i - n], j) && (i - n < k || (i - n
        == k && j < e)))
}

/// Whether a problem of `vertices` vertices can be held: its vertex numbers
/// fit a 32-bit signed integer and its rows fit the address space.
pub open spec fn fits(vertices: nat) -> bool {
    vertices <= i32::MAX && vertices * words_needed(vertices) <= usize::MAX
}

/// Whether `p` is the labeling problem of the family listed by `sets` over
/// `n` elements: the incidence graph, with the elements in one cell of the
/// coloring and the sets in the other.
pub open spec fn is_incidence_problem(p: ProblemView, sets: Seq<u32>, n: nat) -> bool {
    &&& p.vertices == n + sets.len()
    &&& p.words_per_row == words_needed(p.vertices)
    &&& p.rows.len() == p.vertices * p.words_per_row
    &&& forall|i: int, j: int|
        0 <= i < p.vertices && 0 <= j < 64 * p.words_per_row ==> #[trigger] row_bit(
            p.rows,
            p.words_per_row,
            i,
            j,
        ) == adjacent(sets, n, i, j)
    &&& p.lab.len() == p.vertices
    &&& forall|i: int| 0 <= i < p.vertices ==> #[trigger] p.lab[i] == i
    &&& p.ptn.len() == p.vertices
    &&& forall|i: int|
        0 <= i < p.vertices ==> #[trigger] p.ptn[i] == (if i == n - 1 || i == p.vertices - 1 {
            0i32
        } else {
            1i32
        })
}

/// The bits of a word with one more bit, counted from the highest.
proof fn lemma_word_or(w: u64, b: u64, c: u64)
    by (bit_vector)
    requires
        b < 64,
        c < 64,
    ensures
        ((w | (1u64 << ((63 - b) as u64))) >> ((63 - c) as u64)) & 1u64 == (if b == c {
            1u64
        } else {
            (w >> ((63 - c) as u64)) & 1u64
        }),
        (0u64 >> ((63 - c) as u64)) & 1u64 == 0u64,
{
}

/// A word of the rows belongs to one row, at one place in it.
proof fn lemma_cell(m: int, i: int, a: int, i2: int, a2: int)
    by (nonlinear_arith)
    requires
        0 <= a < m,
        0 <= a2 < m,
        0 <= i,
        0 <= i2,
        i * m + a == i2 * m + a2,
    ensures
        i == i2,
        a == a2,
{
    if i < i2 {
        assert(i2 * m >= (i + 1) * m);
    } else if i2 < i {
        assert(i * m >= (i2 + 1) * m);
    }
}

/// The words of a row lie within the rows.
proof fn lemma_cell_bound(m: int, v: int, i: int, a: int)
    by (nonlinear_arith)
    requires
        0 <= a < m,
        0 <= i < v,
    ensures
        0 <= i * m + a < v * m,
{
    assert((i + 1) * m <= v * m);
}

/// Joins vertex `i` to vertex `j` in row `i`.
fn set_edge(rows: &mut Vec<u64>, m: usize, v: usize, i: usize, j: usize)
    requires
        old(rows)@.len() == v * m,
        m == words_needed(v as nat),
        i < v,
        j < v,
    ensures
        final(rows)@.len() == old(rows)@.len(),
        forall|i2: int, j2: int|
            0 <= i2 < v && 0 <= j2 < 64 * m ==> #[trigger] row_bit(final(rows)@, m as nat, i2, j2)
                == (row_bit(old(rows)@, m as nat, i2, j2) || (i2 == i && j2 == j)),
{
    let word: usize = j / WORD_BITS;
    let b: usize = j % WORD_BITS;
    let len: usize = rows.len();
    proof {
        assert(len == v * m);
        assert(word < m);
        lemma_cell_bound(m as int, v as int, i as int, word as int);
        lemma_cell_bound(m as int, v as int, i as int, 0);
        assert(0 <= i * m <= i * m + word < v * m);
    }
    let idx: usize = i * m + word;
    let old_word: u64 = rows[idx];
    let shift: u64 = (63 - b) as u64;
    let new_word: u64 = old_word | (1u64 << shift);
    rows.set(idx, new_word);
    proof {
        assert forall|i2: int, j2: int| 0 <= i2 < v && 0 <= j2 < 64 * m implies #[trigger] row_bit(
            rows@,
            m as nat,
            i2,
            j2,
        ) == (row_bit(old(rows)@, m as nat, i2, j2) || (i2 == i && j2 == j)) by {
            lemma_cell_bound(m as int, v as int, i2, j2 / 64);
            let idx2 = i2 * m + j2 / 64;
            if idx2 == idx {
                lemma_cell(m as int, i as int, word as int, i2, j2 / 64);
                lemma_word_or(old_word, b as u64, (j2 % 64) as u64);
            } else {
                assert(rows@[idx2] == old(rows)@[idx2]);
            }
        }
    }
}

/// The rows of the incidence graph of `sets` over `n` elements, with the
/// number of words in a row; `None` where the graph cannot be held.
pub fn build_dense_bipartite(sets: &Vec<u32>, n: usize) -> (r: Option<(Vec<u64>, usize)>)
    requires
        n <= 32,
    ensures
        r is Some == fits((n + sets@.len()) as nat),
        r matches Some((rows, m)) ==> {
            &&& m == words_needed((n + sets@.len()) as nat)
            &&& rows@.len() == (n + sets@.len()) * m
            &&& forall|i: int, j: int|
                0 <= i < n + sets@.len() && 0 <= j < 64 * m ==> #[trigger] row_bit(
                    rows@,
                    m as nat,
                    i,
                    j,
                ) == adjacent(sets@, n as nat, i, j)
        },
{
    if sets.len() > 0x7fff_ffff - n {
        return None;
    }
    let v: usize = n + sets.len();
    let m: usize = (v + 63) / WORD_BITS;
    let total: usize = match v.checked_mul(m) {
        Some(t) => t,
        None => {
            return None;
        },
    };
    let mut rows: Vec<u64> = Vec::new();
    let mut filled: usize = 0;
    while filled < total
        invariant
            filled <= total,
            rows@.len() == filled,
            forall|x: int| 0 <= x < filled ==> rows@[x] == 0u64,
        decreases total - filled,
    {
        rows.push(0u64);
        filled = filled + 1;
    }
    proof {
        assert forall|i: int, j: int| 0 <= i < v && 0 <= j < 64 * m implies #[trigger] row_bit(
            rows@,
            m as nat,
            i,
            j,
        ) == adjacent_partial(sets@, n as nat, 0, 0, i, j) by {
            lemma_cell_bound(m as int, v as int, i, j / 64);
            lemma_word_or(0u64, 0u64, (j % 64) as u64);
        }
    }
    let mut k: usize = 0;
    while k < sets.len()
        invariant
            n <= 32,
            k <= sets.len(),
            v == n + sets.len(),
            m == words_needed(v as nat),
            rows@.len() == v * m,
            forall|i: int, j: int|
                0 <= i < v && 0 <= j < 64 * m ==> #[trigger] row_bit(rows@, m as nat, i, j)
                    == adjacent_partial(sets@, n as nat, k as int, 0, i, j),
        decreases sets.len() - k,
    {
        let mask: u32 = sets[k];
        let set_vertex: usize = n + k;
        let mut e: usize = 0;
        while e < n
            invariant
                n <= 32,
                e <= n,
                k < sets.len(),
                mask == sets@[k as int],
                set_vertex == n + k,
                v == n + sets.len(),
                m == words_needed(v as nat),
                rows@.len() == v * m,
                forall|i: int, j: int|
                    0 <= i < v && 0 <= j < 64 * m ==> #[trigger] row_bit(rows@, m as nat, i, j)
                        == adjacent_partial(sets@, n as nat, k as int, e as int, i, j),
            decreases n - e,
        {
            if test_bit(mask, e) {
                set_edge(&mut rows, m, v, e, set_vertex);
                set_edge(&mut rows, m, v, set_vertex, e);
            }
            e = e + 1;
        }
        k = k + 1;
    }
    proof {
        assert forall|i: int, j: int| 0 <= i < v && 0 <= j < 64 * m implies #[trigger] row_bit(
            rows@,
            m as nat,
            i,
            j,
        ) == adjacent(sets@, n as nat, i, j) by {
            assert(row_bit(rows@, m as nat, i, j) == adjacent_partial(
                sets@,
                n as nat,
                k as int,
                0,
                i,
                j,
            ));
        }
    }
    Some((rows, m))
}

/// The labeling problem of the family listed by `sets` over `n` elements;
/// `None` where it cannot be held.
pub fn incidence_problem(sets: &Vec<u32>, n: usize) -> (r: Option<LabelingProblem>)
    requires
        n <= 32,
    ensures
        r is Some == fits((n + sets@.len()) as nat),
        r matches Some(p) ==> is_incidence_problem(p@, sets@, n as nat),
{
    let (rows, m) = match build_dense_bipartite(sets, n) {
        Some(pair) => pair,
        None => {
            return None;
        },
    };
    let v: usize = n + sets.len();
    let mut lab: Vec<i32> = Vec::new();
    let mut ptn: Vec<i32> = Vec::new();
    let mut i: usize = 0;
    while i < v
        invariant
            i <= v,
            v <= i32::MAX,
            lab@.len() == i,
            ptn@.len() == i,
            forall|x: int| 0 <= x < i ==> #[trigger] lab@[x] == x,
            forall|x: int|
                0 <= x < i ==> #[trigger] ptn@[x] == (if x == n - 1 || x == v - 1 {
                    0i32
                } else {
                    1i32
                }),
        decreases v - i,
    {
        lab.push(i as i32);
        if i + 1 == n || i + 1 == v {
            ptn.push(0i32);
        } else {
            ptn.push(1i32);
        }
        i = i + 1;
    }
    Some(LabelingProblem { words_per_row: m, vertices: v, rows, lab, ptn })
}

} // verus!

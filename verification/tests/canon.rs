use semiframes::canon::{
    canon_permutation, canonical_delete, canonicalize, canonicalize_once, parse_family_str,
    CanonCache, CanonError, Family,
};
use semiframes::graph::{build_dense_bipartite, incidence_problem, LabelingProblem};
use semiframes::relabel::{apply_labeling, is_permutation_prefix, relabel};

/// The subsets that the set vertices of a problem stand for, and the number
/// of element vertices.
fn decode(problem: &LabelingProblem) -> (Vec<u32>, usize) {
    let v = problem.vertices;
    let m = problem.words_per_row;
    let mut n = 0;
    while n < v && problem.ptn[n] != 0 {
        n += 1;
    }
    let n = n + 1;
    let mut sets = Vec::new();
    for j in n..v {
        let mut mask = 0u32;
        for i in 0..n {
            let word = problem.rows[j * m + i / 64];
            if (word >> (63 - i % 64)) & 1 == 1 {
                mask |= 1 << i;
            }
        }
        sets.push(mask);
    }
    (sets, n)
}

fn permutations(n: usize) -> Vec<Vec<usize>> {
    if n == 0 {
        return vec![vec![]];
    }
    let mut all = Vec::new();
    for shorter in permutations(n - 1) {
        for at in 0..n {
            let mut longer = shorter.clone();
            longer.insert(at, n - 1);
            all.push(longer);
        }
    }
    all
}

/// A canonical labeling by trial of every permutation of the elements: the
/// one whose relabeled family comes first.
fn brute_labeler(problem: &LabelingProblem) -> Vec<usize> {
    let (sets, n) = decode(problem);
    let mut best: Option<(Vec<u32>, Vec<usize>)> = None;
    for perm in permutations(n) {
        let mut image: Vec<u32> = sets.iter().map(|&s| relabel(s, n, &perm)).collect();
        image.sort();
        let better = match &best {
            None => true,
            Some((held, _)) => image < *held,
        };
        if better {
            best = Some((image, perm));
        }
    }
    let mut lab = best.unwrap().1;
    for j in n..problem.vertices {
        lab.push(j);
    }
    lab
}

/// A labeling that leaves every vertex where it is.
fn identity_labeler(problem: &LabelingProblem) -> Vec<usize> {
    (0..problem.vertices).collect()
}

/// A labeling that names the first element twice.
fn broken_labeler(problem: &LabelingProblem) -> Vec<usize> {
    vec![0; problem.vertices]
}

fn family(masks: &[u32]) -> Family {
    masks.iter().cloned().collect()
}

#[test]
fn the_incidence_graph_joins_elements_and_their_sets() {
    let sets = vec![0b01u32, 0b11];
    let (rows, m) = build_dense_bipartite(&sets, 2).unwrap();
    assert_eq!(m, 1);
    let top = 1u64 << 63;
    assert_eq!(
        rows,
        vec![(top >> 2) | (top >> 3), top >> 3, top, top | (top >> 1)]
    );
}

#[test]
fn the_rows_of_a_large_graph_take_several_words() {
    let sets: Vec<u32> = (1..=70).collect();
    let (rows, m) = build_dense_bipartite(&sets, 1).unwrap();
    assert_eq!(m, 2);
    assert_eq!(rows.len(), 71 * 2);
    let top = 1u64 << 63;
    assert_eq!(rows[2 * 69] & top, top);
    assert_eq!(rows[2 * 70] & top, 0);
    assert_eq!(rows[1] & (top >> 5), top >> 5);
    assert_eq!(rows[1] & (top >> 6), 0);
}

#[test]
fn the_coloring_has_the_elements_in_one_cell_and_the_sets_in_the_other() {
    let sets = vec![0b001u32, 0b011, 0b111];
    let problem = incidence_problem(&sets, 3).unwrap();
    assert_eq!(problem.vertices, 6);
    assert_eq!(problem.words_per_row, 1);
    assert_eq!(problem.lab, vec![0, 1, 2, 3, 4, 5]);
    assert_eq!(problem.ptn, vec![1, 1, 0, 1, 1, 0]);
}

#[test]
fn the_labeler_gets_the_problem_of_the_family() {
    let sets = vec![0b01u32, 0b10];
    let lab = canon_permutation(&sets, 2, &|p: &LabelingProblem| {
        assert_eq!(decode(p), (vec![0b01, 0b10], 2));
        vec![1, 0, 2, 3]
    });
    assert_eq!(lab, Ok(vec![1, 0, 2, 3]));
}

#[test]
fn a_labeling_moves_each_element_to_its_place() {
    assert_eq!(relabel(0b001, 3, &vec![2, 0, 1]), 0b010);
    assert_eq!(relabel(0b110, 3, &vec![2, 0, 1]), 0b101);
    assert_eq!(relabel(0b1101, 3, &vec![0, 1, 2]), 0b101);
    let image = apply_labeling(&vec![0b001, 0b011], 3, &vec![2, 0, 1, 3, 4]).unwrap();
    assert_eq!(image, family(&[0b010, 0b110]));
}

#[test]
fn a_labeling_that_is_no_permutation_is_refused() {
    assert!(is_permutation_prefix(&vec![2, 0, 1, 7, 9], 3));
    assert!(!is_permutation_prefix(&vec![0, 0, 1], 3));
    assert!(!is_permutation_prefix(&vec![0, 1, 3], 3));
    assert!(!is_permutation_prefix(&vec![0, 1], 3));
    assert!(is_permutation_prefix(&vec![], 0));
    assert_eq!(
        apply_labeling(&vec![0b001], 3, &vec![0, 0, 1, 3]),
        Err(CanonError::InvalidLabeling)
    );
    assert_eq!(
        canonicalize_once(&family(&[0b01]), 2, &broken_labeler),
        Err(CanonError::InvalidLabeling)
    );
}

#[test]
fn the_empty_family_is_canonical_without_a_labeling() {
    assert_eq!(canonicalize_once(&family(&[]), 3, &broken_labeler), Ok(family(&[])));
}

#[test]
fn a_family_over_no_element_has_the_empty_set_alone() {
    assert_eq!(canonicalize_once(&family(&[0b101, 0b1]), 0, &identity_labeler), Ok(family(&[0])));
}

#[test]
fn relabelings_of_a_family_have_one_canonical_form() {
    let a = canonicalize_once(&family(&[0b001, 0b011]), 3, &brute_labeler).unwrap();
    let b = canonicalize_once(&family(&[0b100, 0b101]), 3, &brute_labeler).unwrap();
    let c = canonicalize_once(&family(&[0b010, 0b110]), 3, &brute_labeler).unwrap();
    assert_eq!(a, b);
    assert_eq!(b, c);
    assert_eq!(a, family(&[0b001, 0b011]));
}

#[test]
fn a_canonical_form_is_its_own_canonical_form() {
    let families = [
        family(&[0b100, 0b101]),
        family(&[0b010, 0b110, 0b111]),
        family(&[0b001, 0b010, 0b100]),
        family(&[0b110]),
    ];
    for f in families.iter() {
        let once = canonicalize_once(f, 3, &brute_labeler).unwrap();
        let twice = canonicalize_once(&once, 3, &brute_labeler).unwrap();
        assert_eq!(once, twice);
    }
}

#[test]
fn a_symmetric_family_is_a_fixed_point() {
    let f = parse_family_str("{{1,2},{1,3},{2,3},{1,2,3}}", 3).unwrap();
    assert_eq!(canonicalize_once(&f, 3, &brute_labeler), Ok(f));
}

#[test]
fn the_memory_answers_for_a_family_that_it_holds() {
    let mut cache = CanonCache::new();
    let f = family(&[0b100, 0b101]);
    let first = canonicalize(&f, 3, &brute_labeler, &mut cache, 10).unwrap();
    assert_eq!(cache.len(), 1);
    let second = canonicalize(&f, 3, &broken_labeler, &mut cache, 10).unwrap();
    assert_eq!(first, second);
    assert_eq!(cache.len(), 1);
    assert_eq!(cache.lookup(&vec![0b100, 0b101]), Some(vec![0b001, 0b011]));
    assert_eq!(cache.lookup(&vec![0b100]), None);
}

#[test]
fn a_memory_of_size_zero_holds_nothing() {
    let mut cache = CanonCache::new();
    let f = family(&[0b100, 0b101]);
    canonicalize(&f, 3, &brute_labeler, &mut cache, 0).unwrap();
    assert_eq!(cache.len(), 0);
    assert_eq!(
        canonicalize(&f, 3, &broken_labeler, &mut cache, 0),
        Err(CanonError::InvalidLabeling)
    );
}

#[test]
fn a_full_memory_is_cleared_before_the_next_pair() {
    let mut cache = CanonCache::new();
    canonicalize(&family(&[0b001]), 3, &brute_labeler, &mut cache, 2).unwrap();
    canonicalize(&family(&[0b011]), 3, &brute_labeler, &mut cache, 2).unwrap();
    assert_eq!(cache.len(), 2);
    canonicalize(&family(&[0b111]), 3, &brute_labeler, &mut cache, 2).unwrap();
    assert_eq!(cache.len(), 1);
    assert_eq!(cache.lookup(&vec![0b001]), None);
    assert_eq!(cache.lookup(&vec![0b111]), Some(vec![0b111]));
}

#[test]
fn a_failed_canonical_form_is_not_remembered() {
    let mut cache = CanonCache::new();
    let r = canonicalize(&family(&[0b001]), 3, &broken_labeler, &mut cache, 5);
    assert_eq!(r, Err(CanonError::InvalidLabeling));
    assert_eq!(cache.len(), 0);
}

#[test]
fn the_canonical_parent_lacks_the_largest_member() {
    let mut cache = CanonCache::new();
    let f = family(&[0b010, 0b110, 0b111]);
    let parent = canonical_delete(&f, 3, &identity_labeler, &mut cache, 0).unwrap();
    assert_eq!(parent, family(&[0b010, 0b110]));
    let parent = canonical_delete(&f, 3, &brute_labeler, &mut cache, 0).unwrap();
    assert_eq!(parent, family(&[0b001, 0b011]));
}

#[test]
fn the_canonical_parent_of_a_small_family_is_empty() {
    let mut cache = CanonCache::new();
    assert_eq!(
        canonical_delete(&family(&[]), 3, &broken_labeler, &mut cache, 0),
        Ok(family(&[]))
    );
    assert_eq!(
        canonical_delete(&family(&[0b101]), 3, &broken_labeler, &mut cache, 0),
        Ok(family(&[]))
    );
}

#[test]
fn errors_of_the_canonical_form_say_what_failed() {
    assert!(CanonError::InvalidLabeling.message().starts_with("Invalid element permutation"));
    assert_eq!(CanonError::GraphTooLarge.message(), "The incidence graph is too large");
}

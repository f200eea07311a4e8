use semiframes::canon::{
    canonical_delete, canonicalize, canonicalize_once, parse_family_str, CanonCache, CanonError,
    Family,
};
use semiframes::graph::LabelingProblem;
use semiframes::model_checker::{Atom, Formula, OpenExpr};
use semiframes::search::{
    extend, gen_fam, gen_fam_with_formula, gen_fam_with_formula_console, has_all_distinguished,
    is_distinguished, Config,
};
use std::collections::BTreeSet;

/// The subsets that the set vertices of a problem stand for, and the number
/// of element vertices.
fn decode(problem: &LabelingProblem) -> (Vec<u32>, usize) {
    let v = problem.vertices;
    let m = problem.words_per_row;
    let mut n = 0;
    while n < v && problem.ptn[n] != 0 {
        n += 1;
    }
    let n = n + 1;
    let mut sets = Vec::new();
    for j in n..v {
        let mut mask = 0u32;
        for i in 0..n {
            let word = problem.rows[j * m + i / 64];
            if (word >> (63 - i % 64)) & 1 == 1 {
                mask |= 1 << i;
            }
        }
        sets.push(mask);
    }
    (sets, n)
}

fn relabel(mask: u32, perm: &[usize]) -> u32 {
    let mut out = 0u32;
    for (p, &from) in perm.iter().enumerate() {
        if (mask >> from) & 1 == 1 {
            out |= 1 << p;
        }
    }
    out
}

fn permutations(n: usize) -> Vec<Vec<usize>> {
    if n == 0 {
        return vec![vec![]];
    }
    let mut all = Vec::new();
    for shorter in permutations(n - 1) {
        for at in 0..n {
            let mut longer = shorter.clone();
            longer.insert(at, n - 1);
            all.push(longer);
        }
    }
    all
}

/// A canonical labeling by trial of every permutation of the elements: the
/// one whose relabeled family comes first.
fn brute_labeler(problem: &LabelingProblem) -> Vec<usize> {
    let (sets, n) = decode(problem);
    let mut best: Option<(Vec<u32>, Vec<usize>)> = None;
    for perm in permutations(n) {
        let mut image: Vec<u32> = sets.iter().map(|&s| relabel(s, &perm)).collect();
        image.sort();
        let better = match &best {
            None => true,
            Some((held, _)) => image < *held,
        };
        if better {
            best = Some((image, perm));
        }
    }
    let mut lab = best.unwrap().1;
    for j in n..problem.vertices {
        lab.push(j);
    }
    lab
}

fn family(masks: &[u32]) -> Family {
    masks.iter().cloned().collect()
}

fn config(limit: usize, batch_size: usize, semiframes: bool) -> Config {
    Config {
        sizes: vec![],
        cache_size: 100,
        limit,
        output_pattern: String::from("out_{n}.txt"),
        search_semiframes: semiframes,
        starting_family: None,
        batch_size,
        log_interval: 10,
        num_threads: 1,
    }
}

fn is_union_closed(f: &Family) -> bool {
    f.iter().all(|&x| f.iter().all(|&y| f.contains(&(x | y))))
}

#[test]
fn search_of_one_point_yields_one_semitopology() {
    let report = gen_fam(&config(0, 10, false), 1, &brute_labeler).unwrap();
    assert_eq!(report.found, vec![family(&[0, 1])]);
}

#[test]
fn search_of_no_point_yields_nothing() {
    let report = gen_fam(&config(0, 10, false), 0, &brute_labeler).unwrap();
    assert!(report.found.is_empty());
    assert_eq!(report.explored, 0);
}

fn start_from(start: Family, limit: usize, batch_size: usize, semiframes: bool) -> Config {
    let mut c = config(limit, batch_size, semiframes);
    c.starting_family = Some(start);
    c
}

fn nonempty_open() -> Formula {
    Formula::ExistsOpens(
        "X".to_string(),
        Box::new(Formula::Atom(Atom::OpenNonempty(OpenExpr::Var("X".to_string())))),
    )
}

#[test]
fn search_of_two_points_yields_the_start_alone() {
    let report = gen_fam(&config(0, 10, false), 2, &brute_labeler).unwrap();
    assert_eq!(report.found, vec![family(&[0, 0b11])]);
    assert_eq!(report.explored, 0);
}

#[test]
fn search_of_three_points_yields_the_start_alone() {
    let report = gen_fam(&config(0, 10, false), 3, &brute_labeler).unwrap();
    assert_eq!(report.found, vec![family(&[0, 0b111])]);
}

#[test]
fn semiframe_search_of_one_point_yields_the_one_semitopology() {
    let report = gen_fam(&config(0, 10, true), 1, &brute_labeler).unwrap();
    assert_eq!(report.found, vec![family(&[0, 1])]);
}

#[test]
fn semiframe_search_of_two_points_rejects_the_start() {
    let report = gen_fam(&config(0, 10, true), 2, &brute_labeler).unwrap();
    assert!(report.found.is_empty());
}

#[test]
fn the_empty_family_has_a_child_for_each_size_of_subset() {
    let mut cache = CanonCache::new();
    let kids = extend(&family(&[]), 2, &brute_labeler, &mut cache, 10).unwrap();
    assert_eq!(kids, vec![family(&[0b01]), family(&[0b11])]);
    let kids = extend(&family(&[]), 3, &brute_labeler, &mut cache, 0).unwrap();
    assert_eq!(kids, vec![family(&[0b001]), family(&[0b011]), family(&[0b111])]);
}

#[test]
fn a_family_with_the_full_set_has_no_child() {
    let mut cache = CanonCache::new();
    assert_eq!(extend(&family(&[0b11]), 2, &brute_labeler, &mut cache, 10), Ok(vec![]));
    assert_eq!(extend(&family(&[0b01, 0b11]), 2, &brute_labeler, &mut cache, 10), Ok(vec![]));
}

#[test]
fn a_child_is_closed_under_union_and_has_the_family_as_parent() {
    let mut cache = CanonCache::new();
    let parent = family(&[]);
    for child in extend(&parent, 3, &brute_labeler, &mut cache, 10).unwrap() {
        assert!(is_union_closed(&child));
        assert_eq!(canonical_delete(&child, 3, &brute_labeler, &mut cache, 10), Ok(parent.clone()));
        assert_eq!(canonicalize(&child, 3, &brute_labeler, &mut cache, 10), Ok(child));
    }
}

#[test]
fn a_subset_is_added_only_where_the_family_stays_closed() {
    let mut cache = CanonCache::new();
    let kids = extend(&family(&[0b01]), 2, &|p: &LabelingProblem| {
        (0..p.vertices).collect::<Vec<usize>>()
    }, &mut cache, 0);
    assert_eq!(kids, Ok(vec![]));
}

#[test]
fn a_labeling_that_is_no_permutation_stops_the_search() {
    let broken = |p: &LabelingProblem| vec![0usize; p.vertices];
    let mut cache = CanonCache::new();
    assert_eq!(
        extend(&family(&[]), 2, &broken, &mut cache, 0),
        Err(CanonError::InvalidLabeling)
    );
    let c = start_from(family(&[]), 0, 10, false);
    assert_eq!(gen_fam(&c, 2, &broken).unwrap_err(), CanonError::InvalidLabeling);
}

#[test]
fn a_search_from_a_given_family_finds_it_and_its_descendants() {
    let c = start_from(family(&[]), 0, 10, false);
    let report = gen_fam(&c, 2, &brute_labeler).unwrap();
    assert_eq!(report.found, vec![family(&[0]), family(&[0, 0b01]), family(&[0, 0b11])]);
    assert_eq!(report.explored, 2);
    for f in report.found.iter() {
        assert!(is_union_closed(f));
        assert!(f.contains(&0));
    }
}

#[test]
fn the_results_do_not_depend_on_the_batch_size() {
    let wide = gen_fam(&start_from(family(&[]), 0, 100, false), 3, &brute_labeler).unwrap();
    for batch_size in 0..5 {
        let c = start_from(family(&[]), 0, batch_size, false);
        let report = gen_fam(&c, 3, &brute_labeler).unwrap();
        assert_eq!(report.found, wide.found);
        assert_eq!(report.explored, 3);
    }
    assert_eq!(wide.found.len(), 4);
}

#[test]
fn no_family_is_found_twice() {
    let report = gen_fam(&start_from(family(&[]), 0, 2, false), 3, &brute_labeler).unwrap();
    let distinct: BTreeSet<Family> = report.found.iter().cloned().collect();
    assert_eq!(distinct.len(), report.found.len());
    let forms: BTreeSet<Family> = report
        .found
        .iter()
        .map(|f| canonicalize_once(f, 3, &brute_labeler).unwrap())
        .collect();
    assert_eq!(forms.len(), report.found.len());
}

#[test]
fn the_limit_caps_the_results() {
    let c = start_from(family(&[]), 1, 10, false);
    let report = gen_fam(&c, 2, &brute_labeler).unwrap();
    assert_eq!(report.found, vec![family(&[0])]);
    assert_eq!(report.explored, 2);
    let c = start_from(family(&[]), 2, 10, false);
    let report = gen_fam(&c, 2, &brute_labeler).unwrap();
    assert_eq!(report.found, vec![family(&[0]), family(&[0, 0b01])]);
}

#[test]
fn a_small_batch_stops_the_search_at_the_limit() {
    let c = start_from(family(&[]), 1, 1, false);
    let report = gen_fam(&c, 2, &brute_labeler).unwrap();
    assert_eq!(report.found, vec![family(&[0])]);
    assert_eq!(report.explored, 1);
}

#[test]
fn semiframes_have_every_point_distinguished() {
    let c = start_from(family(&[]), 0, 10, true);
    let report = gen_fam(&c, 2, &brute_labeler).unwrap();
    assert_eq!(report.found, vec![family(&[0, 0b01])]);
}

#[test]
fn a_point_is_distinguished_where_a_member_separates_it_from_each_other() {
    let f = family(&[0b001, 0b011]);
    assert!(is_distinguished(&f, 1, 3));
    assert!(is_distinguished(&f, 2, 3));
    assert!(is_distinguished(&f, 3, 3));
    assert!(has_all_distinguished(&f, 3));
    let g = family(&[0b011, 0b111]);
    assert!(!is_distinguished(&g, 1, 3));
    assert!(!is_distinguished(&g, 2, 3));
    assert!(is_distinguished(&g, 3, 3));
    assert!(!has_all_distinguished(&g, 3));
    assert!(has_all_distinguished(&g, 1));
    assert!(has_all_distinguished(&family(&[]), 1));
    assert!(has_all_distinguished(&family(&[]), 0));
    assert!(!has_all_distinguished(&family(&[]), 2));
}

#[test]
fn the_empty_set_does_not_distinguish() {
    assert!(!has_all_distinguished(&family(&[0]), 2));
    assert!(!has_all_distinguished(&family(&[0, 0b11]), 2));
    assert!(has_all_distinguished(&family(&[0, 0b01]), 2));
}

#[test]
fn a_formula_filters_the_results() {
    let c = start_from(family(&[]), 0, 10, false);
    let report = gen_fam_with_formula(&c, 2, &nonempty_open(), &brute_labeler).unwrap();
    assert_eq!(report.found, vec![family(&[0, 0b01]), family(&[0, 0b11])]);
    assert_eq!(report.explored, 2);
}

#[test]
fn a_formula_is_checked_after_the_distinguished_points() {
    let c = start_from(family(&[]), 0, 10, true);
    let report = gen_fam_with_formula(&c, 2, &nonempty_open(), &brute_labeler).unwrap();
    assert_eq!(report.found, vec![family(&[0, 0b01])]);
}

#[test]
fn a_limit_of_one_yields_the_first_result_of_the_unlimited_search() {
    let unlimited = gen_fam_with_formula(
        &start_from(family(&[]), 0, 10, false),
        2,
        &nonempty_open(),
        &brute_labeler,
    )
    .unwrap();
    let limited = gen_fam_with_formula(
        &start_from(family(&[]), 1, 10, false),
        2,
        &nonempty_open(),
        &brute_labeler,
    )
    .unwrap();
    assert_eq!(limited.found, vec![unlimited.found[0].clone()]);
    let streamed = gen_fam_with_formula_console(
        &start_from(family(&[]), 1, 10, false),
        2,
        &nonempty_open(),
        &brute_labeler,
    )
    .unwrap();
    assert_eq!(streamed.found, limited.found);
}

#[test]
fn a_streamed_search_stops_at_once_at_the_limit() {
    let always = Formula::Not(Box::new(Formula::Atom(Atom::OpenNonempty(OpenExpr::Var(
        "unbound".to_string(),
    )))));
    let c = start_from(family(&[]), 1, 10, false);
    let report = gen_fam_with_formula_console(&c, 2, &always, &brute_labeler).unwrap();
    assert_eq!(report.found, vec![family(&[0])]);
    assert_eq!(report.explored, 0);
    let c = start_from(family(&[]), 0, 10, false);
    let report = gen_fam_with_formula_console(&c, 2, &always, &brute_labeler).unwrap();
    assert_eq!(report.found, vec![family(&[0]), family(&[0, 0b01]), family(&[0, 0b11])]);
    assert_eq!(report.explored, 2);
}

#[test]
fn a_streamed_search_of_no_point_yields_nothing() {
    let c = config(0, 10, false);
    let report = gen_fam_with_formula_console(&c, 0, &nonempty_open(), &brute_labeler).unwrap();
    assert!(report.found.is_empty());
    let report = gen_fam_with_formula(&c, 0, &nonempty_open(), &brute_labeler).unwrap();
    assert!(report.found.is_empty());
}

#[test]
fn a_symmetric_start_is_canonical() {
    let start = parse_family_str("{{1,2},{1,3},{2,3},{1,2,3}}", 3).unwrap();
    assert_eq!(canonicalize_once(&start, 3, &brute_labeler), Ok(start));
}

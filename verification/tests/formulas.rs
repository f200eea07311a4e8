use semiframes::canon::Family;
use semiframes::model_checker::{
    Assignment, Atom, Formula, ModelCheckResult, ModelChecker, OpenExpr, Witness,
};

fn family(masks: &[u32]) -> Family {
    masks.iter().cloned().collect()
}

fn var(name: &str) -> OpenExpr {
    OpenExpr::Var(name.to_string())
}

fn is_in(p: &str, o: OpenExpr) -> Formula {
    Formula::Atom(Atom::PointInOpen(p.to_string(), o))
}

fn nonempty(o: OpenExpr) -> Formula {
    Formula::Atom(Atom::OpenNonempty(o))
}

fn not(f: Formula) -> Formula {
    Formula::Not(Box::new(f))
}

fn some_open(v: &str, f: Formula) -> Formula {
    Formula::ExistsOpens(v.to_string(), Box::new(f))
}

fn all_opens(v: &str, f: Formula) -> Formula {
    Formula::ForAllOpens(v.to_string(), Box::new(f))
}

fn some_point(v: &str, f: Formula) -> Formula {
    Formula::ExistsPoints(v.to_string(), Box::new(f))
}

fn all_points(v: &str, f: Formula) -> Formula {
    Formula::ForAllPoints(v.to_string(), Box::new(f))
}

fn witnesses(r: &ModelCheckResult) -> Vec<(String, String)> {
    r.witnesses
        .iter()
        .map(|(name, w)| {
            let shown = match w {
                Witness::Point(p) => format!("point {}", p),
                Witness::Open(o) => format!("open {}", o),
            };
            (name.clone(), shown)
        })
        .collect()
}

fn sierpinski() -> ModelChecker {
    ModelChecker::new(2, family(&[0b00, 0b01, 0b11]))
}

#[test]
fn an_assignment_gives_the_last_binding_of_a_name() {
    let mut a = Assignment::new();
    assert_eq!(a.point_of(&"x".to_string()), None);
    a.assign_point("x".to_string(), 1);
    a.assign_point("y".to_string(), 2);
    a.assign_point("x".to_string(), 3);
    a.assign_open("x".to_string(), 7);
    assert_eq!(a.point_of(&"x".to_string()), Some(3));
    assert_eq!(a.point_of(&"y".to_string()), Some(2));
    assert_eq!(a.open_of(&"x".to_string()), Some(7));
    assert_eq!(a.open_of(&"y".to_string()), None);
    let b = a.clone_with_point("y".to_string(), 9);
    assert_eq!(b.point_of(&"y".to_string()), Some(9));
    assert_eq!(a.point_of(&"y".to_string()), Some(2));
    let c = a.clone_with_open("z".to_string(), 5);
    assert_eq!(c.open_of(&"z".to_string()), Some(5));
    assert_eq!(c.point_of(&"x".to_string()), Some(3));
}

#[test]
fn results_carry_their_witnesses() {
    let r = ModelCheckResult::true_result();
    assert!(r.satisfied && r.witnesses.is_empty());
    let r = ModelCheckResult::false_result();
    assert!(!r.satisfied && r.witnesses.is_empty());
    let r = ModelCheckResult::true_result().with_witness("x".to_string(), Witness::Point(2));
    assert_eq!(witnesses(&r), vec![("x".to_string(), "point 2".to_string())]);
}

#[test]
fn a_point_is_in_an_open_set_that_holds_it() {
    let checker = sierpinski();
    assert!(checker.point_in_open(1, 0b01));
    assert!(!checker.point_in_open(2, 0b01));
    assert!(!checker.point_in_open(0, 0b11));
    assert!(!checker.point_in_open(3, 0b111));
    assert!(checker.opens_intersect(0b01, 0b11));
    assert!(!checker.opens_intersect(0b01, 0b10));
    assert!(checker.open_is_nonempty(0b10));
    assert!(!checker.open_is_nonempty(0));
}

#[test]
fn the_interior_complement_is_the_union_of_the_disjoint_opens() {
    let checker = ModelChecker::new(3, family(&[0, 0b001, 0b010, 0b100, 0b011]));
    assert_eq!(checker.interior_complement(0b001), 0b110);
    assert_eq!(checker.interior_complement(0b011), 0b100);
    assert_eq!(checker.interior_complement(0b111), 0);
    assert_eq!(checker.interior_complement(0), 0b111);
}

#[test]
fn open_expressions_are_evaluated_from_the_inside() {
    let mut checker = ModelChecker::new(3, family(&[0, 0b001, 0b010, 0b100, 0b011]));
    let mut a = Assignment::new();
    a.assign_open("X".to_string(), 0b001);
    a.assign_point("p".to_string(), 3);
    assert_eq!(checker.eval_open_expr(&var("X"), &a), Some(0b001));
    assert_eq!(checker.eval_open_expr(&var("Y"), &a), None);
    assert_eq!(checker.eval_open_expr(&OpenExpr::Community("p".to_string()), &a), Some(0b100));
    assert_eq!(checker.eval_open_expr(&OpenExpr::Community("q".to_string()), &a), None);
    let ic = OpenExpr::InteriorComplement(Box::new(var("X")));
    assert_eq!(checker.eval_open_expr(&ic, &a), Some(0b110));
    let icic = OpenExpr::InteriorComplement(Box::new(ic));
    assert_eq!(checker.eval_open_expr(&icic, &a), Some(0b001));
    let unbound = OpenExpr::InteriorComplement(Box::new(var("Y")));
    assert_eq!(checker.eval_open_expr(&unbound, &a), None);
}

#[test]
fn an_atom_with_an_unbound_variable_does_not_hold() {
    let mut checker = sierpinski();
    assert!(!checker.check(&is_in("x", var("X"))).satisfied);
    assert!(!checker.check(&nonempty(var("X"))).satisfied);
    assert!(checker.check(&not(nonempty(var("X")))).satisfied);
    let equal = Formula::Atom(Atom::PointEqual("x".to_string(), "x".to_string()));
    assert!(!checker.check(&equal).satisfied);
    let differ = Formula::Atom(Atom::OpenNotEqual(var("X"), var("Y")));
    assert!(!checker.check(&differ).satisfied);
}

#[test]
fn atoms_compare_points_and_opens() {
    let mut checker = sierpinski();
    let mut a = Assignment::new();
    a.assign_point("x".to_string(), 1);
    a.assign_point("y".to_string(), 2);
    a.assign_point("z".to_string(), 1);
    a.assign_open("X".to_string(), 0b01);
    a.assign_open("Y".to_string(), 0b11);
    let atom = |x: Atom| Formula::Atom(x);
    let name = |s: &str| s.to_string();
    assert!(checker.eval_formula(&atom(Atom::PointEqual(name("x"), name("z"))), &a).satisfied);
    assert!(!checker.eval_formula(&atom(Atom::PointEqual(name("x"), name("y"))), &a).satisfied);
    assert!(checker.eval_formula(&atom(Atom::PointNotEqual(name("x"), name("y"))), &a).satisfied);
    assert!(!checker.eval_formula(&atom(Atom::PointNotEqual(name("x"), name("z"))), &a).satisfied);
    assert!(checker.eval_formula(&atom(Atom::OpenEqual(var("X"), var("X"))), &a).satisfied);
    assert!(!checker.eval_formula(&atom(Atom::OpenEqual(var("X"), var("Y"))), &a).satisfied);
    assert!(checker.eval_formula(&atom(Atom::OpenNotEqual(var("X"), var("Y"))), &a).satisfied);
    assert!(checker.eval_formula(&atom(Atom::OpenIntersection(var("X"), var("Y"))), &a).satisfied);
    assert!(checker.eval_atom(&Atom::PointInOpen(name("x"), var("X")), &a));
    assert!(!checker.eval_atom(&Atom::PointInOpen(name("y"), var("X")), &a));
}

#[test]
fn an_existential_formula_has_its_first_witness() {
    let mut checker = sierpinski();
    let r = checker.check(&some_open("X", nonempty(var("X"))));
    assert!(r.satisfied);
    assert_eq!(witnesses(&r), vec![("X".to_string(), "open 1".to_string())]);
    let r = checker.check(&some_point("x", is_in("x", OpenExpr::Community("x".to_string()))));
    assert!(r.satisfied);
    assert_eq!(witnesses(&r), vec![("x".to_string(), "point 1".to_string())]);
}

#[test]
fn nested_existentials_give_the_inner_witness_first() {
    let mut checker = sierpinski();
    let f = some_open("X", some_point("x", not(is_in("x", var("X")))));
    let r = checker.check(&f);
    assert!(r.satisfied);
    assert_eq!(
        witnesses(&r),
        vec![
            ("x".to_string(), "point 1".to_string()),
            ("X".to_string(), "open 0".to_string())
        ]
    );
}

#[test]
fn a_universal_formula_holds_when_no_value_fails() {
    let mut checker = sierpinski();
    let every_open_holds_one =
        all_opens("X", Formula::Implies(
            Box::new(nonempty(var("X"))),
            Box::new(some_point("x", is_in("x", var("X")))),
        ));
    let r = checker.check(&every_open_holds_one);
    assert!(r.satisfied);
    assert!(r.witnesses.is_empty());
    let every_point_in_every_open = all_points("x", all_opens("X", is_in("x", var("X"))));
    assert!(!checker.check(&every_point_in_every_open).satisfied);
}

#[test]
fn quantifiers_over_no_point_are_decided_at_once() {
    let mut checker = ModelChecker::new(0, family(&[0]));
    assert!(checker.check(&all_points("x", nonempty(var("X")))).satisfied);
    assert!(!checker.check(&some_point("x", not(nonempty(var("X"))))).satisfied);
    let mut empty = ModelChecker::new(2, family(&[]));
    assert!(empty.check(&all_opens("X", nonempty(var("X")))).satisfied);
    assert!(!empty.check(&some_open("X", not(nonempty(var("X"))))).satisfied);
}

#[test]
fn a_conjunction_has_the_witnesses_of_both_sides() {
    let mut checker = sierpinski();
    let left = some_open("X", nonempty(var("X")));
    let right = some_point("x", is_in("x", OpenExpr::Community("x".to_string())));
    let r = checker.check(&Formula::And(Box::new(left.clone()), Box::new(right.clone())));
    assert!(r.satisfied);
    assert_eq!(
        witnesses(&r),
        vec![
            ("X".to_string(), "open 1".to_string()),
            ("x".to_string(), "point 1".to_string())
        ]
    );
    let failing = some_open("Y", not(Formula::Atom(Atom::OpenEqual(var("Y"), var("Y")))));
    let r = checker.check(&Formula::And(Box::new(left.clone()), Box::new(failing.clone())));
    assert!(!r.satisfied);
    assert!(r.witnesses.is_empty());
    let r = checker.check(&Formula::Or(Box::new(failing.clone()), Box::new(left.clone())));
    assert!(r.satisfied);
    assert_eq!(witnesses(&r), vec![("X".to_string(), "open 1".to_string())]);
    let r = checker.check(&Formula::Or(Box::new(failing.clone()), Box::new(failing.clone())));
    assert!(!r.satisfied);
}

#[test]
fn an_implication_holds_where_its_premise_fails() {
    let mut checker = sierpinski();
    let premise = nonempty(var("unbound"));
    let conclusion = some_open("X", nonempty(var("X")));
    let r = checker.check(&Formula::Implies(Box::new(premise), Box::new(conclusion.clone())));
    assert!(r.satisfied);
    assert!(r.witnesses.is_empty());
    let r = checker.check(&Formula::Implies(
        Box::new(conclusion.clone()),
        Box::new(conclusion.clone()),
    ));
    assert!(r.satisfied);
    assert_eq!(witnesses(&r), vec![("X".to_string(), "open 1".to_string())]);
    let r = checker.check(&Formula::Implies(
        Box::new(conclusion),
        Box::new(nonempty(var("unbound"))),
    ));
    assert!(!r.satisfied);
}

#[test]
fn an_equivalence_holds_where_both_sides_agree() {
    let mut checker = sierpinski();
    let yes = some_open("X", nonempty(var("X")));
    let no = nonempty(var("unbound"));
    let iff = |a: &Formula, b: &Formula| Formula::Iff(Box::new(a.clone()), Box::new(b.clone()));
    assert!(checker.check(&iff(&yes, &yes)).satisfied);
    assert!(checker.check(&iff(&no, &no)).satisfied);
    assert!(!checker.check(&iff(&yes, &no)).satisfied);
    assert!(!checker.check(&iff(&no, &yes)).satisfied);
    assert!(checker.check(&iff(&yes, &yes)).witnesses.is_empty());
}

#[test]
fn a_formula_and_its_copy_are_equal() {
    let f = all_points("x", some_open("X", is_in("x", OpenExpr::InteriorComplement(Box::new(
        OpenExpr::Community("x".to_string()),
    )))));
    assert_eq!(f.clone(), f);
}

use semiframes::ast::{
    AtomicProp, BinaryProp, LogicProp, MacroProp, OpenExpr, PointExpr, Prop, QuantProp, UnaryProp,
};
use semiframes::macro_expander::MacroExpander;
use semiframes::model_checker::OpenExpr as Open;
use semiframes::model_checker::{Atom, Formula};

fn point(name: &str) -> PointExpr {
    PointExpr::PointVar(name.to_string())
}

fn open(name: &str) -> OpenExpr {
    OpenExpr::OpenVar(name.to_string())
}

fn var(name: &str) -> Open {
    Open::Var(name.to_string())
}

fn meet(a: Open, b: Open) -> Formula {
    Formula::Atom(Atom::OpenIntersection(a, b))
}

fn is_in(p: &str, o: Open) -> Formula {
    Formula::Atom(Atom::PointInOpen(p.to_string(), o))
}

fn and(a: Formula, b: Formula) -> Formula {
    Formula::And(Box::new(a), Box::new(b))
}

fn implies(a: Formula, b: Formula) -> Formula {
    Formula::Implies(Box::new(a), Box::new(b))
}

fn all_opens(v: &str, a: Formula) -> Formula {
    Formula::ForAllOpens(v.to_string(), Box::new(a))
}

fn all_points(v: &str, a: Formula) -> Formula {
    Formula::ForAllPoints(v.to_string(), Box::new(a))
}

fn point_inter(p: &str, q: &str, o: &str, big_p: &str) -> Formula {
    all_opens(
        o,
        all_opens(
            big_p,
            implies(and(is_in(p, var(o)), is_in(q, var(big_p))), meet(var(o), var(big_p))),
        ),
    )
}

fn transitive(t: Open, o: &str, p: &str) -> Formula {
    all_opens(
        o,
        all_opens(p, implies(and(meet(var(o), t.clone()), meet(t, var(p))), meet(var(o), var(p)))),
    )
}

#[test]
fn an_atom_stays_as_it_is() {
    let prop = Prop::Logic(LogicProp::Atomic(AtomicProp::PointInOpen(point("x"), open("X"))));
    let formula = MacroExpander::new().expand(prop).unwrap();
    assert_eq!(formula, is_in("x", var("X")));
}

#[test]
fn communities_and_interior_complements_are_kept() {
    let prop = Prop::Logic(LogicProp::Atomic(AtomicProp::Nonempty(OpenExpr::IC(Box::new(
        OpenExpr::K(point("p")),
    )))));
    let formula = MacroExpander::new().expand(prop).unwrap();
    assert_eq!(
        formula,
        Formula::Atom(Atom::OpenNonempty(Open::InteriorComplement(Box::new(Open::Community(
            "p".to_string()
        )))))
    );
}

#[test]
fn equalities_become_atoms() {
    let prop = Prop::Logic(LogicProp::Atomic(AtomicProp::PointNotEqual(point("p"), point("q"))));
    assert_eq!(
        MacroExpander::new().expand(prop).unwrap(),
        Formula::Atom(Atom::PointNotEqual("p".to_string(), "q".to_string()))
    );
    let prop = Prop::Logic(LogicProp::Atomic(AtomicProp::OpenEqual(open("X"), open("Y"))));
    assert_eq!(
        MacroExpander::new().expand(prop).unwrap(),
        Formula::Atom(Atom::OpenEqual(var("X"), var("Y")))
    );
}

#[test]
fn connectives_and_quantifiers_are_kept() {
    let atom = || Prop::Logic(LogicProp::Atomic(AtomicProp::Nonempty(open("X"))));
    let model = || Formula::Atom(Atom::OpenNonempty(var("X")));
    let prop = Prop::Logic(LogicProp::Quant(QuantProp::EO(
        "X".to_string(),
        Box::new(Prop::Logic(LogicProp::Binary(BinaryProp::Iff(
            Box::new(Prop::Logic(LogicProp::Unary(UnaryProp::Not(Box::new(atom()))))),
            Box::new(Prop::Logic(LogicProp::Binary(BinaryProp::Or(
                Box::new(atom()),
                Box::new(atom()),
            )))),
        )))),
    )));
    let expected = Formula::ExistsOpens(
        "X".to_string(),
        Box::new(Formula::Iff(
            Box::new(Formula::Not(Box::new(model()))),
            Box::new(Formula::Or(Box::new(model()), Box::new(model()))),
        )),
    );
    assert_eq!(MacroExpander::new().expand(prop).unwrap(), expected);
}

#[test]
fn point_intersection_quantifies_over_two_fresh_opens() {
    let prop = Prop::Macro(MacroProp::PointInter(point("p"), point("q")));
    let formula = MacroExpander::new().expand(prop).unwrap();
    assert_eq!(formula, point_inter("p", "q", "O_0", "P_1"));
}

#[test]
fn fresh_names_go_on_from_one_macro_to_the_next() {
    let prop = Prop::Macro(MacroProp::TriplePointInter(point("p"), point("q"), point("r")));
    let formula = MacroExpander::new().expand(prop).unwrap();
    assert_eq!(
        formula,
        and(point_inter("p", "q", "O_0", "P_1"), point_inter("q", "r", "O_2", "P_3"))
    );
    let mut expander = MacroExpander::new();
    let first = expander
        .expand(Prop::Macro(MacroProp::Transitive(open("T"))))
        .unwrap();
    let second = expander
        .expand(Prop::Macro(MacroProp::Transitive(open("T"))))
        .unwrap();
    assert_eq!(first, transitive(var("T"), "O_0", "P_1"));
    assert_eq!(second, transitive(var("T"), "O_2", "P_3"));
}

#[test]
fn triple_open_intersection_takes_no_fresh_name() {
    let prop = Prop::Macro(MacroProp::TripleOpenInter(open("O"), open("P"), open("Q")));
    let formula = MacroExpander::new().expand(prop).unwrap();
    assert_eq!(formula, and(meet(var("O"), var("P")), meet(var("P"), var("Q"))));
}

#[test]
fn regular_is_topen_of_the_community() {
    let k = Open::Community("p".to_string());
    let expected =
        and(Formula::Atom(Atom::OpenNonempty(k.clone())), transitive(k, "O_0", "P_1"));
    let formula = MacroExpander::new()
        .expand(Prop::Macro(MacroProp::Regular(point("p"))))
        .unwrap();
    assert_eq!(formula, expected);
    let negated = MacroExpander::new()
        .expand(Prop::Macro(MacroProp::Irregular(point("p"))))
        .unwrap();
    assert_eq!(negated, Formula::Not(Box::new(expected)));
}

#[test]
fn weakly_regular_and_quasiregular_are_atoms() {
    let k = Open::Community("p".to_string());
    assert_eq!(
        MacroExpander::new()
            .expand(Prop::Macro(MacroProp::WeaklyRegular(point("p"))))
            .unwrap(),
        is_in("p", k.clone())
    );
    assert_eq!(
        MacroExpander::new()
            .expand(Prop::Macro(MacroProp::Quasiregular(point("p"))))
            .unwrap(),
        Formula::Atom(Atom::OpenNonempty(k))
    );
}

#[test]
fn indirectly_regular_takes_five_fresh_names() {
    let k = Open::Community("q_0".to_string());
    let expected = Formula::ExistsPoints(
        "q_0".to_string(),
        Box::new(and(
            point_inter("p", "q_0", "O_1", "P_2"),
            and(Formula::Atom(Atom::OpenNonempty(k.clone())), transitive(k, "O_3", "P_4")),
        )),
    );
    let formula = MacroExpander::new()
        .expand(Prop::Macro(MacroProp::IndirectlyRegular(point("p"))))
        .unwrap();
    assert_eq!(formula, expected);
}

#[test]
fn hypertransitive_takes_three_fresh_names() {
    let expected = all_opens(
        "O_0",
        all_opens(
            "Q_1",
            implies(
                all_opens(
                    "P_2",
                    implies(
                        is_in("p", var("P_2")),
                        and(meet(var("O_0"), var("P_2")), meet(var("P_2"), var("Q_1"))),
                    ),
                ),
                meet(var("O_0"), var("Q_1")),
            ),
        ),
    );
    let formula = MacroExpander::new()
        .expand(Prop::Macro(MacroProp::Hypertransitive(point("p"))))
        .unwrap();
    assert_eq!(formula, expected);
}

#[test]
fn unconflicted_takes_eight_fresh_names() {
    let expected = all_points(
        "x_0",
        all_points(
            "y_1",
            implies(
                and(point_inter("x_0", "p", "O_2", "P_3"), point_inter("p", "y_1", "O_4", "P_5")),
                point_inter("x_0", "y_1", "O_6", "P_7"),
            ),
        ),
    );
    let formula = MacroExpander::new()
        .expand(Prop::Macro(MacroProp::Unconflicted(point("p"))))
        .unwrap();
    assert_eq!(formula, expected);
    let negated = MacroExpander::new()
        .expand(Prop::Macro(MacroProp::Conflicted(point("p"))))
        .unwrap();
    assert_eq!(negated, Formula::Not(Box::new(expected)));
}

#[test]
fn a_property_of_the_space_holds_of_every_point() {
    let k = Open::Community("p_0".to_string());
    let regular =
        and(Formula::Atom(Atom::OpenNonempty(k.clone())), transitive(k.clone(), "O_1", "P_2"));
    assert_eq!(
        MacroExpander::new().expand(Prop::Macro(MacroProp::RegularSpace)).unwrap(),
        all_points("p_0", regular.clone())
    );
    assert_eq!(
        MacroExpander::new().expand(Prop::Macro(MacroProp::IrregularSpace)).unwrap(),
        all_points("p_0", Formula::Not(Box::new(regular)))
    );
    assert_eq!(
        MacroExpander::new().expand(Prop::Macro(MacroProp::WeaklyRegularSpace)).unwrap(),
        all_points("p_0", is_in("p_0", k.clone()))
    );
    assert_eq!(
        MacroExpander::new().expand(Prop::Macro(MacroProp::QuasiregularSpace)).unwrap(),
        all_points("p_0", Formula::Atom(Atom::OpenNonempty(k)))
    );
}

#[test]
fn a_fresh_name_has_a_number_of_several_digits() {
    let mut expander = MacroExpander::new();
    for _ in 0..6 {
        expander.expand(Prop::Macro(MacroProp::PointInter(point("p"), point("q")))).unwrap();
    }
    let formula = expander
        .expand(Prop::Macro(MacroProp::PointInter(point("p"), point("q"))))
        .unwrap();
    assert_eq!(formula, point_inter("p", "q", "O_12", "P_13"));
    assert_eq!(expander.fresh_var("x"), Some("x_14".to_string()));
}

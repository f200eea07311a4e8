use semiframes::ast::{
    AtomicProp, BinaryProp, LogicProp, MacroProp, OpenExpr, PointExpr, Prop, QuantProp, UnaryProp,
};
use semiframes::parser::{parse, parse_tokens, SyntaxError};
use semiframes::tokens::{tokenize, Token};

fn prop(text: &str) -> Result<Prop, usize> {
    parse_tokens(&tokenize(text).unwrap())
}

fn point(name: &str) -> PointExpr {
    PointExpr::PointVar(name.to_string())
}

fn open(name: &str) -> OpenExpr {
    OpenExpr::OpenVar(name.to_string())
}

fn nonempty(name: &str) -> Prop {
    Prop::Logic(LogicProp::Atomic(AtomicProp::Nonempty(open(name))))
}

fn binary(b: BinaryProp) -> Prop {
    Prop::Logic(LogicProp::Binary(b))
}

fn and(a: Prop, b: Prop) -> Prop {
    binary(BinaryProp::And(Box::new(a), Box::new(b)))
}

fn or(a: Prop, b: Prop) -> Prop {
    binary(BinaryProp::Or(Box::new(a), Box::new(b)))
}

fn implies(a: Prop, b: Prop) -> Prop {
    binary(BinaryProp::Implies(Box::new(a), Box::new(b)))
}

fn iff(a: Prop, b: Prop) -> Prop {
    binary(BinaryProp::Iff(Box::new(a), Box::new(b)))
}

fn not(a: Prop) -> Prop {
    Prop::Logic(LogicProp::Unary(UnaryProp::Not(Box::new(a))))
}

#[test]
fn words_are_keywords_or_variables() {
    assert_eq!(
        tokenize("in inter inx In x1 X_y AP APx K Kx IC regular regular_space regular_spaces"),
        Ok(vec![
            Token::In,
            Token::Inter,
            Token::PointVar("inx".to_string()),
            Token::OpenVar("In".to_string()),
            Token::PointVar("x1".to_string()),
            Token::OpenVar("X_y".to_string()),
            Token::AP,
            Token::OpenVar("APx".to_string()),
            Token::K,
            Token::OpenVar("Kx".to_string()),
            Token::IC,
            Token::Regular,
            Token::RegularSpace,
            Token::PointVar("regular_spaces".to_string()),
        ])
    );
}

#[test]
fn every_keyword_is_a_token() {
    let text = "EP AO EO nonempty transitive topen irregular weakly_regular quasiregular \
                indirectly_regular hypertransitive unconflicted conflicted conflicted_space \
                unconflicted_space irregular_space weakly_regular_space quasiregular_space \
                indirectly_regular_space hypertransitive_space";
    assert_eq!(
        tokenize(text),
        Ok(vec![
            Token::EP,
            Token::AO,
            Token::EO,
            Token::Nonempty,
            Token::Transitive,
            Token::Topen,
            Token::Irregular,
            Token::WeaklyRegular,
            Token::Quasiregular,
            Token::IndirectlyRegular,
            Token::Hypertransitive,
            Token::Unconflicted,
            Token::Conflicted,
            Token::ConflictedSpace,
            Token::UnconflictedSpace,
            Token::IrregularSpace,
            Token::WeaklyRegularSpace,
            Token::QuasiregularSpace,
            Token::IndirectlyRegularSpace,
            Token::HypertransitiveSpace,
        ])
    );
}

#[test]
fn signs_are_read_at_their_longest() {
    assert_eq!(
        tokenize("&&||=>!!==<=>.()"),
        Ok(vec![
            Token::And,
            Token::Or,
            Token::Implies,
            Token::Not,
            Token::NotEqual,
            Token::Equal,
            Token::Iff,
            Token::Dot,
            Token::LeftParen,
            Token::RightParen,
        ])
    );
    assert_eq!(tokenize("= >"), Ok(vec![Token::Equal]).and_then(|_: Vec<Token>| Err(2)));
}

#[test]
fn blanks_separate_tokens() {
    assert_eq!(tokenize(""), Ok(vec![]));
    assert_eq!(tokenize(" \t\r\n"), Ok(vec![]));
    assert_eq!(
        tokenize("x\tin\nX"),
        Ok(vec![Token::PointVar("x".to_string()), Token::In, Token::OpenVar("X".to_string())])
    );
}

#[test]
fn a_character_that_starts_no_token_is_an_error() {
    assert_eq!(tokenize("x & y"), Err(2));
    assert_eq!(tokenize("x | y"), Err(2));
    assert_eq!(tokenize("x < y"), Err(2));
    assert_eq!(tokenize("x <= y"), Err(2));
    assert_eq!(tokenize("_x"), Err(0));
    assert_eq!(tokenize("x in 1"), Err(5));
    assert_eq!(tokenize("x, y"), Err(1));
    assert_eq!(tokenize("\u{e9}"), Err(0));
}

#[test]
fn and_binds_tighter_than_or() {
    assert_eq!(
        prop("nonempty A && nonempty B || nonempty C"),
        Ok(or(and(nonempty("A"), nonempty("B")), nonempty("C")))
    );
    assert_eq!(
        prop("nonempty A || nonempty B && nonempty C"),
        Ok(or(nonempty("A"), and(nonempty("B"), nonempty("C"))))
    );
}

#[test]
fn and_and_or_group_to_the_left() {
    assert_eq!(
        prop("nonempty A && nonempty B && nonempty C"),
        Ok(and(and(nonempty("A"), nonempty("B")), nonempty("C")))
    );
    assert_eq!(
        prop("nonempty A || nonempty B || nonempty C"),
        Ok(or(or(nonempty("A"), nonempty("B")), nonempty("C")))
    );
    assert_eq!(
        prop("nonempty A <=> nonempty B <=> nonempty C"),
        Ok(iff(iff(nonempty("A"), nonempty("B")), nonempty("C")))
    );
}

#[test]
fn implication_groups_to_the_right() {
    assert_eq!(
        prop("nonempty A => nonempty B => nonempty C"),
        Ok(implies(nonempty("A"), implies(nonempty("B"), nonempty("C"))))
    );
}

#[test]
fn implication_is_looser_than_or_and_tighter_than_equivalence() {
    assert_eq!(
        prop("nonempty A || nonempty B => nonempty C <=> nonempty D"),
        Ok(iff(implies(or(nonempty("A"), nonempty("B")), nonempty("C")), nonempty("D")))
    );
}

#[test]
fn negation_binds_tightest() {
    assert_eq!(
        prop("!nonempty X || nonempty X"),
        Ok(or(not(nonempty("X")), nonempty("X")))
    );
    assert_eq!(prop("!!nonempty X"), Ok(not(not(nonempty("X")))));
    assert_eq!(
        prop("!(nonempty X || nonempty Y)"),
        Ok(not(or(nonempty("X"), nonempty("Y"))))
    );
}

#[test]
fn the_body_of_a_quantifier_reaches_as_far_as_it_can() {
    let x_in_x = Prop::Logic(LogicProp::Atomic(AtomicProp::PointInOpen(point("x"), open("X"))));
    assert_eq!(
        prop("AP x. x in X && nonempty Y"),
        Ok(Prop::Logic(LogicProp::Quant(QuantProp::AP(
            "x".to_string(),
            Box::new(and(x_in_x, nonempty("Y")))
        ))))
    );
    let x_in_x = Prop::Logic(LogicProp::Atomic(AtomicProp::PointInOpen(point("x"), open("X"))));
    assert_eq!(
        prop("nonempty Y && EO X. EP x. x in X => nonempty Y"),
        Ok(and(
            nonempty("Y"),
            Prop::Logic(LogicProp::Quant(QuantProp::EO(
                "X".to_string(),
                Box::new(Prop::Logic(LogicProp::Quant(QuantProp::EP(
                    "x".to_string(),
                    Box::new(implies(x_in_x, nonempty("Y")))
                ))))
            )))
        ))
    );
    let x_in_x = Prop::Logic(LogicProp::Atomic(AtomicProp::PointInOpen(point("x"), open("X"))));
    assert_eq!(
        prop("(AO X. AP x. x in X) && nonempty Y"),
        Ok(and(
            Prop::Logic(LogicProp::Quant(QuantProp::AO(
                "X".to_string(),
                Box::new(Prop::Logic(LogicProp::Quant(QuantProp::AP(
                    "x".to_string(),
                    Box::new(x_in_x)
                ))))
            ))),
            nonempty("Y")
        ))
    );
}

#[test]
fn a_quantifier_takes_a_variable_of_its_kind() {
    assert_eq!(prop("AP X. nonempty X"), Err(1));
    assert_eq!(prop("EO x. nonempty X"), Err(1));
    assert_eq!(prop("EP x nonempty X"), Err(2));
    assert_eq!(prop("AO X."), Err(3));
}

#[test]
fn atoms_are_read_between_points_and_opens() {
    assert_eq!(
        prop("p = q"),
        Ok(Prop::Logic(LogicProp::Atomic(AtomicProp::PointEqual(point("p"), point("q")))))
    );
    assert_eq!(
        prop("p != q"),
        Ok(Prop::Logic(LogicProp::Atomic(AtomicProp::PointNotEqual(point("p"), point("q")))))
    );
    assert_eq!(
        prop("X = K p"),
        Ok(Prop::Logic(LogicProp::Atomic(AtomicProp::OpenEqual(
            open("X"),
            OpenExpr::K(point("p"))
        ))))
    );
    assert_eq!(
        prop("IC X != (IC (K p))"),
        Ok(Prop::Logic(LogicProp::Atomic(AtomicProp::OpenNotEqual(
            OpenExpr::IC(Box::new(open("X"))),
            OpenExpr::IC(Box::new(OpenExpr::K(point("p"))))
        ))))
    );
    assert_eq!(prop("p = X"), Err(2));
    assert_eq!(prop("X != p"), Err(2));
}

#[test]
fn intersections_of_two_and_of_three() {
    assert_eq!(
        prop("X inter Y"),
        Ok(Prop::Logic(LogicProp::Atomic(AtomicProp::OpenInter(open("X"), open("Y")))))
    );
    assert_eq!(
        prop("X inter K p inter IC Y"),
        Ok(Prop::Macro(MacroProp::TripleOpenInter(
            open("X"),
            OpenExpr::K(point("p")),
            OpenExpr::IC(Box::new(open("Y")))
        )))
    );
    assert_eq!(prop("p inter q"), Ok(Prop::Macro(MacroProp::PointInter(point("p"), point("q")))));
    assert_eq!(
        prop("p inter q inter r"),
        Ok(Prop::Macro(MacroProp::TriplePointInter(point("p"), point("q"), point("r"))))
    );
    assert_eq!(prop("p inter X"), Err(2));
    assert_eq!(prop("X inter p"), Err(2));
    assert_eq!(prop("p inter q inter r inter s"), Err(5));
}

#[test]
fn macros_take_their_argument() {
    assert_eq!(prop("transitive T"), Ok(Prop::Macro(MacroProp::Transitive(open("T")))));
    assert_eq!(
        prop("topen (K p)"),
        Ok(Prop::Macro(MacroProp::Topen(OpenExpr::K(point("p")))))
    );
    assert_eq!(prop("regular p"), Ok(Prop::Macro(MacroProp::Regular(point("p")))));
    assert_eq!(prop("irregular p"), Ok(Prop::Macro(MacroProp::Irregular(point("p")))));
    assert_eq!(prop("weakly_regular p"), Ok(Prop::Macro(MacroProp::WeaklyRegular(point("p")))));
    assert_eq!(prop("quasiregular p"), Ok(Prop::Macro(MacroProp::Quasiregular(point("p")))));
    assert_eq!(
        prop("indirectly_regular p"),
        Ok(Prop::Macro(MacroProp::IndirectlyRegular(point("p"))))
    );
    assert_eq!(prop("hypertransitive p"), Ok(Prop::Macro(MacroProp::Hypertransitive(point("p")))));
    assert_eq!(prop("unconflicted p"), Ok(Prop::Macro(MacroProp::Unconflicted(point("p")))));
    assert_eq!(prop("conflicted p"), Ok(Prop::Macro(MacroProp::Conflicted(point("p")))));
    assert_eq!(prop("regular X"), Err(1));
    assert_eq!(prop("transitive p"), Err(1));
    assert_eq!(prop("regular"), Err(1));
}

#[test]
fn macros_of_the_space_take_none() {
    assert_eq!(prop("conflicted_space"), Ok(Prop::Macro(MacroProp::ConflictedSpace)));
    assert_eq!(prop("unconflicted_space"), Ok(Prop::Macro(MacroProp::UnconflictedSpace)));
    assert_eq!(prop("regular_space"), Ok(Prop::Macro(MacroProp::RegularSpace)));
    assert_eq!(prop("irregular_space"), Ok(Prop::Macro(MacroProp::IrregularSpace)));
    assert_eq!(prop("weakly_regular_space"), Ok(Prop::Macro(MacroProp::WeaklyRegularSpace)));
    assert_eq!(prop("quasiregular_space"), Ok(Prop::Macro(MacroProp::QuasiregularSpace)));
    assert_eq!(
        prop("indirectly_regular_space"),
        Ok(Prop::Macro(MacroProp::IndirectlyRegularSpace))
    );
    assert_eq!(prop("hypertransitive_space"), Ok(Prop::Macro(MacroProp::HypertransitiveSpace)));
    assert_eq!(prop("regular_space p"), Err(1));
}

#[test]
fn what_does_not_fit_is_named_by_its_place() {
    assert_eq!(prop(""), Err(0));
    assert_eq!(prop("nonempty"), Err(1));
    assert_eq!(prop("K"), Err(1));
    assert_eq!(prop("K p"), Err(2));
    assert_eq!(prop("X inter"), Err(2));
    assert_eq!(prop("!(AO X. X inter Y"), Err(8));
    assert_eq!(prop("nonempty X)"), Err(2));
    assert_eq!(prop("nonempty X nonempty Y"), Err(2));
    assert_eq!(prop("unknown_kw p"), Err(1));
    assert_eq!(prop("nonempty (X"), Err(3));
    assert_eq!(prop("nonempty X &&"), Err(3));
    assert_eq!(prop("nonempty X =>"), Err(3));
    assert_eq!(prop(". x"), Err(0));
}

#[test]
fn errors_of_a_formula_say_what_failed() {
    assert_eq!(parse("x # y").unwrap_err(), SyntaxError::NoToken(2));
    assert_eq!(parse("x in").unwrap_err(), SyntaxError::Unexpected(2));
    assert_eq!(
        SyntaxError::NoToken(12).message(),
        "Parse error: no token at character 12"
    );
    assert_eq!(SyntaxError::Unexpected(3).message(), "Parse error: unexpected token 3");
    assert_eq!(
        SyntaxError::TooManyNames.message(),
        "Parse error: the fresh names cannot be numbered"
    );
}

#[test]
fn a_proposition_and_its_copy_are_equal() {
    let p = prop("AO X. EP x. !(x in IC X) && (regular x <=> X inter K x inter X) || p = q").unwrap();
    assert_eq!(p.clone(), p);
}

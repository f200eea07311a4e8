//! The parser of the formula language.
//!
//! From the loosest to the tightest, a proposition is built with `<=>`,
//! `=>` (which groups to the right), `||`, `&&`, and then `!` and the
//! quantifiers `AP x.`, `EP x.`, `AO X.`, `EO X.`, whose body reaches as far
//! as it can. A proposition between parentheses, an atom and a macro are the
//! smallest parts. An open expression is an open variable, `K x`, `IC` and
//! an open expression, or an open expression between parentheses.

use crate::ast::{
    AtomicProp, BinaryProp, LogicProp, MacroProp, OpenExpr, PointExpr, Prop, QuantProp, UnaryProp,
};
use crate::macro_expander::{expansion, prop_fresh, MacroExpander};
use crate::model_checker::Formula;
use crate::text::push_decimal;
use crate::tokens::{lex, token_terms, tokenize, Token};
use vstd::prelude::*;

verus! {

/// The token at place `pos`, where there is one.
pub open spec fn tok(tokens: Seq<Token>, pos: int) -> Option<Token> {
    if 0 <= pos < tokens.len() {
        Some(tokens[pos])
    } else {
        None
    }
}

/// What a part of the grammar reads from place `pos` on: what it stands for
/// and the place behind it, or the place of the token that does not fit.
pub type Parsed<T> = Result<(T, int), int>;

/// An open expression.
pub open spec fn open_at(tokens: Seq<Token>, pos: int) -> Parsed<OpenExpr>
    decreases tokens.len() - pos,
{
    match tok(tokens, pos) {
        Some(Token::OpenVar(v)) => Ok((OpenExpr::OpenVar(v), pos + 1)),
        Some(Token::K) => match tok(tokens, pos + 1) {
            Some(Token::PointVar(p)) => Ok((OpenExpr::K(PointExpr::PointVar(p)), pos + 2)),
            _ => Err(pos + 1),
        },
        Some(Token::IC) => match open_at(tokens, pos + 1) {
            Ok((inner, next)) => Ok((OpenExpr::IC(Box::new(inner)), next)),
            Err(e) => Err(e),
        },
        Some(Token::LeftParen) => match open_at(tokens, pos + 1) {
            Ok((inner, next)) => match tok(tokens, next) {
                Some(Token::RightParen) => Ok((inner, next + 1)),
                _ => Err(next),
            },
            Err(e) => Err(e),
        },
        _ => Err(pos),
    }
}

/// A point variable.
pub open spec fn point_at(tokens: Seq<Token>, pos: int) -> Parsed<PointExpr> {
    match tok(tokens, pos) {
        Some(Token::PointVar(p)) => Ok((PointExpr::PointVar(p), pos + 1)),
        _ => Err(pos),
    }
}

/// An atom of the core logic as a proposition.
pub open spec fn atom(a: AtomicProp) -> Prop {
    Prop::Logic(LogicProp::Atomic(a))
}

/// What starts with the point `p`, which stands before place `pos`:
/// `p in O`, `p inter q`, `p inter q inter r`, `p != q` or `p = q`.
pub open spec fn after_point(tokens: Seq<Token>, p: PointExpr, pos: int) -> Parsed<Prop> {
    match tok(tokens, pos) {
        Some(Token::In) => match open_at(tokens, pos + 1) {
            Ok((o, next)) => Ok((atom(AtomicProp::PointInOpen(p, o)), next)),
            Err(e) => Err(e),
        },
        Some(Token::Inter) => match point_at(tokens, pos + 1) {
            Ok((q, next)) => match tok(tokens, next) {
                Some(Token::Inter) => match point_at(tokens, next + 1) {
                    Ok((r, last)) => Ok((Prop::Macro(MacroProp::TriplePointInter(p, q, r)), last)),
                    Err(e) => Err(e),
                },
                _ => Ok((Prop::Macro(MacroProp::PointInter(p, q)), next)),
            },
            Err(e) => Err(e),
        },
        Some(Token::NotEqual) => match point_at(tokens, pos + 1) {
            Ok((q, next)) => Ok((atom(AtomicProp::PointNotEqual(p, q)), next)),
            Err(e) => Err(e),
        },
        Some(Token::Equal) => match point_at(tokens, pos + 1) {
            Ok((q, next)) => Ok((atom(AtomicProp::PointEqual(p, q)), next)),
            Err(e) => Err(e),
        },
        _ => Err(pos),
    }
}

/// What starts with the open expression `o`, which stands before place
/// `pos`: `O inter P`, `O inter P inter Q`, `O != P` or `O = P`.
pub open spec fn after_open(tokens: Seq<Token>, o: OpenExpr, pos: int) -> Parsed<Prop> {
    match tok(tokens, pos) {
        Some(Token::Inter) => match open_at(tokens, pos + 1) {
            Ok((p, next)) => match tok(tokens, next) {
                Some(Token::Inter) => match open_at(tokens, next + 1) {
                    Ok((q, last)) => Ok((Prop::Macro(MacroProp::TripleOpenInter(o, p, q)), last)),
                    Err(e) => Err(e),
                },
                _ => Ok((atom(AtomicProp::OpenInter(o, p)), next)),
            },
            Err(e) => Err(e),
        },
        Some(Token::NotEqual) => match open_at(tokens, pos + 1) {
            Ok((p, next)) => Ok((atom(AtomicProp::OpenNotEqual(o, p)), next)),
            Err(e) => Err(e),
        },
        Some(Token::Equal) => match open_at(tokens, pos + 1) {
            Ok((p, next)) => Ok((atom(AtomicProp::OpenEqual(o, p)), next)),
            Err(e) => Err(e),
        },
        _ => Err(pos),
    }
}

/// The macro of a point that the keyword `t` names.
pub open spec fn point_macro(t: Token, p: PointExpr) -> Option<MacroProp> {
    match t {
        Token::Regular => Some(MacroProp::Regular(p)),
        Token::Irregular => Some(MacroProp::Irregular(p)),
        Token::WeaklyRegular => Some(MacroProp::WeaklyRegular(p)),
        Token::Quasiregular => Some(MacroProp::Quasiregular(p)),
        Token::IndirectlyRegular => Some(MacroProp::IndirectlyRegular(p)),
        Token::Hypertransitive => Some(MacroProp::Hypertransitive(p)),
        Token::Unconflicted => Some(MacroProp::Unconflicted(p)),
        Token::Conflicted => Some(MacroProp::Conflicted(p)),
        _ => None,
    }
}

/// Whether `t` names a macro of a point.
pub open spec fn is_point_keyword(t: Token) -> bool {
    t is Regular || t is Irregular || t is WeaklyRegular || t is Quasiregular
        || t is IndirectlyRegular || t is Hypertransitive || t is Unconflicted || t is Conflicted
}

/// The macro of the whole space that the keyword `t` names.
pub open spec fn space_macro(t: Token) -> Option<MacroProp> {
    match t {
        Token::ConflictedSpace => Some(MacroProp::ConflictedSpace),
        Token::UnconflictedSpace => Some(MacroProp::UnconflictedSpace),
        Token::RegularSpace => Some(MacroProp::RegularSpace),
        Token::IrregularSpace => Some(MacroProp::IrregularSpace),
        Token::WeaklyRegularSpace => Some(MacroProp::WeaklyRegularSpace),
        Token::QuasiregularSpace => Some(MacroProp::QuasiregularSpace),
        Token::IndirectlyRegularSpace => Some(MacroProp::IndirectlyRegularSpace),
        Token::HypertransitiveSpace => Some(MacroProp::HypertransitiveSpace),
        _ => None,
    }
}

/// An atom or a macro.
pub open spec fn simple_at(tokens: Seq<Token>, pos: int) -> Parsed<Prop> {
    match tok(tokens, pos) {
        None => Err(pos),
        Some(t) => match t {
            Token::PointVar(p) => after_point(tokens, PointExpr::PointVar(p), pos + 1),
            Token::OpenVar(_) | Token::K | Token::IC => match open_at(tokens, pos) {
                Ok((o, next)) => after_open(tokens, o, next),
                Err(e) => Err(e),
            },
            Token::Nonempty => match open_at(tokens, pos + 1) {
                Ok((o, next)) => Ok((atom(AtomicProp::Nonempty(o)), next)),
                Err(e) => Err(e),
            },
            Token::Transitive => match open_at(tokens, pos + 1) {
                Ok((o, next)) => Ok((Prop::Macro(MacroProp::Transitive(o)), next)),
                Err(e) => Err(e),
            },
            Token::Topen => match open_at(tokens, pos + 1) {
                Ok((o, next)) => Ok((Prop::Macro(MacroProp::Topen(o)), next)),
                Err(e) => Err(e),
            },
            _ => match space_macro(t) {
                Some(m) => Ok((Prop::Macro(m), pos + 1)),
                None => if is_point_keyword(t) {
                    match point_at(tokens, pos + 1) {
                        Ok((p, next)) => match point_macro(t, p) {
                            Some(m) => Ok((Prop::Macro(m), next)),
                            None => Err(pos),
                        },
                        Err(e) => Err(e),
                    }
                } else {
                    Err(pos)
                },
            },
        },
    }
}

/// A proposition.
pub open spec fn prop_at(tokens: Seq<Token>, pos: int) -> Parsed<Prop>
    decreases tokens.len() - pos, 9nat,
{
    match implies_at(tokens, pos) {
        Ok((left, next)) => if pos < next <= tokens.len() {
            iff_rest(tokens, left, next)
        } else {
            Err(next)
        },
        Err(e) => Err(e),
    }
}

/// The equivalences behind `left`, which ends before place `pos`.
pub open spec fn iff_rest(tokens: Seq<Token>, left: Prop, pos: int) -> Parsed<Prop>
    decreases tokens.len() - pos, 8nat,
{
    match tok(tokens, pos) {
        Some(Token::Iff) => match implies_at(tokens, pos + 1) {
            Ok((right, next)) => if pos < next <= tokens.len() {
                iff_rest(
                    tokens,
                    Prop::Logic(LogicProp::Binary(BinaryProp::Iff(Box::new(left), Box::new(right)))),
                    next,
                )
            } else {
                Err(next)
            },
            Err(e) => Err(e),
        },
        _ => Ok((left, pos)),
    }
}

/// An implication, or what is tighter.
pub open spec fn implies_at(tokens: Seq<Token>, pos: int) -> Parsed<Prop>
    decreases tokens.len() - pos, 7nat,
{
    match or_at(tokens, pos) {
        Ok((left, next)) => match tok(tokens, next) {
            Some(Token::Implies) => if pos <= next < tokens.len() {
                match implies_at(tokens, next + 1) {
                    Ok((right, last)) => Ok(
                        (
                            Prop::Logic(
                                LogicProp::Binary(
                                    BinaryProp::Implies(Box::new(left), Box::new(right)),
                                ),
                            ),
                            last,
                        ),
                    ),
                    Err(e) => Err(e),
                }
            } else {
                Err(next)
            },
            _ => Ok((left, next)),
        },
        Err(e) => Err(e),
    }
}

/// A disjunction, or what is tighter.
pub open spec fn or_at(tokens: Seq<Token>, pos: int) -> Parsed<Prop>
    decreases tokens.len() - pos, 6nat,
{
    match and_at(tokens, pos) {
        Ok((left, next)) => if pos < next <= tokens.len() {
            or_rest(tokens, left, next)
        } else {
            Err(next)
        },
        Err(e) => Err(e),
    }
}

/// The disjuncts behind `left`, which ends before place `pos`.
pub open spec fn or_rest(tokens: Seq<Token>, left: Prop, pos: int) -> Parsed<Prop>
    decreases tokens.len() - pos, 5nat,
{
    match tok(tokens, pos) {
        Some(Token::Or) => match and_at(tokens, pos + 1) {
            Ok((right, next)) => if pos < next <= tokens.len() {
                or_rest(
                    tokens,
                    Prop::Logic(LogicProp::Binary(BinaryProp::Or(Box::new(left), Box::new(right)))),
                    next,
                )
            } else {
                Err(next)
            },
            Err(e) => Err(e),
        },
        _ => Ok((left, pos)),
    }
}

/// A conjunction, or what is tighter.
pub open spec fn and_at(tokens: Seq<Token>, pos: int) -> Parsed<Prop>
    decreases tokens.len() - pos, 4nat,
{
    match unary_at(tokens, pos) {
        Ok((left, next)) => if pos < next <= tokens.len() {
            and_rest(tokens, left, next)
        } else {
            Err(next)
        },
        Err(e) => Err(e),
    }
}

/// The conjuncts behind `left`, which ends before place `pos`.
pub open spec fn and_rest(tokens: Seq<Token>, left: Prop, pos: int) -> Parsed<Prop>
    decreases tokens.len() - pos, 3nat,
{
    match tok(tokens, pos) {
        Some(Token::And) => match unary_at(tokens, pos + 1) {
            Ok((right, next)) => if pos < next <= tokens.len() {
                and_rest(
                    tokens,
                    Prop::Logic(LogicProp::Binary(BinaryProp::And(Box::new(left), Box::new(right)))),
                    next,
                )
            } else {
                Err(next)
            },
            Err(e) => Err(e),
        },
        _ => Ok((left, pos)),
    }
}

/// The proposition that the quantifier `t` makes of the variable `v` and
/// the body `body`.
pub open spec fn quantified(t: Token, v: String, body: Prop) -> Prop {
    let b = Box::new(body);
    Prop::Logic(
        LogicProp::Quant(
            match t {
                Token::AP => QuantProp::AP(v, b),
                Token::EP => QuantProp::EP(v, b),
                Token::AO => QuantProp::AO(v, b),
                _ => QuantProp::EO(v, b),
            },
        ),
    )
}

/// A negation, a quantified proposition, or what is tighter.
pub open spec fn unary_at(tokens: Seq<Token>, pos: int) -> Parsed<Prop>
    decreases tokens.len() - pos, 2nat,
{
    match tok(tokens, pos) {
        Some(Token::Not) => match unary_at(tokens, pos + 1) {
            Ok((inner, next)) => Ok(
                (Prop::Logic(LogicProp::Unary(UnaryProp::Not(Box::new(inner)))), next),
            ),
            Err(e) => Err(e),
        },
        Some(Token::AP) | Some(Token::EP) => match tok(tokens, pos + 1) {
            Some(Token::PointVar(v)) => match tok(tokens, pos + 2) {
                Some(Token::Dot) => match prop_at(tokens, pos + 3) {
                    Ok((body, next)) => Ok((quantified(tokens[pos], v, body), next)),
                    Err(e) => Err(e),
                },
                _ => Err(pos + 2),
            },
            _ => Err(pos + 1),
        },
        Some(Token::AO) | Some(Token::EO) => match tok(tokens, pos + 1) {
            Some(Token::OpenVar(v)) => match tok(tokens, pos + 2) {
                Some(Token::Dot) => match prop_at(tokens, pos + 3) {
                    Ok((body, next)) => Ok((quantified(tokens[pos], v, body), next)),
                    Err(e) => Err(e),
                },
                _ => Err(pos + 2),
            },
            _ => Err(pos + 1),
        },
        _ => primary_at(tokens, pos),
    }
}

/// A proposition between parentheses, an atom or a macro.
pub open spec fn primary_at(tokens: Seq<Token>, pos: int) -> Parsed<Prop>
    decreases tokens.len() - pos, 1nat,
{
    match tok(tokens, pos) {
        Some(Token::LeftParen) => match prop_at(tokens, pos + 1) {
            Ok((inner, next)) => match tok(tokens, next) {
                Some(Token::RightParen) => Ok((inner, next + 1)),
                _ => Err(next),
            },
            Err(e) => Err(e),
        },
        _ => simple_at(tokens, pos),
    }
}

/// The proposition that the tokens write: all of them; or the place of the
/// first token that does not fit.
pub open spec fn parsed(tokens: Seq<Token>) -> Result<Prop, int> {
    match prop_at(tokens, 0) {
        Ok((prop, next)) => if next == tokens.len() {
            Ok(prop)
        } else {
            Err(next)
        },
        Err(e) => Err(e),
    }
}

/// Whether what was read is what the grammar reads.
pub open spec fn reads<T>(
    r: Result<(T, usize), usize>,
    wanted: Parsed<T>,
    pos: usize,
    len: nat,
) -> bool {
    match r {
        Ok((x, next)) => wanted == Ok::<(T, int), int>((x, next as int)) && pos < next <= len,
        Err(e) => wanted == Err::<(T, int), int>(e as int) && e <= len,
    }
}

/// The token at place `pos`, where there is one.
fn peek(tokens: &Vec<Token>, pos: usize) -> (t: Option<&Token>)
    ensures
        match t {
            Some(token) => tok(tokens@, pos as int) == Some(*token) && pos < usize::MAX,
            None => tok(tokens@, pos as int) is None,
        },
        tokens@.len() <= usize::MAX,
{
    if pos < tokens.len() {
        Some(&tokens[pos])
    } else {
        None
    }
}

/// Reads an open expression.
fn parse_open(tokens: &Vec<Token>, pos: usize) -> (r: Result<(OpenExpr, usize), usize>)
    requires
        pos <= tokens@.len(),
    ensures
        reads(r, open_at(tokens@, pos as int), pos, tokens@.len()),
    decreases tokens@.len() - pos,
{
    match peek(tokens, pos) {
        Some(Token::OpenVar(v)) => Ok((OpenExpr::OpenVar(v.clone()), pos + 1)),
        Some(Token::K) => match peek(tokens, pos + 1) {
            Some(Token::PointVar(p)) => Ok((OpenExpr::K(PointExpr::PointVar(p.clone())), pos + 2)),
            _ => Err(pos + 1),
        },
        Some(Token::IC) => match parse_open(tokens, pos + 1) {
            Ok((inner, next)) => Ok((OpenExpr::IC(Box::new(inner)), next)),
            Err(e) => Err(e),
        },
        Some(Token::LeftParen) => match parse_open(tokens, pos + 1) {
            Ok((inner, next)) => match peek(tokens, next) {
                Some(Token::RightParen) => Ok((inner, next + 1)),
                _ => Err(next),
            },
            Err(e) => Err(e),
        },
        _ => Err(pos),
    }
}

/// Reads a point variable.
fn parse_point(tokens: &Vec<Token>, pos: usize) -> (r: Result<(PointExpr, usize), usize>)
    requires
        pos <= tokens@.len(),
    ensures
        reads(r, point_at(tokens@, pos as int), pos, tokens@.len()),
{
    match peek(tokens, pos) {
        Some(Token::PointVar(p)) => Ok((PointExpr::PointVar(p.clone()), pos + 1)),
        _ => Err(pos),
    }
}

/// Reads what starts with the point `p`.
fn parse_after_point(tokens: &Vec<Token>, p: PointExpr, pos: usize) -> (r: Result<
    (Prop, usize),
    usize,
>)
    requires
        pos <= tokens@.len(),
    ensures
        match r {
            Ok((x, next)) => after_point(tokens@, p, pos as int) == Ok::<(Prop, int), int>(
                (x, next as int),
            ) && pos < next <= tokens@.len(),
            Err(e) => after_point(tokens@, p, pos as int) == Err::<(Prop, int), int>(e as int)
                && e <= tokens@.len(),
        },
{
    match peek(tokens, pos) {
        Some(Token::In) => match parse_open(tokens, pos + 1) {
            Ok((o, next)) => Ok((Prop::Logic(LogicProp::Atomic(AtomicProp::PointInOpen(p, o))), next)),
            Err(e) => Err(e),
        },
        Some(Token::Inter) => match parse_point(tokens, pos + 1) {
            Ok((q, next)) => match peek(tokens, next) {
                Some(Token::Inter) => match parse_point(tokens, next + 1) {
                    Ok((r, last)) => Ok((Prop::Macro(MacroProp::TriplePointInter(p, q, r)), last)),
                    Err(e) => Err(e),
                },
                _ => Ok((Prop::Macro(MacroProp::PointInter(p, q)), next)),
            },
            Err(e) => Err(e),
        },
        Some(Token::NotEqual) => match parse_point(tokens, pos + 1) {
            Ok((q, next)) => Ok(
                (Prop::Logic(LogicProp::Atomic(AtomicProp::PointNotEqual(p, q))), next),
            ),
            Err(e) => Err(e),
        },
        Some(Token::Equal) => match parse_point(tokens, pos + 1) {
            Ok((q, next)) => Ok((Prop::Logic(LogicProp::Atomic(AtomicProp::PointEqual(p, q))), next)),
            Err(e) => Err(e),
        },
        _ => Err(pos),
    }
}

/// Reads what starts with the open expression `o`.
fn parse_after_open(tokens: &Vec<Token>, o: OpenExpr, pos: usize) -> (r: Result<
    (Prop, usize),
    usize,
>)
    requires
        pos <= tokens@.len(),
    ensures
        match r {
            Ok((x, next)) => after_open(tokens@, o, pos as int) == Ok::<(Prop, int), int>(
                (x, next as int),
            ) && pos < next <= tokens@.len(),
            Err(e) => after_open(tokens@, o, pos as int) == Err::<(Prop, int), int>(e as int) && e
                <= tokens@.len(),
        },
{
    match peek(tokens, pos) {
        Some(Token::Inter) => match parse_open(tokens, pos + 1) {
            Ok((p, next)) => match peek(tokens, next) {
                Some(Token::Inter) => match parse_open(tokens, next + 1) {
                    Ok((q, last)) => Ok((Prop::Macro(MacroProp::TripleOpenInter(o, p, q)), last)),
                    Err(e) => Err(e),
                },
                _ => Ok((Prop::Logic(LogicProp::Atomic(AtomicProp::OpenInter(o, p))), next)),
            },
            Err(e) => Err(e),
        },
        Some(Token::NotEqual) => match parse_open(tokens, pos + 1) {
            Ok((p, next)) => Ok(
                (Prop::Logic(LogicProp::Atomic(AtomicProp::OpenNotEqual(o, p))), next),
            ),
            Err(e) => Err(e),
        },
        Some(Token::Equal) => match parse_open(tokens, pos + 1) {
            Ok((p, next)) => Ok((Prop::Logic(LogicProp::Atomic(AtomicProp::OpenEqual(o, p))), next)),
            Err(e) => Err(e),
        },
        _ => Err(pos),
    }
}

/// Reads the point of a macro of a point, which `make` makes of it.
fn parse_point_macro(tokens: &Vec<Token>, pos: usize) -> (r: Result<(Prop, usize), usize>)
    requires
        pos < tokens@.len(),
        is_point_keyword(tokens@[pos as int]),
    ensures
        reads(r, simple_at(tokens@, pos as int), pos, tokens@.len()),
{
    let len: usize = tokens.len();
    match parse_point(tokens, pos + 1) {
        Ok((p, next)) => {
            let m = match &tokens[pos] {
                Token::Regular => MacroProp::Regular(p),
                Token::Irregular => MacroProp::Irregular(p),
                Token::WeaklyRegular => MacroProp::WeaklyRegular(p),
                Token::Quasiregular => MacroProp::Quasiregular(p),
                Token::IndirectlyRegular => MacroProp::IndirectlyRegular(p),
                Token::Hypertransitive => MacroProp::Hypertransitive(p),
                Token::Unconflicted => MacroProp::Unconflicted(p),
                _ => MacroProp::Conflicted(p),
            };
            Ok((Prop::Macro(m), next))
        },
        Err(e) => Err(e),
    }
}

/// Reads an atom or a macro.
fn parse_simple(tokens: &Vec<Token>, pos: usize) -> (r: Result<(Prop, usize), usize>)
    requires
        pos <= tokens@.len(),
    ensures
        reads(r, simple_at(tokens@, pos as int), pos, tokens@.len()),
{
    match peek(tokens, pos) {
        None => Err(pos),
        Some(t) => match t {
            Token::PointVar(p) => parse_after_point(tokens, PointExpr::PointVar(p.clone()), pos + 1),
            Token::OpenVar(_) | Token::K | Token::IC => match parse_open(tokens, pos) {
                Ok((o, next)) => parse_after_open(tokens, o, next),
                Err(e) => Err(e),
            },
            Token::Nonempty => match parse_open(tokens, pos + 1) {
                Ok((o, next)) => Ok((Prop::Logic(LogicProp::Atomic(AtomicProp::Nonempty(o))), next)),
                Err(e) => Err(e),
            },
            Token::Transitive => match parse_open(tokens, pos + 1) {
                Ok((o, next)) => Ok((Prop::Macro(MacroProp::Transitive(o)), next)),
                Err(e) => Err(e),
            },
            Token::Topen => match parse_open(tokens, pos + 1) {
                Ok((o, next)) => Ok((Prop::Macro(MacroProp::Topen(o)), next)),
                Err(e) => Err(e),
            },
            Token::ConflictedSpace => Ok((Prop::Macro(MacroProp::ConflictedSpace), pos + 1)),
            Token::UnconflictedSpace => Ok((Prop::Macro(MacroProp::UnconflictedSpace), pos + 1)),
            Token::RegularSpace => Ok((Prop::Macro(MacroProp::RegularSpace), pos + 1)),
            Token::IrregularSpace => Ok((Prop::Macro(MacroProp::IrregularSpace), pos + 1)),
            Token::WeaklyRegularSpace => Ok((Prop::Macro(MacroProp::WeaklyRegularSpace), pos + 1)),
            Token::QuasiregularSpace => Ok((Prop::Macro(MacroProp::QuasiregularSpace), pos + 1)),
            Token::IndirectlyRegularSpace => Ok(
                (Prop::Macro(MacroProp::IndirectlyRegularSpace), pos + 1),
            ),
            Token::HypertransitiveSpace => Ok((Prop::Macro(MacroProp::HypertransitiveSpace), pos + 1)),
            Token::Regular
            | Token::Irregular
            | Token::WeaklyRegular
            | Token::Quasiregular
            | Token::IndirectlyRegular
            | Token::Hypertransitive
            | Token::Unconflicted
            | Token::Conflicted => parse_point_macro(tokens, pos),
            _ => Err(pos),
        },
    }
}

/// Reads a proposition.
fn parse_prop(tokens: &Vec<Token>, pos: usize) -> (r: Result<(Prop, usize), usize>)
    requires
        pos <= tokens@.len(),
    ensures
        reads(r, prop_at(tokens@, pos as int), pos, tokens@.len()),
    decreases tokens@.len() - pos, 9nat,
{
    match parse_implies(tokens, pos) {
        Ok((left, next)) => parse_iff_rest(tokens, left, next, Ghost(pos)),
        Err(e) => Err(e),
    }
}

/// Reads the equivalences behind `left`.
fn parse_iff_rest(tokens: &Vec<Token>, left: Prop, pos: usize, Ghost(start): Ghost<usize>) -> (r:
    Result<(Prop, usize), usize>)
    requires
        start < pos <= tokens@.len(),
    ensures
        match r {
            Ok((x, next)) => iff_rest(tokens@, left, pos as int) == Ok::<(Prop, int), int>(
                (x, next as int),
            ) && start < next <= tokens@.len(),
            Err(e) => iff_rest(tokens@, left, pos as int) == Err::<(Prop, int), int>(e as int) && e
                <= tokens@.len(),
        },
    decreases tokens@.len() - pos, 8nat,
{
    match peek(tokens, pos) {
        Some(Token::Iff) => match parse_implies(tokens, pos + 1) {
            Ok((right, next)) => parse_iff_rest(
                tokens,
                Prop::Logic(LogicProp::Binary(BinaryProp::Iff(Box::new(left), Box::new(right)))),
                next,
                Ghost(start),
            ),
            Err(e) => Err(e),
        },
        _ => Ok((left, pos)),
    }
}

/// Reads an implication, or what is tighter.
fn parse_implies(tokens: &Vec<Token>, pos: usize) -> (r: Result<(Prop, usize), usize>)
    requires
        pos <= tokens@.len(),
    ensures
        reads(r, implies_at(tokens@, pos as int), pos, tokens@.len()),
    decreases tokens@.len() - pos, 7nat,
{
    match parse_or(tokens, pos) {
        Ok((left, next)) => match peek(tokens, next) {
            Some(Token::Implies) => match parse_implies(tokens, next + 1) {
                Ok((right, last)) => Ok(
                    (
                        Prop::Logic(
                            LogicProp::Binary(BinaryProp::Implies(Box::new(left), Box::new(right))),
                        ),
                        last,
                    ),
                ),
                Err(e) => Err(e),
            },
            _ => Ok((left, next)),
        },
        Err(e) => Err(e),
    }
}

/// Reads a disjunction, or what is tighter.
fn parse_or(tokens: &Vec<Token>, pos: usize) -> (r: Result<(Prop, usize), usize>)
    requires
        pos <= tokens@.len(),
    ensures
        reads(r, or_at(tokens@, pos as int), pos, tokens@.len()),
    decreases tokens@.len() - pos, 6nat,
{
    match parse_and(tokens, pos) {
        Ok((left, next)) => parse_or_rest(tokens, left, next, Ghost(pos)),
        Err(e) => Err(e),
    }
}

/// Reads the disjuncts behind `left`.
fn parse_or_rest(tokens: &Vec<Token>, left: Prop, pos: usize, Ghost(start): Ghost<usize>) -> (r:
    Result<(Prop, usize), usize>)
    requires
        start < pos <= tokens@.len(),
    ensures
        match r {
            Ok((x, next)) => or_rest(tokens@, left, pos as int) == Ok::<(Prop, int), int>(
                (x, next as int),
            ) && start < next <= tokens@.len(),
            Err(e) => or_rest(tokens@, left, pos as int) == Err::<(Prop, int), int>(e as int) && e
                <= tokens@.len(),
        },
    decreases tokens@.len() - pos, 5nat,
{
    match peek(tokens, pos) {
        Some(Token::Or) => match parse_and(tokens, pos + 1) {
            Ok((right, next)) => parse_or_rest(
                tokens,
                Prop::Logic(LogicProp::Binary(BinaryProp::Or(Box::new(left), Box::new(right)))),
                next,
                Ghost(start),
            ),
            Err(e) => Err(e),
        },
        _ => Ok((left, pos)),
    }
}

/// Reads a conjunction, or what is tighter.
fn parse_and(tokens: &Vec<Token>, pos: usize) -> (r: Result<(Prop, usize), usize>)
    requires
        pos <= tokens@.len(),
    ensures
        reads(r, and_at(tokens@, pos as int), pos, tokens@.len()),
    decreases tokens@.len() - pos, 4nat,
{
    match parse_unary(tokens, pos) {
        Ok((left, next)) => parse_and_rest(tokens, left, next, Ghost(pos)),
        Err(e) => Err(e),
    }
}

/// Reads the conjuncts behind `left`.
fn parse_and_rest(tokens: &Vec<Token>, left: Prop, pos: usize, Ghost(start): Ghost<usize>) -> (r:
    Result<(Prop, usize), usize>)
    requires
        start < pos <= tokens@.len(),
    ensures
        match r {
            Ok((x, next)) => and_rest(tokens@, left, pos as int) == Ok::<(Prop, int), int>(
                (x, next as int),
            ) && start < next <= tokens@.len(),
            Err(e) => and_rest(tokens@, left, pos as int) == Err::<(Prop, int), int>(e as int) && e
                <= tokens@.len(),
        },
    decreases tokens@.len() - pos, 3nat,
{
    match peek(tokens, pos) {
        Some(Token::And) => match parse_unary(tokens, pos + 1) {
            Ok((right, next)) => parse_and_rest(
                tokens,
                Prop::Logic(LogicProp::Binary(BinaryProp::And(Box::new(left), Box::new(right)))),
                next,
                Ghost(start),
            ),
            Err(e) => Err(e),
        },
        _ => Ok((left, pos)),
    }
}

/// Reads the variable and the body of a quantified proposition, whose
/// quantifier stands at place `pos`.
fn parse_quantified(tokens: &Vec<Token>, pos: usize) -> (r: Result<(Prop, usize), usize>)
    requires
        pos < tokens@.len(),
        tokens@[pos as int] is AP || tokens@[pos as int] is EP || tokens@[pos as int] is AO
            || tokens@[pos as int] is EO,
    ensures
        reads(r, unary_at(tokens@, pos as int), pos, tokens@.len()),
    decreases tokens@.len() - pos, 1nat,
{
    let len: usize = tokens.len();
    let of_points = match &tokens[pos] {
        Token::AP => true,
        Token::EP => true,
        _ => false,
    };
    let var = match peek(tokens, pos + 1) {
        Some(Token::PointVar(v)) => if of_points {
            v.clone()
        } else {
            return Err(pos + 1);
        },
        Some(Token::OpenVar(v)) => if of_points {
            return Err(pos + 1);
        } else {
            v.clone()
        },
        _ => {
            return Err(pos + 1);
        },
    };
    match peek(tokens, pos + 2) {
        Some(Token::Dot) => {},
        _ => {
            return Err(pos + 2);
        },
    }
    match parse_prop(tokens, pos + 3) {
        Ok((body, next)) => {
            let b = Box::new(body);
            let quant = match &tokens[pos] {
                Token::AP => QuantProp::AP(var, b),
                Token::EP => QuantProp::EP(var, b),
                Token::AO => QuantProp::AO(var, b),
                _ => QuantProp::EO(var, b),
            };
            Ok((Prop::Logic(LogicProp::Quant(quant)), next))
        },
        Err(e) => Err(e),
    }
}

/// Reads a negation, a quantified proposition, or what is tighter.
fn parse_unary(tokens: &Vec<Token>, pos: usize) -> (r: Result<(Prop, usize), usize>)
    requires
        pos <= tokens@.len(),
    ensures
        reads(r, unary_at(tokens@, pos as int), pos, tokens@.len()),
    decreases tokens@.len() - pos, 2nat,
{
    match peek(tokens, pos) {
        Some(Token::Not) => match parse_unary(tokens, pos + 1) {
            Ok((inner, next)) => Ok(
                (Prop::Logic(LogicProp::Unary(UnaryProp::Not(Box::new(inner)))), next),
            ),
            Err(e) => Err(e),
        },
        Some(Token::AP) | Some(Token::EP) | Some(Token::AO) | Some(Token::EO) => parse_quantified(
            tokens,
            pos,
        ),
        _ => parse_primary(tokens, pos),
    }
}

/// Reads a proposition between parentheses, an atom or a macro.
fn parse_primary(tokens: &Vec<Token>, pos: usize) -> (r: Result<(Prop, usize), usize>)
    requires
        pos <= tokens@.len(),
    ensures
        reads(r, primary_at(tokens@, pos as int), pos, tokens@.len()),
    decreases tokens@.len() - pos, 1nat,
{
    match peek(tokens, pos) {
        Some(Token::LeftParen) => match parse_prop(tokens, pos + 1) {
            Ok((inner, next)) => match peek(tokens, next) {
                Some(Token::RightParen) => Ok((inner, next + 1)),
                _ => Err(next),
            },
            Err(e) => Err(e),
        },
        _ => parse_simple(tokens, pos),
    }
}

/// The proposition that the tokens write: all of them; or the place of the
/// first token that does not fit.
pub fn parse_tokens(tokens: &Vec<Token>) -> (r: Result<Prop, usize>)
    ensures
        match r {
            Ok(prop) => parsed(tokens@) == Ok::<Prop, int>(prop),
            Err(e) => parsed(tokens@) == Err::<Prop, int>(e as int),
        },
{
    match parse_prop(tokens, 0) {
        Ok((prop, next)) => if next == tokens.len() {
            Ok(prop)
        } else {
            Err(next)
        },
        Err(e) => Err(e),
    }
}

/// Why a text is no formula.
#[derive(Debug, Clone, Copy, PartialEq, Eq, Structural)]
pub enum SyntaxError {
    /// No token starts at the character at this place.
    NoToken(usize),
    /// The token at this place does not fit; the place behind the last token
    /// stands for the end of the text.
    Unexpected(usize),
    /// The fresh names of the macros cannot be numbered.
    TooManyNames,
}

impl SyntaxError {
    /// What this error says.
    pub fn message(&self) -> (text: String)
        ensures
            text@ == syntax_error_text(*self),
    {
        match self {
            SyntaxError::NoToken(place) => {
                let mut text = String::from_str("Parse error: no token at character ");
                push_decimal(&mut text, *place);
                text
            },
            SyntaxError::Unexpected(place) => {
                let mut text = String::from_str("Parse error: unexpected token ");
                push_decimal(&mut text, *place);
                text
            },
            SyntaxError::TooManyNames => String::from_str(
                "Parse error: the fresh names cannot be numbered",
            ),
        }
    }
}

/// What a syntax error says.
pub open spec fn syntax_error_text(e: SyntaxError) -> Seq<char> {
    match e {
        SyntaxError::NoToken(place) => "Parse error: no token at character "@
            + crate::text::decimal(place as nat),
        SyntaxError::Unexpected(place) => "Parse error: unexpected token "@
            + crate::text::decimal(place as nat),
        SyntaxError::TooManyNames => "Parse error: the fresh names cannot be numbered"@,
    }
}

/// The formula that `input` writes, its macros expanded: `NoToken` where a
/// character starts no token, `Unexpected` where a token does not fit the
/// grammar.
pub fn parse(input: &str) -> (r: Result<Formula, SyntaxError>)
    ensures
        match lex(input@) {
            Err(place) => r == Err::<Formula, SyntaxError>(SyntaxError::NoToken(place as usize)),
            Ok(terms) => exists|tokens: Seq<Token>|
                token_terms(tokens) == terms && match parsed(tokens) {
                    Err(place) => r == Err::<Formula, SyntaxError>(
                        SyntaxError::Unexpected(place as usize),
                    ),
                    Ok(prop) => match r {
                        Ok(formula) => formula@ == expansion(prop, 0),
                        Err(e) => e == SyntaxError::TooManyNames && prop_fresh(prop) > usize::MAX,
                    },
                },
        },
{
    let tokens = match tokenize(input) {
        Ok(tokens) => tokens,
        Err(place) => {
            return Err(SyntaxError::NoToken(place));
        },
    };
    let prop = match parse_tokens(&tokens) {
        Ok(prop) => prop,
        Err(place) => {
            return Err(SyntaxError::Unexpected(place));
        },
    };
    let mut expander = MacroExpander::new();
    match expander.expand(prop) {
        Ok(formula) => Ok(formula),
        Err(_) => Err(SyntaxError::TooManyNames),
    }
}

/// The formula that `input` writes, its macros expanded; or what is wrong
/// with the text.
pub fn parse_formula(input: &str) -> (r: Result<Formula, String>)
    ensures
        match lex(input@) {
            Err(place) => r matches Err(text) && text@ == syntax_error_text(
                SyntaxError::NoToken(place as usize),
            ),
            Ok(terms) => exists|tokens: Seq<Token>|
                token_terms(tokens) == terms && match parsed(tokens) {
                    Err(place) => r matches Err(text) && text@ == syntax_error_text(
                        SyntaxError::Unexpected(place as usize),
                    ),
                    Ok(prop) => match r {
                        Ok(formula) => formula@ == expansion(prop, 0),
                        Err(text) => text@ == syntax_error_text(SyntaxError::TooManyNames)
                            && prop_fresh(prop) > usize::MAX,
                    },
                },
        },
{
    match parse(input) {
        Ok(formula) => Ok(formula),
        Err(e) => Err(e.message()),
    }
}

} // verus!

//! Expansion of macros into formulas of the core logic.
//!
//! Each bound variable that an expansion introduces gets a fresh name: a
//! base, an underscore and the number of names given out before it.

use crate::ast::{
    AtomicProp, BinaryProp, LogicProp, MacroProp, OpenExpr, PointExpr, Prop, QuantProp, UnaryProp,
};
use crate::model_checker::{Atom, AtomTerm, Formula, FormulaTerm, OpenTerm};
use crate::model_checker::OpenExpr as ModelOpenExpr;
use crate::text::{decimal, push_decimal};
use vstd::prelude::*;

verus! {

/// The fresh name with the base `base` and the number `k`.
pub open spec fn fresh(base: Seq<char>, k: nat) -> Seq<char> {
    base + seq!['_'] + decimal(k)
}

/// The name of a point expression.
pub open spec fn point_name(p: PointExpr) -> Seq<char> {
    match p {
        PointExpr::PointVar(v) => v@,
    }
}

/// The open term of an open expression.
pub open spec fn open_model(e: OpenExpr) -> OpenTerm
    decreases e,
{
    match e {
        OpenExpr::OpenVar(v) => OpenTerm::Var(v@),
        OpenExpr::K(p) => OpenTerm::Community(point_name(p)),
        OpenExpr::IC(inner) => OpenTerm::InteriorComplement(Box::new(open_model(*inner))),
    }
}

/// The point `p` lies in the open set `o`.
pub open spec fn t_in(p: Seq<char>, o: OpenTerm) -> FormulaTerm {
    FormulaTerm::Atom(AtomTerm::PointInOpen(p, o))
}

/// The open sets `a` and `b` meet.
pub open spec fn t_meet(a: OpenTerm, b: OpenTerm) -> FormulaTerm {
    FormulaTerm::Atom(AtomTerm::OpenIntersection(a, b))
}

/// The open set `a` has a point.
pub open spec fn t_nonempty(a: OpenTerm) -> FormulaTerm {
    FormulaTerm::Atom(AtomTerm::OpenNonempty(a))
}

/// `a` and `b`.
pub open spec fn t_and(a: FormulaTerm, b: FormulaTerm) -> FormulaTerm {
    FormulaTerm::And(Box::new(a), Box::new(b))
}

/// `a` implies `b`.
pub open spec fn t_implies(a: FormulaTerm, b: FormulaTerm) -> FormulaTerm {
    FormulaTerm::Implies(Box::new(a), Box::new(b))
}

/// Not `a`.
pub open spec fn t_not(a: FormulaTerm) -> FormulaTerm {
    FormulaTerm::Not(Box::new(a))
}

/// `a` for every open set `v`.
pub open spec fn t_all_opens(v: Seq<char>, a: FormulaTerm) -> FormulaTerm {
    FormulaTerm::ForAllOpens(v, Box::new(a))
}

/// `a` for every point `v`.
pub open spec fn t_all_points(v: Seq<char>, a: FormulaTerm) -> FormulaTerm {
    FormulaTerm::ForAllPoints(v, Box::new(a))
}

/// `a` for some point `v`.
pub open spec fn t_some_point(v: Seq<char>, a: FormulaTerm) -> FormulaTerm {
    FormulaTerm::ExistsPoints(v, Box::new(a))
}

/// `p inter q`: every open set `O` of `p` meets every open set `P` of `q`.
/// Two fresh names.
pub open spec fn point_inter_term(p: Seq<char>, q: Seq<char>, k: nat) -> FormulaTerm {
    let o = fresh("O"@, k);
    let bp = fresh("P"@, k + 1);
    t_all_opens(
        o,
        t_all_opens(
            bp,
            t_implies(
                t_and(t_in(p, OpenTerm::Var(o)), t_in(q, OpenTerm::Var(bp))),
                t_meet(OpenTerm::Var(o), OpenTerm::Var(bp)),
            ),
        ),
    )
}

/// `transitive T`: open sets `O` and `P` that both meet `T` meet each other.
/// Two fresh names.
pub open spec fn transitive_term(t: OpenTerm, k: nat) -> FormulaTerm {
    let o = fresh("O"@, k);
    let p = fresh("P"@, k + 1);
    t_all_opens(
        o,
        t_all_opens(
            p,
            t_implies(
                t_and(t_meet(OpenTerm::Var(o), t), t_meet(t, OpenTerm::Var(p))),
                t_meet(OpenTerm::Var(o), OpenTerm::Var(p)),
            ),
        ),
    )
}

/// `topen T`: `T` is non-empty and transitive. Two fresh names.
pub open spec fn topen_term(t: OpenTerm, k: nat) -> FormulaTerm {
    t_and(t_nonempty(t), transitive_term(t, k))
}

/// `regular p`: the community of `p` is a transitive open set. Two fresh
/// names.
pub open spec fn regular_term(p: Seq<char>, k: nat) -> FormulaTerm {
    topen_term(OpenTerm::Community(p), k)
}

/// `indirectly_regular p`: `p` intersects some regular point `q`. Five fresh
/// names.
pub open spec fn indirectly_regular_term(p: Seq<char>, k: nat) -> FormulaTerm {
    let q = fresh("q"@, k);
    t_some_point(q, t_and(point_inter_term(p, q, k + 1), regular_term(q, k + 3)))
}

/// `hypertransitive p`: open sets `O` and `Q` meet where every open set `P`
/// of `p` meets both. Three fresh names.
pub open spec fn hypertransitive_term(p: Seq<char>, k: nat) -> FormulaTerm {
    let o = fresh("O"@, k);
    let q = fresh("Q"@, k + 1);
    let bp = fresh("P"@, k + 2);
    t_all_opens(
        o,
        t_all_opens(
            q,
            t_implies(
                t_all_opens(
                    bp,
                    t_implies(
                        t_in(p, OpenTerm::Var(bp)),
                        t_and(
                            t_meet(OpenTerm::Var(o), OpenTerm::Var(bp)),
                            t_meet(OpenTerm::Var(bp), OpenTerm::Var(q)),
                        ),
                    ),
                ),
                t_meet(OpenTerm::Var(o), OpenTerm::Var(q)),
            ),
        ),
    )
}

/// `unconflicted p`: points `x` and `y` that both intersect `p` intersect
/// each other. Eight fresh names.
pub open spec fn unconflicted_term(p: Seq<char>, k: nat) -> FormulaTerm {
    let x = fresh("x"@, k);
    let y = fresh("y"@, k + 1);
    t_all_points(
        x,
        t_all_points(
            y,
            t_implies(
                t_and(point_inter_term(x, p, k + 2), point_inter_term(p, y, k + 4)),
                point_inter_term(x, y, k + 6),
            ),
        ),
    )
}

/// The number of fresh names that the expansion of a macro takes.
pub open spec fn macro_fresh(m: MacroProp) -> nat {
    match m {
        MacroProp::TripleOpenInter(_, _, _) => 0,
        MacroProp::PointInter(_, _) => 2,
        MacroProp::TriplePointInter(_, _, _) => 4,
        MacroProp::Transitive(_) => 2,
        MacroProp::Topen(_) => 2,
        MacroProp::Regular(_) => 2,
        MacroProp::Irregular(_) => 2,
        MacroProp::WeaklyRegular(_) => 0,
        MacroProp::Quasiregular(_) => 0,
        MacroProp::IndirectlyRegular(_) => 5,
        MacroProp::Hypertransitive(_) => 3,
        MacroProp::Unconflicted(_) => 8,
        MacroProp::Conflicted(_) => 8,
        MacroProp::ConflictedSpace => 9,
        MacroProp::UnconflictedSpace => 9,
        MacroProp::RegularSpace => 3,
        MacroProp::IrregularSpace => 3,
        MacroProp::WeaklyRegularSpace => 1,
        MacroProp::QuasiregularSpace => 1,
        MacroProp::IndirectlyRegularSpace => 6,
        MacroProp::HypertransitiveSpace => 4,
    }
}

/// The formula that a macro stands for, where `k` fresh names were given out
/// before. A property of the whole space is the property of the point `p`,
/// for every point `p`.
pub open spec fn macro_term(m: MacroProp, k: nat) -> FormulaTerm {
    match m {
        MacroProp::TripleOpenInter(o, p, q) => t_and(
            t_meet(open_model(o), open_model(p)),
            t_meet(open_model(p), open_model(q)),
        ),
        MacroProp::PointInter(p, q) => point_inter_term(point_name(p), point_name(q), k),
        MacroProp::TriplePointInter(p, q, r) => t_and(
            point_inter_term(point_name(p), point_name(q), k),
            point_inter_term(point_name(q), point_name(r), k + 2),
        ),
        MacroProp::Transitive(t) => transitive_term(open_model(t), k),
        MacroProp::Topen(t) => topen_term(open_model(t), k),
        MacroProp::Regular(p) => regular_term(point_name(p), k),
        MacroProp::Irregular(p) => t_not(regular_term(point_name(p), k)),
        MacroProp::WeaklyRegular(p) => t_in(point_name(p), OpenTerm::Community(point_name(p))),
        MacroProp::Quasiregular(p) => t_nonempty(OpenTerm::Community(point_name(p))),
        MacroProp::IndirectlyRegular(p) => indirectly_regular_term(point_name(p), k),
        MacroProp::Hypertransitive(p) => hypertransitive_term(point_name(p), k),
        MacroProp::Unconflicted(p) => unconflicted_term(point_name(p), k),
        MacroProp::Conflicted(p) => t_not(unconflicted_term(point_name(p), k)),
        MacroProp::ConflictedSpace => t_all_points(
            fresh("p"@, k),
            t_not(unconflicted_term(fresh("p"@, k), k + 1)),
        ),
        MacroProp::UnconflictedSpace => t_all_points(
            fresh("p"@, k),
            unconflicted_term(fresh("p"@, k), k + 1),
        ),
        MacroProp::RegularSpace => t_all_points(
            fresh("p"@, k),
            regular_term(fresh("p"@, k), k + 1),
        ),
        MacroProp::IrregularSpace => t_all_points(
            fresh("p"@, k),
            t_not(regular_term(fresh("p"@, k), k + 1)),
        ),
        MacroProp::WeaklyRegularSpace => t_all_points(
            fresh("p"@, k),
            t_in(fresh("p"@, k), OpenTerm::Community(fresh("p"@, k))),
        ),
        MacroProp::QuasiregularSpace => t_all_points(
            fresh("p"@, k),
            t_nonempty(OpenTerm::Community(fresh("p"@, k))),
        ),
        MacroProp::IndirectlyRegularSpace => t_all_points(
            fresh("p"@, k),
            indirectly_regular_term(fresh("p"@, k), k + 1),
        ),
        MacroProp::HypertransitiveSpace => t_all_points(
            fresh("p"@, k),
            hypertransitive_term(fresh("p"@, k), k + 1),
        ),
    }
}

/// The formula of an atomic proposition.
pub open spec fn atomic_term(a: AtomicProp) -> FormulaTerm {
    match a {
        AtomicProp::PointInOpen(p, e) => t_in(point_name(p), open_model(e)),
        AtomicProp::OpenInter(a, b) => t_meet(open_model(a), open_model(b)),
        AtomicProp::Nonempty(e) => t_nonempty(open_model(e)),
        AtomicProp::PointNotEqual(p, q) => FormulaTerm::Atom(
            AtomTerm::PointNotEqual(point_name(p), point_name(q)),
        ),
        AtomicProp::OpenNotEqual(a, b) => FormulaTerm::Atom(
            AtomTerm::OpenNotEqual(open_model(a), open_model(b)),
        ),
        AtomicProp::PointEqual(p, q) => FormulaTerm::Atom(
            AtomTerm::PointEqual(point_name(p), point_name(q)),
        ),
        AtomicProp::OpenEqual(a, b) => FormulaTerm::Atom(
            AtomTerm::OpenEqual(open_model(a), open_model(b)),
        ),
    }
}

/// The number of fresh names that the expansion of a proposition takes.
pub open spec fn prop_fresh(prop: Prop) -> nat
    decreases prop,
{
    match prop {
        Prop::Logic(LogicProp::Quant(QuantProp::AP(_, p))) => prop_fresh(*p),
        Prop::Logic(LogicProp::Quant(QuantProp::EP(_, p))) => prop_fresh(*p),
        Prop::Logic(LogicProp::Quant(QuantProp::AO(_, p))) => prop_fresh(*p),
        Prop::Logic(LogicProp::Quant(QuantProp::EO(_, p))) => prop_fresh(*p),
        Prop::Logic(LogicProp::Binary(BinaryProp::And(l, r))) => prop_fresh(*l) + prop_fresh(*r),
        Prop::Logic(LogicProp::Binary(BinaryProp::Or(l, r))) => prop_fresh(*l) + prop_fresh(*r),
        Prop::Logic(LogicProp::Binary(BinaryProp::Implies(l, r))) => prop_fresh(*l) + prop_fresh(
            *r,
        ),
        Prop::Logic(LogicProp::Binary(BinaryProp::Iff(l, r))) => prop_fresh(*l) + prop_fresh(*r),
        Prop::Logic(LogicProp::Unary(UnaryProp::Not(p))) => prop_fresh(*p),
        Prop::Logic(LogicProp::Atomic(_)) => 0,
        Prop::Macro(m) => macro_fresh(m),
    }
}

/// The formula of the core logic that a proposition stands for, where `k`
/// fresh names were given out before: its macros expanded from left to
/// right, the rest kept as it is.
pub open spec fn expansion(prop: Prop, k: nat) -> FormulaTerm
    decreases prop,
{
    match prop {
        Prop::Logic(LogicProp::Quant(QuantProp::AP(v, p))) => FormulaTerm::ForAllPoints(
            v@,
            Box::new(expansion(*p, k)),
        ),
        Prop::Logic(LogicProp::Quant(QuantProp::EP(v, p))) => FormulaTerm::ExistsPoints(
            v@,
            Box::new(expansion(*p, k)),
        ),
        Prop::Logic(LogicProp::Quant(QuantProp::AO(v, p))) => FormulaTerm::ForAllOpens(
            v@,
            Box::new(expansion(*p, k)),
        ),
        Prop::Logic(LogicProp::Quant(QuantProp::EO(v, p))) => FormulaTerm::ExistsOpens(
            v@,
            Box::new(expansion(*p, k)),
        ),
        Prop::Logic(LogicProp::Binary(BinaryProp::And(l, r))) => FormulaTerm::And(
            Box::new(expansion(*l, k)),
            Box::new(expansion(*r, k + prop_fresh(*l))),
        ),
        Prop::Logic(LogicProp::Binary(BinaryProp::Or(l, r))) => FormulaTerm::Or(
            Box::new(expansion(*l, k)),
            Box::new(expansion(*r, k + prop_fresh(*l))),
        ),
        Prop::Logic(LogicProp::Binary(BinaryProp::Implies(l, r))) => FormulaTerm::Implies(
            Box::new(expansion(*l, k)),
            Box::new(expansion(*r, k + prop_fresh(*l))),
        ),
        Prop::Logic(LogicProp::Binary(BinaryProp::Iff(l, r))) => FormulaTerm::Iff(
            Box::new(expansion(*l, k)),
            Box::new(expansion(*r, k + prop_fresh(*l))),
        ),
        Prop::Logic(LogicProp::Unary(UnaryProp::Not(p))) => FormulaTerm::Not(
            Box::new(expansion(*p, k)),
        ),
        Prop::Logic(LogicProp::Atomic(a)) => atomic_term(a),
        Prop::Macro(m) => macro_term(m, k),
    }
}

/// The point `p` lies in the open set `o`.
fn mk_in(p: String, o: ModelOpenExpr) -> (f: Formula)
    ensures
        f@ == t_in(p@, o@),
{
    Formula::Atom(Atom::PointInOpen(p, o))
}

/// The open sets `a` and `b` meet.
fn mk_meet(a: ModelOpenExpr, b: ModelOpenExpr) -> (f: Formula)
    ensures
        f@ == t_meet(a@, b@),
{
    Formula::Atom(Atom::OpenIntersection(a, b))
}

/// The open set `a` has a point.
fn mk_nonempty(a: ModelOpenExpr) -> (f: Formula)
    ensures
        f@ == t_nonempty(a@),
{
    Formula::Atom(Atom::OpenNonempty(a))
}

/// `a` and `b`.
fn mk_and(a: Formula, b: Formula) -> (f: Formula)
    ensures
        f@ == t_and(a@, b@),
{
    Formula::And(Box::new(a), Box::new(b))
}

/// `a` implies `b`.
fn mk_implies(a: Formula, b: Formula) -> (f: Formula)
    ensures
        f@ == t_implies(a@, b@),
{
    Formula::Implies(Box::new(a), Box::new(b))
}

/// Not `a`.
fn mk_not(a: Formula) -> (f: Formula)
    ensures
        f@ == t_not(a@),
{
    Formula::Not(Box::new(a))
}

/// `a` for every open set `v`.
fn mk_all_opens(v: String, a: Formula) -> (f: Formula)
    ensures
        f@ == t_all_opens(v@, a@),
{
    Formula::ForAllOpens(v, Box::new(a))
}

/// `a` for every point `v`.
fn mk_all_points(v: String, a: Formula) -> (f: Formula)
    ensures
        f@ == t_all_points(v@, a@),
{
    Formula::ForAllPoints(v, Box::new(a))
}

/// `a` for some point `v`.
fn mk_some_point(v: String, a: Formula) -> (f: Formula)
    ensures
        f@ == t_some_point(v@, a@),
{
    Formula::ExistsPoints(v, Box::new(a))
}

/// What an expansion says where its fresh names cannot be numbered.
pub open spec fn exhausted_text() -> Seq<char> {
    "the fresh names cannot be numbered any further"@
}

/// How many expansions a macro goes through before it is a formula.
pub open spec fn rank(m: MacroProp) -> nat {
    match m {
        MacroProp::TripleOpenInter(_, _, _) => 0,
        MacroProp::PointInter(_, _) => 0,
        MacroProp::TriplePointInter(_, _, _) => 1,
        MacroProp::Transitive(_) => 0,
        MacroProp::Topen(_) => 1,
        MacroProp::Regular(_) => 2,
        MacroProp::Irregular(_) => 3,
        MacroProp::WeaklyRegular(_) => 0,
        MacroProp::Quasiregular(_) => 0,
        MacroProp::IndirectlyRegular(_) => 3,
        MacroProp::Hypertransitive(_) => 0,
        MacroProp::Unconflicted(_) => 1,
        MacroProp::Conflicted(_) => 2,
        MacroProp::ConflictedSpace => 3,
        MacroProp::UnconflictedSpace => 2,
        MacroProp::RegularSpace => 3,
        MacroProp::IrregularSpace => 4,
        MacroProp::WeaklyRegularSpace => 1,
        MacroProp::QuasiregularSpace => 1,
        MacroProp::IndirectlyRegularSpace => 4,
        MacroProp::HypertransitiveSpace => 1,
    }
}

/// Expands macros, and numbers the fresh names that it gives out.
pub struct MacroExpander {
    fresh_var_counter: usize,
}

impl MacroExpander {
    /// The number of fresh names given out so far.
    pub closed spec fn counter(&self) -> nat {
        self.fresh_var_counter as nat
    }

    /// An expander that has given out no name.
    pub fn new() -> (expander: MacroExpander)
        ensures
            expander.counter() == 0,
    {
        MacroExpander { fresh_var_counter: 0 }
    }

    /// What is returned where the names cannot be numbered any further.
    fn exhausted() -> (text: String)
        ensures
            text@ == exhausted_text(),
    {
        String::from_str("the fresh names cannot be numbered any further")
    }

    /// A fresh name with the base `base`; `None` where the number of names
    /// cannot be counted any further.
    pub fn fresh_var(&mut self, base: &str) -> (r: Option<String>)
        ensures
            r is Some <==> old(self).counter() + 1 <= usize::MAX,
            r matches Some(name) ==> name@ == fresh(base@, old(self).counter())
                && final(self).counter() == old(self).counter() + 1,
            r is None ==> final(self).counter() == old(self).counter(),
    {
        if self.fresh_var_counter == usize::MAX {
            return None;
        }
        let mut result = String::from_str(base);
        result.append("_");
        proof {
            reveal_strlit("_");
            assert("_"@ =~= seq!['_']);
        }
        push_decimal(&mut result, self.fresh_var_counter);
        self.fresh_var_counter = self.fresh_var_counter + 1;
        proof {
            assert(result@ =~= fresh(base@, old(self).counter()));
        }
        Some(result)
    }

    /// The formula of the core logic that `prop` stands for. It fails where
    /// its fresh names cannot all be numbered.
    pub fn expand(&mut self, prop: Prop) -> (r: Result<Formula, String>)
        ensures
            r is Ok <==> old(self).counter() + prop_fresh(prop) <= usize::MAX,
            r matches Err(text) ==> text@ == exhausted_text(),
            r matches Ok(f) ==> f@ == expansion(prop, old(self).counter()) && final(self).counter()
                == old(self).counter() + prop_fresh(prop),
        decreases prop, 4nat,
    {
        match prop {
            Prop::Logic(logic_prop) => self.expand_logic_prop(logic_prop),
            Prop::Macro(macro_prop) => self.expand_macro_prop(macro_prop),
        }
    }

    /// The formula that a proposition of the core logic stands for.
    fn expand_logic_prop(&mut self, logic_prop: LogicProp) -> (r: Result<Formula, String>)
        ensures
            r is Ok <==> old(self).counter() + prop_fresh(Prop::Logic(logic_prop)) <= usize::MAX,
            r matches Err(text) ==> text@ == exhausted_text(),
            r matches Ok(f) ==> f@ == expansion(Prop::Logic(logic_prop), old(self).counter())
                && final(self).counter() == old(self).counter() + prop_fresh(
                Prop::Logic(logic_prop),
            ),
        decreases logic_prop, 3nat,
    {
        match logic_prop {
            LogicProp::Quant(quant) => self.expand_quant_prop(quant),
            LogicProp::Binary(binary) => self.expand_binary_prop(binary),
            LogicProp::Unary(unary) => self.expand_unary_prop(unary),
            LogicProp::Atomic(atomic) => self.expand_atomic_prop(atomic),
        }
    }

    /// The formula that a quantified proposition stands for.
    fn expand_quant_prop(&mut self, quant: QuantProp) -> (r: Result<Formula, String>)
        ensures
            r is Ok <==> old(self).counter() + prop_fresh(Prop::Logic(LogicProp::Quant(quant)))
                <= usize::MAX,
            r matches Err(text) ==> text@ == exhausted_text(),
            r matches Ok(f) ==> f@ == expansion(
                Prop::Logic(LogicProp::Quant(quant)),
                old(self).counter(),
            ) && final(self).counter() == old(self).counter() + prop_fresh(
                Prop::Logic(LogicProp::Quant(quant)),
            ),
        decreases quant, 2nat,
    {
        match quant {
            QuantProp::AP(var, prop) => {
                match self.expand(*prop) {
                    Ok(inner) => Ok(Formula::ForAllPoints(var, Box::new(inner))),
                    Err(e) => Err(e),
                }
            },
            QuantProp::EP(var, prop) => {
                match self.expand(*prop) {
                    Ok(inner) => Ok(Formula::ExistsPoints(var, Box::new(inner))),
                    Err(e) => Err(e),
                }
            },
            QuantProp::AO(var, prop) => {
                match self.expand(*prop) {
                    Ok(inner) => Ok(Formula::ForAllOpens(var, Box::new(inner))),
                    Err(e) => Err(e),
                }
            },
            QuantProp::EO(var, prop) => {
                match self.expand(*prop) {
                    Ok(inner) => Ok(Formula::ExistsOpens(var, Box::new(inner))),
                    Err(e) => Err(e),
                }
            },
        }
    }

    /// The formula that two joined propositions stand for.
    fn expand_binary_prop(&mut self, binary: BinaryProp) -> (r: Result<Formula, String>)
        ensures
            r is Ok <==> old(self).counter() + prop_fresh(Prop::Logic(LogicProp::Binary(binary)))
                <= usize::MAX,
            r matches Err(text) ==> text@ == exhausted_text(),
            r matches Ok(f) ==> f@ == expansion(
                Prop::Logic(LogicProp::Binary(binary)),
                old(self).counter(),
            ) && final(self).counter() == old(self).counter() + prop_fresh(
                Prop::Logic(LogicProp::Binary(binary)),
            ),
        decreases binary, 2nat,
    {
        match binary {
            BinaryProp::And(left, right) => {
                let left_expanded = match self.expand(*left) {
                    Ok(f) => f,
                    Err(e) => {
                        return Err(e);
                    },
                };
                let right_expanded = match self.expand(*right) {
                    Ok(f) => f,
                    Err(e) => {
                        return Err(e);
                    },
                };
                Ok(Formula::And(Box::new(left_expanded), Box::new(right_expanded)))
            },
            BinaryProp::Or(left, right) => {
                let left_expanded = match self.expand(*left) {
                    Ok(f) => f,
                    Err(e) => {
                        return Err(e);
                    },
                };
                let right_expanded = match self.expand(*right) {
                    Ok(f) => f,
                    Err(e) => {
                        return Err(e);
                    },
                };
                Ok(Formula::Or(Box::new(left_expanded), Box::new(right_expanded)))
            },
            BinaryProp::Implies(left, right) => {
                let left_expanded = match self.expand(*left) {
                    Ok(f) => f,
                    Err(e) => {
                        return Err(e);
                    },
                };
                let right_expanded = match self.expand(*right) {
                    Ok(f) => f,
                    Err(e) => {
                        return Err(e);
                    },
                };
                Ok(Formula::Implies(Box::new(left_expanded), Box::new(right_expanded)))
            },
            BinaryProp::Iff(left, right) => {
                let left_expanded = match self.expand(*left) {
                    Ok(f) => f,
                    Err(e) => {
                        return Err(e);
                    },
                };
                let right_expanded = match self.expand(*right) {
                    Ok(f) => f,
                    Err(e) => {
                        return Err(e);
                    },
                };
                Ok(Formula::Iff(Box::new(left_expanded), Box::new(right_expanded)))
            },
        }
    }

    /// The formula that a negated proposition stands for.
    fn expand_unary_prop(&mut self, unary: UnaryProp) -> (r: Result<Formula, String>)
        ensures
            r is Ok <==> old(self).counter() + prop_fresh(Prop::Logic(LogicProp::Unary(unary)))
                <= usize::MAX,
            r matches Err(text) ==> text@ == exhausted_text(),
            r matches Ok(f) ==> f@ == expansion(
                Prop::Logic(LogicProp::Unary(unary)),
                old(self).counter(),
            ) && final(self).counter() == old(self).counter() + prop_fresh(
                Prop::Logic(LogicProp::Unary(unary)),
            ),
        decreases unary, 2nat,
    {
        match unary {
            UnaryProp::Not(prop) => {
                match self.expand(*prop) {
                    Ok(inner) => Ok(Formula::Not(Box::new(inner))),
                    Err(e) => Err(e),
                }
            },
        }
    }

    /// The formula of an atomic proposition.
    fn expand_atomic_prop(&mut self, atomic: AtomicProp) -> (r: Result<Formula, String>)
        ensures
            r matches Ok(f) && f@ == atomic_term(atomic),
            final(self).counter() == old(self).counter(),
    {
        match atomic {
            AtomicProp::PointInOpen(point_expr, open_expr) => {
                let point_id = self.extract_point_id(point_expr);
                let model_open = self.convert_open_expr_to_model(open_expr);
                Ok(Formula::Atom(Atom::PointInOpen(point_id, model_open)))
            },
            AtomicProp::OpenInter(open1, open2) => {
                let model_open1 = self.convert_open_expr_to_model(open1);
                let model_open2 = self.convert_open_expr_to_model(open2);
                Ok(Formula::Atom(Atom::OpenIntersection(model_open1, model_open2)))
            },
            AtomicProp::Nonempty(open_expr) => {
                let model_open = self.convert_open_expr_to_model(open_expr);
                Ok(Formula::Atom(Atom::OpenNonempty(model_open)))
            },
            AtomicProp::PointNotEqual(point_expr1, point_expr2) => {
                let point_id1 = self.extract_point_id(point_expr1);
                let point_id2 = self.extract_point_id(point_expr2);
                Ok(Formula::Atom(Atom::PointNotEqual(point_id1, point_id2)))
            },
            AtomicProp::OpenNotEqual(open_expr1, open_expr2) => {
                let model_open1 = self.convert_open_expr_to_model(open_expr1);
                let model_open2 = self.convert_open_expr_to_model(open_expr2);
                Ok(Formula::Atom(Atom::OpenNotEqual(model_open1, model_open2)))
            },
            AtomicProp::PointEqual(point_expr1, point_expr2) => {
                let point_id1 = self.extract_point_id(point_expr1);
                let point_id2 = self.extract_point_id(point_expr2);
                Ok(Formula::Atom(Atom::PointEqual(point_id1, point_id2)))
            },
            AtomicProp::OpenEqual(open_expr1, open_expr2) => {
                let model_open1 = self.convert_open_expr_to_model(open_expr1);
                let model_open2 = self.convert_open_expr_to_model(open_expr2);
                Ok(Formula::Atom(Atom::OpenEqual(model_open1, model_open2)))
            },
        }
    }

    /// The name of a point expression.
    fn extract_point_id(&self, point_expr: PointExpr) -> (name: String)
        ensures
            name@ == point_name(point_expr),
    {
        match point_expr {
            PointExpr::PointVar(var) => var,
        }
    }

    /// The open expression of the formula language for `open_expr`.
    fn convert_open_expr_to_model(&self, open_expr: OpenExpr) -> (model: ModelOpenExpr)
        ensures
            model@ == open_model(open_expr),
        decreases open_expr,
    {
        match open_expr {
            OpenExpr::OpenVar(var) => ModelOpenExpr::Var(var),
            OpenExpr::K(point_expr) => {
                let point_var = self.extract_point_id(point_expr);
                ModelOpenExpr::Community(point_var)
            },
            OpenExpr::IC(inner_expr) => {
                let inner_model = self.convert_open_expr_to_model(*inner_expr);
                ModelOpenExpr::InteriorComplement(Box::new(inner_model))
            },
        }
    }

    /// The open variable `var` as an open expression.
    fn var_to_model_open(&self, var: String) -> (model: ModelOpenExpr)
        ensures
            model@ == OpenTerm::Var(var@),
    {
        ModelOpenExpr::Var(var)
    }

    /// The formula that `macro_prop` stands for.
    fn expand_macro_prop(&mut self, macro_prop: MacroProp) -> (r: Result<Formula, String>)
        ensures
            r is Ok <==> old(self).counter() + macro_fresh(macro_prop) <= usize::MAX,
            r matches Err(text) ==> text@ == exhausted_text(),
            r matches Ok(f) ==> f@ == macro_term(macro_prop, old(self).counter())
                && final(self).counter() == old(self).counter() + macro_fresh(macro_prop),
        decreases rank(macro_prop),
    {
        match macro_prop {
            MacroProp::TripleOpenInter(o, p, q) => {
                let o_model = self.convert_open_expr_to_model(o);
                let p_model = self.convert_open_expr_to_model(p);
                let q_model = self.convert_open_expr_to_model(q);
                let inter1 = mk_meet(o_model, p_model.clone());
                let inter2 = mk_meet(p_model, q_model);
                Ok(mk_and(inter1, inter2))
            },
            MacroProp::PointInter(p, q) => {
                let p_var = self.extract_point_id(p);
                let q_var = self.extract_point_id(q);
                let o_var = match self.fresh_var("O") {
                    Some(v) => v,
                    None => {
                        return Err(Self::exhausted());
                    },
                };
                let big_p_var = match self.fresh_var("P") {
                    Some(v) => v,
                    None => {
                        return Err(Self::exhausted());
                    },
                };
                let p_in_o = mk_in(p_var, self.var_to_model_open(o_var.clone()));
                let q_in_p = mk_in(q_var, self.var_to_model_open(big_p_var.clone()));
                let o_inter_p = mk_meet(
                    self.var_to_model_open(o_var.clone()),
                    self.var_to_model_open(big_p_var.clone()),
                );
                let premise = mk_and(p_in_o, q_in_p);
                let implication = mk_implies(premise, o_inter_p);
                let inner_forall = mk_all_opens(big_p_var, implication);
                Ok(mk_all_opens(o_var, inner_forall))
            },
            MacroProp::TriplePointInter(p, q, r) => {
                let p_inter_q = match self.expand_macro_prop(MacroProp::PointInter(p, q.clone())) {
                    Ok(f) => f,
                    Err(e) => {
                        return Err(e);
                    },
                };
                let q_inter_r = match self.expand_macro_prop(MacroProp::PointInter(q, r)) {
                    Ok(f) => f,
                    Err(e) => {
                        return Err(e);
                    },
                };
                Ok(mk_and(p_inter_q, q_inter_r))
            },
            MacroProp::Transitive(t_expr) => {
                let t_model = self.convert_open_expr_to_model(t_expr);
                let o_var = match self.fresh_var("O") {
                    Some(v) => v,
                    None => {
                        return Err(Self::exhausted());
                    },
                };
                let p_var = match self.fresh_var("P") {
                    Some(v) => v,
                    None => {
                        return Err(Self::exhausted());
                    },
                };
                let o_inter_t = mk_meet(self.var_to_model_open(o_var.clone()), t_model.clone());
                let t_inter_p = mk_meet(t_model, self.var_to_model_open(p_var.clone()));
                let o_inter_p = mk_meet(
                    self.var_to_model_open(o_var.clone()),
                    self.var_to_model_open(p_var.clone()),
                );
                let premise = mk_and(o_inter_t, t_inter_p);
                let implication = mk_implies(premise, o_inter_p);
                let inner_forall = mk_all_opens(p_var, implication);
                Ok(mk_all_opens(o_var, inner_forall))
            },
            MacroProp::Topen(t_expr) => {
                let t_model = self.convert_open_expr_to_model(t_expr.clone());
                let nonempty_t = mk_nonempty(t_model);
                let transitive_t = match self.expand_macro_prop(MacroProp::Transitive(t_expr)) {
                    Ok(f) => f,
                    Err(e) => {
                        return Err(e);
                    },
                };
                Ok(mk_and(nonempty_t, transitive_t))
            },
            MacroProp::Regular(p_expr) => {
                let p_var = self.extract_point_id(p_expr);
                let k_p_expr = OpenExpr::K(PointExpr::PointVar(p_var));
                self.expand_macro_prop(MacroProp::Topen(k_p_expr))
            },
            MacroProp::Irregular(p_expr) => {
                match self.expand_macro_prop(MacroProp::Regular(p_expr)) {
                    Ok(regular_p) => Ok(mk_not(regular_p)),
                    Err(e) => Err(e),
                }
            },
            MacroProp::WeaklyRegular(p_expr) => {
                let p_var = self.extract_point_id(p_expr);
                let k_p = ModelOpenExpr::Community(p_var.clone());
                Ok(mk_in(p_var, k_p))
            },
            MacroProp::Quasiregular(p_expr) => {
                let k_p_expr = OpenExpr::K(p_expr);
                self.expand_atomic_prop(AtomicProp::Nonempty(k_p_expr))
            },
            MacroProp::IndirectlyRegular(p_expr) => {
                let p_var = self.extract_point_id(p_expr);
                let q_var = match self.fresh_var("q") {
                    Some(v) => v,
                    None => {
                        return Err(Self::exhausted());
                    },
                };
                let p_inter_q = match self.expand_macro_prop(
                    MacroProp::PointInter(
                        PointExpr::PointVar(p_var),
                        PointExpr::PointVar(q_var.clone()),
                    ),
                ) {
                    Ok(f) => f,
                    Err(e) => {
                        return Err(e);
                    },
                };
                let regular_q = match self.expand_macro_prop(
                    MacroProp::Regular(PointExpr::PointVar(q_var.clone())),
                ) {
                    Ok(f) => f,
                    Err(e) => {
                        return Err(e);
                    },
                };
                let premise = mk_and(p_inter_q, regular_q);
                Ok(mk_some_point(q_var, premise))
            },
            MacroProp::Hypertransitive(p_expr) => {
                let p_var = self.extract_point_id(p_expr);
                let o_var = match self.fresh_var("O") {
                    Some(v) => v,
                    None => {
                        return Err(Self::exhausted());
                    },
                };
                let q_var = match self.fresh_var("Q") {
                    Some(v) => v,
                    None => {
                        return Err(Self::exhausted());
                    },
                };
                let big_p_var = match self.fresh_var("P") {
                    Some(v) => v,
                    None => {
                        return Err(Self::exhausted());
                    },
                };
                let p_in_p = mk_in(p_var, self.var_to_model_open(big_p_var.clone()));
                let o_inter_p = mk_meet(
                    self.var_to_model_open(o_var.clone()),
                    self.var_to_model_open(big_p_var.clone()),
                );
                let p_inter_q = mk_meet(
                    self.var_to_model_open(big_p_var.clone()),
                    self.var_to_model_open(q_var.clone()),
                );
                let o_inter_p_inter_q = mk_and(o_inter_p, p_inter_q);
                let inner_impl = mk_implies(p_in_p, o_inter_p_inter_q);
                let forall_p = mk_all_opens(big_p_var, inner_impl);
                let o_inter_q = mk_meet(
                    self.var_to_model_open(o_var.clone()),
                    self.var_to_model_open(q_var.clone()),
                );
                let outer_impl = mk_implies(forall_p, o_inter_q);
                let forall_q = mk_all_opens(q_var, outer_impl);
                Ok(mk_all_opens(o_var, forall_q))
            },
            MacroProp::Unconflicted(p_expr) => {
                let p_var = self.extract_point_id(p_expr);
                let x_var = match self.fresh_var("x") {
                    Some(v) => v,
                    None => {
                        return Err(Self::exhausted());
                    },
                };
                let y_var = match self.fresh_var("y") {
                    Some(v) => v,
                    None => {
                        return Err(Self::exhausted());
                    },
                };
                let x_inter_p = match self.expand_macro_prop(
                    MacroProp::PointInter(
                        PointExpr::PointVar(x_var.clone()),
                        PointExpr::PointVar(p_var.clone()),
                    ),
                ) {
                    Ok(f) => f,
                    Err(e) => {
                        return Err(e);
                    },
                };
                let p_inter_y = match self.expand_macro_prop(
                    MacroProp::PointInter(
                        PointExpr::PointVar(p_var.clone()),
                        PointExpr::PointVar(y_var.clone()),
                    ),
                ) {
                    Ok(f) => f,
                    Err(e) => {
                        return Err(e);
                    },
                };
                let x_inter_y = match self.expand_macro_prop(
                    MacroProp::PointInter(
                        PointExpr::PointVar(x_var.clone()),
                        PointExpr::PointVar(y_var.clone()),
                    ),
                ) {
                    Ok(f) => f,
                    Err(e) => {
                        return Err(e);
                    },
                };
                let premise = mk_and(x_inter_p, p_inter_y);
                let implication = mk_implies(premise, x_inter_y);
                let forall_y = mk_all_points(y_var, implication);
                Ok(mk_all_points(x_var, forall_y))
            },
            MacroProp::Conflicted(p_expr) => {
                match self.expand_macro_prop(MacroProp::Unconflicted(p_expr)) {
                    Ok(unconflicted_p) => Ok(mk_not(unconflicted_p)),
                    Err(e) => Err(e),
                }
            },
            MacroProp::ConflictedSpace => {
                let p_var = match self.fresh_var("p") {
                    Some(v) => v,
                    None => {
                        return Err(Self::exhausted());
                    },
                };
                match self.expand_macro_prop(
                    MacroProp::Conflicted(PointExpr::PointVar(p_var.clone())),
                ) {
                    Ok(inner) => Ok(mk_all_points(p_var, inner)),
                    Err(e) => Err(e),
                }
            },
            MacroProp::UnconflictedSpace => {
                let p_var = match self.fresh_var("p") {
                    Some(v) => v,
                    None => {
                        return Err(Self::exhausted());
                    },
                };
                match self.expand_macro_prop(
                    MacroProp::Unconflicted(PointExpr::PointVar(p_var.clone())),
                ) {
                    Ok(inner) => Ok(mk_all_points(p_var, inner)),
                    Err(e) => Err(e),
                }
            },
            MacroProp::RegularSpace => {
                let p_var = match self.fresh_var("p") {
                    Some(v) => v,
                    None => {
                        return Err(Self::exhausted());
                    },
                };
                match self.expand_macro_prop(MacroProp::Regular(PointExpr::PointVar(p_var.clone()))) {
                    Ok(inner) => Ok(mk_all_points(p_var, inner)),
                    Err(e) => Err(e),
                }
            },
            MacroProp::IrregularSpace => {
                let p_var = match self.fresh_var("p") {
                    Some(v) => v,
                    None => {
                        return Err(Self::exhausted());
                    },
                };
                match self.expand_macro_prop(
                    MacroProp::Irregular(PointExpr::PointVar(p_var.clone())),
                ) {
                    Ok(inner) => Ok(mk_all_points(p_var, inner)),
                    Err(e) => Err(e),
                }
            },
            MacroProp::WeaklyRegularSpace => {
                let p_var = match self.fresh_var("p") {
                    Some(v) => v,
                    None => {
                        return Err(Self::exhausted());
                    },
                };
                match self.expand_macro_prop(
                    MacroProp::WeaklyRegular(PointExpr::PointVar(p_var.clone())),
                ) {
                    Ok(inner) => Ok(mk_all_points(p_var, inner)),
                    Err(e) => Err(e),
                }
            },
            MacroProp::QuasiregularSpace => {
                let p_var = match self.fresh_var("p") {
                    Some(v) => v,
                    None => {
                        return Err(Self::exhausted());
                    },
                };
                match self.expand_macro_prop(
                    MacroProp::Quasiregular(PointExpr::PointVar(p_var.clone())),
                ) {
                    Ok(inner) => Ok(mk_all_points(p_var, inner)),
                    Err(e) => Err(e),
                }
            },
            MacroProp::IndirectlyRegularSpace => {
                let p_var = match self.fresh_var("p") {
                    Some(v) => v,
                    None => {
                        return Err(Self::exhausted());
                    },
                };
                match self.expand_macro_prop(
                    MacroProp::IndirectlyRegular(PointExpr::PointVar(p_var.clone())),
                ) {
                    Ok(inner) => Ok(mk_all_points(p_var, inner)),
                    Err(e) => Err(e),
                }
            },
            MacroProp::HypertransitiveSpace => {
                let p_var = match self.fresh_var("p") {
                    Some(v) => v,
                    None => {
                        return Err(Self::exhausted());
                    },
                };
                match self.expand_macro_prop(
                    MacroProp::Hypertransitive(PointExpr::PointVar(p_var.clone())),
                ) {
                    Ok(inner) => Ok(mk_all_points(p_var, inner)),
                    Err(e) => Err(e),
                }
            },
        }
    }
}

} // verus!

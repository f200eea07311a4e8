//! A model checker for formulas over the points and the open sets of a
//! family.

use crate::bits::{
    full, full_mask, has_bit, lemma_union_mask_empty, lemma_union_mask_insert, single_bit,
    test_bit, union_mask,
};
use crate::family::{members, sorted, Family};
use std::collections::HashMap;
use vstd::prelude::*;

verus! {

/// An expression that stands for an open set.
#[derive(Debug, PartialEq)]
pub enum OpenExpr {
    /// An open variable.
    Var(String),
    /// The community of a point.
    Community(String),
    /// The interior complement of an open expression.
    InteriorComplement(Box<OpenExpr>),
}

/// An atomic proposition.
#[derive(Debug, PartialEq)]
pub enum Atom {
    /// A point lies in an open set.
    PointInOpen(String, OpenExpr),
    /// Two open sets meet.
    OpenIntersection(OpenExpr, OpenExpr),
    /// An open set has a point.
    OpenNonempty(OpenExpr),
    /// Two point variables name one point.
    PointEqual(String, String),
    /// Two point variables name different points.
    PointNotEqual(String, String),
    /// Two open expressions stand for one open set.
    OpenEqual(OpenExpr, OpenExpr),
    /// Two open expressions stand for different open sets.
    OpenNotEqual(OpenExpr, OpenExpr),
}

/// A formula.
#[derive(Debug, PartialEq)]
pub enum Formula {
    /// An atomic proposition.
    Atom(Atom),
    /// Negation.
    Not(Box<Formula>),
    /// Conjunction.
    And(Box<Formula>, Box<Formula>),
    /// Disjunction.
    Or(Box<Formula>, Box<Formula>),
    /// Implication.
    Implies(Box<Formula>, Box<Formula>),
    /// Equivalence.
    Iff(Box<Formula>, Box<Formula>),
    /// For every point.
    ForAllPoints(String, Box<Formula>),
    /// For some point.
    ExistsPoints(String, Box<Formula>),
    /// For every open set.
    ForAllOpens(String, Box<Formula>),
    /// For some open set.
    ExistsOpens(String, Box<Formula>),
}

/// An open expression with its names as sequences of characters.
pub enum OpenTerm {
    Var(Seq<char>),
    Community(Seq<char>),
    InteriorComplement(Box<OpenTerm>),
}

/// An atomic proposition with its names as sequences of characters.
pub enum AtomTerm {
    PointInOpen(Seq<char>, OpenTerm),
    OpenIntersection(OpenTerm, OpenTerm),
    OpenNonempty(OpenTerm),
    PointEqual(Seq<char>, Seq<char>),
    PointNotEqual(Seq<char>, Seq<char>),
    OpenEqual(OpenTerm, OpenTerm),
    OpenNotEqual(OpenTerm, OpenTerm),
}

/// A formula with its names as sequences of characters.
pub enum FormulaTerm {
    Atom(AtomTerm),
    Not(Box<FormulaTerm>),
    And(Box<FormulaTerm>, Box<FormulaTerm>),
    Or(Box<FormulaTerm>, Box<FormulaTerm>),
    Implies(Box<FormulaTerm>, Box<FormulaTerm>),
    Iff(Box<FormulaTerm>, Box<FormulaTerm>),
    ForAllPoints(Seq<char>, Box<FormulaTerm>),
    ExistsPoints(Seq<char>, Box<FormulaTerm>),
    ForAllOpens(Seq<char>, Box<FormulaTerm>),
    ExistsOpens(Seq<char>, Box<FormulaTerm>),
}

/// The term of an open expression.
pub open spec fn open_term(e: OpenExpr) -> OpenTerm
    decreases e,
{
    match e {
        OpenExpr::Var(v) => OpenTerm::Var(v@),
        OpenExpr::Community(p) => OpenTerm::Community(p@),
        OpenExpr::InteriorComplement(inner) => OpenTerm::InteriorComplement(
            Box::new(open_term(*inner)),
        ),
    }
}

/// The term of an atomic proposition.
pub open spec fn atom_term(a: Atom) -> AtomTerm {
    match a {
        Atom::PointInOpen(p, e) => AtomTerm::PointInOpen(p@, open_term(e)),
        Atom::OpenIntersection(a, b) => AtomTerm::OpenIntersection(open_term(a), open_term(b)),
        Atom::OpenNonempty(e) => AtomTerm::OpenNonempty(open_term(e)),
        Atom::PointEqual(p, q) => AtomTerm::PointEqual(p@, q@),
        Atom::PointNotEqual(p, q) => AtomTerm::PointNotEqual(p@, q@),
        Atom::OpenEqual(a, b) => AtomTerm::OpenEqual(open_term(a), open_term(b)),
        Atom::OpenNotEqual(a, b) => AtomTerm::OpenNotEqual(open_term(a), open_term(b)),
    }
}

/// The term of a formula.
pub open spec fn formula_term(f: Formula) -> FormulaTerm
    decreases f,
{
    match f {
        Formula::Atom(a) => FormulaTerm::Atom(atom_term(a)),
        Formula::Not(g) => FormulaTerm::Not(Box::new(formula_term(*g))),
        Formula::And(g, h) => FormulaTerm::And(
            Box::new(formula_term(*g)),
            Box::new(formula_term(*h)),
        ),
        Formula::Or(g, h) => FormulaTerm::Or(
            Box::new(formula_term(*g)),
            Box::new(formula_term(*h)),
        ),
        Formula::Implies(g, h) => FormulaTerm::Implies(
            Box::new(formula_term(*g)),
            Box::new(formula_term(*h)),
        ),
        Formula::Iff(g, h) => FormulaTerm::Iff(
            Box::new(formula_term(*g)),
            Box::new(formula_term(*h)),
        ),
        Formula::ForAllPoints(v, g) => FormulaTerm::ForAllPoints(v@, Box::new(formula_term(*g))),
        Formula::ExistsPoints(v, g) => FormulaTerm::ExistsPoints(v@, Box::new(formula_term(*g))),
        Formula::ForAllOpens(v, g) => FormulaTerm::ForAllOpens(v@, Box::new(formula_term(*g))),
        Formula::ExistsOpens(v, g) => FormulaTerm::ExistsOpens(v@, Box::new(formula_term(*g))),
    }
}

impl Clone for OpenExpr {
    fn clone(&self) -> (r: Self)
        ensures
            r == *self,
        decreases self,
    {
        match self {
            OpenExpr::Var(v) => OpenExpr::Var(v.clone()),
            OpenExpr::Community(p) => OpenExpr::Community(p.clone()),
            OpenExpr::InteriorComplement(inner) => OpenExpr::InteriorComplement(
                Box::new((&**inner).clone()),
            ),
        }
    }
}

impl Clone for Atom {
    fn clone(&self) -> (r: Self)
        ensures
            r == *self,
    {
        match self {
            Atom::PointInOpen(p, e) => Atom::PointInOpen(p.clone(), e.clone()),
            Atom::OpenIntersection(a, b) => Atom::OpenIntersection(a.clone(), b.clone()),
            Atom::OpenNonempty(e) => Atom::OpenNonempty(e.clone()),
            Atom::PointEqual(p, q) => Atom::PointEqual(p.clone(), q.clone()),
            Atom::PointNotEqual(p, q) => Atom::PointNotEqual(p.clone(), q.clone()),
            Atom::OpenEqual(a, b) => Atom::OpenEqual(a.clone(), b.clone()),
            Atom::OpenNotEqual(a, b) => Atom::OpenNotEqual(a.clone(), b.clone()),
        }
    }
}

impl Clone for Formula {
    fn clone(&self) -> (r: Self)
        ensures
            r == *self,
        decreases self,
    {
        match self {
            Formula::Atom(a) => Formula::Atom(a.clone()),
            Formula::Not(g) => Formula::Not(Box::new((&**g).clone())),
            Formula::And(g, h) => Formula::And(
                Box::new((&**g).clone()),
                Box::new((&**h).clone()),
            ),
            Formula::Or(g, h) => Formula::Or(Box::new((&**g).clone()), Box::new((&**h).clone())),
            Formula::Implies(g, h) => Formula::Implies(
                Box::new((&**g).clone()),
                Box::new((&**h).clone()),
            ),
            Formula::Iff(g, h) => Formula::Iff(
                Box::new((&**g).clone()),
                Box::new((&**h).clone()),
            ),
            Formula::ForAllPoints(v, g) => Formula::ForAllPoints(
                v.clone(),
                Box::new((&**g).clone()),
            ),
            Formula::ExistsPoints(v, g) => Formula::ExistsPoints(
                v.clone(),
                Box::new((&**g).clone()),
            ),
            Formula::ForAllOpens(v, g) => Formula::ForAllOpens(
                v.clone(),
                Box::new((&**g).clone()),
            ),
            Formula::ExistsOpens(v, g) => Formula::ExistsOpens(
                v.clone(),
                Box::new((&**g).clone()),
            ),
        }
    }
}

impl View for OpenExpr {
    type V = OpenTerm;

    open spec fn view(&self) -> OpenTerm {
        open_term(*self)
    }
}

impl View for Atom {
    type V = AtomTerm;

    open spec fn view(&self) -> AtomTerm {
        atom_term(*self)
    }
}

impl View for Formula {
    type V = FormulaTerm;

    open spec fn view(&self) -> FormulaTerm {
        formula_term(*self)
    }
}

/// The value that the last binding of `name` in `bindings` gives it.
pub open spec fn bound<T>(bindings: Seq<(String, T)>, name: Seq<char>) -> Option<T>
    decreases bindings.len(),
{
    if bindings.len() == 0 {
        None
    } else if bindings.last().0@ == name {
        Some(bindings.last().1)
    } else {
        bound(bindings.drop_last(), name)
    }
}

/// The map from each bound name to the value of its last binding.
pub open spec fn bindings<T>(b: Seq<(String, T)>) -> Map<Seq<char>, T> {
    Map::new(|name: Seq<char>| bound(b, name) is Some, |name: Seq<char>| bound(b, name)->0)
}

/// One more binding puts its name and value into the map.
pub proof fn lemma_bindings_push<T>(b: Seq<(String, T)>, var: String, x: T)
    ensures
        bindings(b.push((var, x))) == bindings(b).insert(var@, x),
{
    let c = b.push((var, x));
    assert(c.drop_last() =~= b);
    assert(c.last() == (var, x));
    assert forall|name: Seq<char>| bound(c, name) == (if name == var@ {
        Some(x)
    } else {
        bound(b, name)
    }) by {}
    assert(bindings(c) =~= bindings(b).insert(var@, x));
}

/// The values of the variables, as maps from their names.
pub struct Valuation {
    pub points: Map<Seq<char>, usize>,
    pub opens: Map<Seq<char>, u32>,
}

impl Valuation {
    /// The point that `name` stands for.
    pub open spec fn point_named(self, name: Seq<char>) -> Option<usize> {
        if self.points.contains_key(name) {
            Some(self.points[name])
        } else {
            None
        }
    }

    /// The open set that `name` stands for.
    pub open spec fn open_named(self, name: Seq<char>) -> Option<u32> {
        if self.opens.contains_key(name) {
            Some(self.opens[name])
        } else {
            None
        }
    }

    /// This valuation with `name` standing for the point `p`.
    pub open spec fn with_point(self, name: Seq<char>, p: usize) -> Valuation {
        Valuation { points: self.points.insert(name, p), opens: self.opens }
    }

    /// This valuation with `name` standing for the open set `o`.
    pub open spec fn with_open(self, name: Seq<char>, o: u32) -> Valuation {
        Valuation { points: self.points, opens: self.opens.insert(name, o) }
    }
}

/// The values of the variables: each name with the value of its last
/// binding.
#[derive(Debug, Clone)]
pub struct Assignment {
    /// The bindings of point variables to points, counted from 1.
    pub points: Vec<(String, usize)>,
    /// The bindings of open variables to subsets.
    pub opens: Vec<(String, u32)>,
}

impl View for Assignment {
    type V = Valuation;

    open spec fn view(&self) -> Valuation {
        Valuation { points: bindings(self.points@), opens: bindings(self.opens@) }
    }
}

impl Assignment {
    /// The assignment that binds no variable.
    pub fn new() -> (a: Assignment)
        ensures
            a@.points == Map::<Seq<char>, usize>::empty(),
            a@.opens == Map::<Seq<char>, u32>::empty(),
    {
        let a = Assignment { points: Vec::new(), opens: Vec::new() };
        proof {
            assert(a@.points =~= Map::<Seq<char>, usize>::empty());
            assert(a@.opens =~= Map::<Seq<char>, u32>::empty());
        }
        a
    }

    /// Binds the point variable `var` to `point`.
    pub fn assign_point(&mut self, var: String, point: usize)
        ensures
            final(self)@ == old(self)@.with_point(var@, point),
    {
        proof {
            lemma_bindings_push(self.points@, var, point);
        }
        self.points.push((var, point));
    }

    /// Binds the open variable `var` to `open`.
    pub fn assign_open(&mut self, var: String, open: u32)
        ensures
            final(self)@ == old(self)@.with_open(var@, open),
    {
        proof {
            lemma_bindings_push(self.opens@, var, open);
        }
        self.opens.push((var, open));
    }

    /// A copy of this assignment.
    pub fn duplicate(&self) -> (a: Assignment)
        ensures
            a@ == self@,
    {
        let mut points: Vec<(String, usize)> = Vec::new();
        let mut i: usize = 0;
        while i < self.points.len()
            invariant
                i <= self.points@.len(),
                points@ == self.points@.subrange(0, i as int),
            decreases self.points@.len() - i,
        {
            let name = self.points[i].0.clone();
            let value: usize = self.points[i].1;
            points.push((name, value));
            proof {
                assert(points@ =~= self.points@.subrange(0, i + 1));
            }
            i = i + 1;
        }
        let mut opens: Vec<(String, u32)> = Vec::new();
        let mut j: usize = 0;
        while j < self.opens.len()
            invariant
                j <= self.opens@.len(),
                opens@ == self.opens@.subrange(0, j as int),
            decreases self.opens@.len() - j,
        {
            let name = self.opens[j].0.clone();
            let value: u32 = self.opens[j].1;
            opens.push((name, value));
            proof {
                assert(opens@ =~= self.opens@.subrange(0, j + 1));
            }
            j = j + 1;
        }
        proof {
            assert(self.points@.subrange(0, self.points@.len() as int) =~= self.points@);
            assert(self.opens@.subrange(0, self.opens@.len() as int) =~= self.opens@);
        }
        Assignment { points, opens }
    }

    /// A copy of this assignment with the point variable `var` bound to
    /// `point`.
    pub fn clone_with_point(&self, var: String, point: usize) -> (a: Assignment)
        ensures
            a@ == self@.with_point(var@, point),
    {
        let mut a = self.duplicate();
        a.assign_point(var, point);
        a
    }

    /// A copy of this assignment with the open variable `var` bound to
    /// `open`.
    pub fn clone_with_open(&self, var: String, open: u32) -> (a: Assignment)
        ensures
            a@ == self@.with_open(var@, open),
    {
        let mut a = self.duplicate();
        a.assign_open(var, open);
        a
    }

    /// The point that `var` stands for.
    pub fn point_of(&self, var: &String) -> (r: Option<usize>)
        ensures
            r == self@.point_named(var@),
    {
        let mut i: usize = self.points.len();
        proof {
            assert(self.points@.subrange(0, i as int) =~= self.points@);
        }
        while i > 0
            invariant
                i <= self.points@.len(),
                bound(self.points@, var@) == bound(self.points@.subrange(0, i as int), var@),
            decreases i,
        {
            let ghost prefix = self.points@.subrange(0, i as int);
            proof {
                assert(prefix.drop_last() =~= self.points@.subrange(0, i - 1));
                assert(prefix.last() == self.points@[i - 1]);
            }
            if self.points[i - 1].0 == *var {
                return Some(self.points[i - 1].1);
            }
            i = i - 1;
        }
        None
    }

    /// The open set that `var` stands for.
    pub fn open_of(&self, var: &String) -> (r: Option<u32>)
        ensures
            r == self@.open_named(var@),
    {
        let mut i: usize = self.opens.len();
        proof {
            assert(self.opens@.subrange(0, i as int) =~= self.opens@);
        }
        while i > 0
            invariant
                i <= self.opens@.len(),
                bound(self.opens@, var@) == bound(self.opens@.subrange(0, i as int), var@),
            decreases i,
        {
            let ghost prefix = self.opens@.subrange(0, i as int);
            proof {
                assert(prefix.drop_last() =~= self.opens@.subrange(0, i - 1));
                assert(prefix.last() == self.opens@[i - 1]);
            }
            if self.opens[i - 1].0 == *var {
                return Some(self.opens[i - 1].1);
            }
            i = i - 1;
        }
        None
    }
}

/// The value that makes an existential formula true.
#[derive(Debug, Clone, Copy)]
pub enum Witness {
    Point(usize),
    Open(u32),
}

/// Whether a formula holds, with the witnesses of its existential
/// quantifiers.
#[derive(Debug, Clone)]
pub struct ModelCheckResult {
    pub satisfied: bool,
    /// The witnesses, each under the name of its variable; the last one
    /// under a name counts.
    pub witnesses: Vec<(String, Witness)>,
}

/// The witnesses with their names as sequences of characters.
pub open spec fn named(witnesses: Seq<(String, Witness)>) -> Seq<(Seq<char>, Witness)> {
    Seq::new(witnesses.len(), |i: int| (witnesses[i].0@, witnesses[i].1))
}

impl ModelCheckResult {
    /// The formula holds; no witness.
    pub fn true_result() -> (r: ModelCheckResult)
        ensures
            r.satisfied,
            r.witnesses@.len() == 0,
    {
        ModelCheckResult { satisfied: true, witnesses: Vec::new() }
    }

    /// The formula does not hold; no witness.
    pub fn false_result() -> (r: ModelCheckResult)
        ensures
            !r.satisfied,
            r.witnesses@.len() == 0,
    {
        ModelCheckResult { satisfied: false, witnesses: Vec::new() }
    }

    /// This result with one more witness.
    pub fn with_witness(self, var: String, witness: Witness) -> (r: ModelCheckResult)
        ensures
            r.satisfied == self.satisfied,
            r.witnesses@ == self.witnesses@.push((var, witness)),
    {
        let mut r = self;
        r.witnesses.push((var, witness));
        r
    }
}

/// The members of `family` that are disjoint from `o`.
pub open spec fn disjoint_from(family: Set<u32>, o: u32) -> Set<u32> {
    Set::new(|q: u32| family.contains(q) && o & q == 0u32)
}

/// The antipode of `o`: the union of the members of `family` that are
/// disjoint from `o`.
pub open spec fn antipode(family: Set<u32>, o: u32) -> u32 {
    union_mask(disjoint_from(family, o))
}

/// Whether `table` gives each member of `family` its antipode, and nothing
/// else.
pub open spec fn is_antipode_table(table: Map<u32, u32>, family: Set<u32>) -> bool {
    &&& table.dom() == family
    &&& forall|o: u32| family.contains(o) ==> #[trigger] table[o] == antipode(family, o)
}

/// The table that gives each member of `family` its antipode.
pub open spec fn antipodes(family: Set<u32>) -> Map<u32, u32> {
    Map::new(|o: u32| family.contains(o), |o: u32| antipode(family, o))
}

/// What `table` gives the members of `family` that hold the point `p`.
pub open spec fn separating(family: Set<u32>, table: Map<u32, u32>, p: usize) -> Set<u32> {
    Set::new(
        |a: u32|
            exists|o: u32|
                family.contains(o) && o & single_bit(p - 1) != 0u32 && a == table[o],
    )
}

/// The members of `family` that lie within `class`.
pub open spec fn inside(family: Set<u32>, class: u32) -> Set<u32> {
    Set::new(|o: u32| family.contains(o) && o & !class == 0u32)
}

/// The community of the point `p`, by a table of antipodes: the union of the
/// members of `family` that avoid every element that the table separates
/// from `p`. It is empty for a point outside the ground set and for the
/// empty family.
pub open spec fn community(n: nat, family: Set<u32>, table: Map<u32, u32>, p: usize) -> u32 {
    if p == 0 || p > n || family.len() == 0 {
        0u32
    } else {
        let separable = union_mask(separating(family, table, p));
        let class = full_mask(n) & !separable;
        union_mask(inside(family, class))
    }
}

/// Whether the point `point` of a ground set of `n` points lies in `open`.
pub open spec fn point_in(n: nat, point: usize, open: u32) -> bool {
    1 <= point <= n && has_bit(open, point - 1)
}

/// The open set that `e` stands for, where its variables are bound.
pub open spec fn open_value(n: nat, family: Set<u32>, e: OpenTerm, a: Valuation) -> Option<u32>
    decreases e,
{
    match e {
        OpenTerm::Var(v) => a.open_named(v),
        OpenTerm::Community(p) => match a.point_named(p) {
            Some(point) => Some(community(n, family, antipodes(family), point)),
            None => None,
        },
        OpenTerm::InteriorComplement(inner) => match open_value(n, family, *inner, a) {
            Some(o) => Some(antipode(family, o)),
            None => None,
        },
    }
}

/// Whether an atomic proposition holds. One with an unbound variable does
/// not.
pub open spec fn atom_holds(n: nat, family: Set<u32>, atom: AtomTerm, a: Valuation) -> bool {
    match atom {
        AtomTerm::PointInOpen(p, e) => match (a.point_named(p), open_value(n, family, e, a)) {
            (Some(point), Some(open)) => point_in(n, point, open),
            _ => false,
        },
        AtomTerm::OpenIntersection(e1, e2) => match (
            open_value(n, family, e1, a),
            open_value(n, family, e2, a),
        ) {
            (Some(o1), Some(o2)) => o1 & o2 != 0u32,
            _ => false,
        },
        AtomTerm::OpenNonempty(e) => match open_value(n, family, e, a) {
            Some(o) => o != 0u32,
            None => false,
        },
        AtomTerm::PointEqual(p, q) => match (a.point_named(p), a.point_named(q)) {
            (Some(x), Some(y)) => x == y,
            _ => false,
        },
        AtomTerm::PointNotEqual(p, q) => match (a.point_named(p), a.point_named(q)) {
            (Some(x), Some(y)) => x != y,
            _ => false,
        },
        AtomTerm::OpenEqual(e1, e2) => match (
            open_value(n, family, e1, a),
            open_value(n, family, e2, a),
        ) {
            (Some(o1), Some(o2)) => o1 == o2,
            _ => false,
        },
        AtomTerm::OpenNotEqual(e1, e2) => match (
            open_value(n, family, e1, a),
            open_value(n, family, e2, a),
        ) {
            (Some(o1), Some(o2)) => o1 != o2,
            _ => false,
        },
    }
}

/// Whether `f` holds under `a`, with the witnesses of its existential
/// quantifiers. A universal formula holds when no point, or open set, fails
/// its body. An existential formula holds when one fulfils its body, and the
/// first such is its witness, behind those of the body. A conjunction that
/// holds has the witnesses of both sides, one that fails those of the side
/// that failed first; a disjunction has those of the first side that holds;
/// an implication those of its conclusion where the premise holds; a
/// negation those of its body.
pub open spec fn verdict(n: nat, family: Set<u32>, f: FormulaTerm, a: Valuation) -> (
    bool,
    Seq<(Seq<char>, Witness)>,
)
    decreases f, 0nat, 0nat,
{
    match f {
        FormulaTerm::Atom(atom) => (atom_holds(n, family, atom, a), Seq::empty()),
        FormulaTerm::Not(g) => {
            let r = verdict(n, family, *g, a);
            (!r.0, r.1)
        },
        FormulaTerm::And(g, h) => {
            let r1 = verdict(n, family, *g, a);
            let r2 = verdict(n, family, *h, a);
            if !r1.0 {
                r1
            } else if !r2.0 {
                r2
            } else {
                (true, r1.1 + r2.1)
            }
        },
        FormulaTerm::Or(g, h) => {
            let r1 = verdict(n, family, *g, a);
            let r2 = verdict(n, family, *h, a);
            if r1.0 {
                r1
            } else if r2.0 {
                r2
            } else {
                (false, Seq::empty())
            }
        },
        FormulaTerm::Implies(g, h) => {
            let r1 = verdict(n, family, *g, a);
            if !r1.0 {
                (true, Seq::empty())
            } else {
                verdict(n, family, *h, a)
            }
        },
        FormulaTerm::Iff(g, h) => {
            let r1 = verdict(n, family, *g, a);
            let r2 = verdict(n, family, *h, a);
            (r1.0 == r2.0, Seq::empty())
        },
        FormulaTerm::ForAllPoints(var, g) => (
            first_point(n, family, *g, a, var, 1, false) is None,
            Seq::empty(),
        ),
        FormulaTerm::ExistsPoints(var, g) => match first_point(n, family, *g, a, var, 1, true) {
            Some(p) => (
                true,
                verdict(n, family, *g, a.with_point(var, p)).1.push((var, Witness::Point(p))),
            ),
            None => (false, Seq::empty()),
        },
        FormulaTerm::ForAllOpens(var, g) => (
            first_open(n, family, *g, a, var, 0, false) is None,
            Seq::empty(),
        ),
        FormulaTerm::ExistsOpens(var, g) => match first_open(n, family, *g, a, var, 0, true) {
            Some(o) => (
                true,
                verdict(n, family, *g, a.with_open(var, o)).1.push((var, Witness::Open(o))),
            ),
            None => (false, Seq::empty()),
        },
    }
}

/// The first point from `p` on under which `g` holds (where `want` is true)
/// or fails (where it is false).
pub open spec fn first_point(
    n: nat,
    family: Set<u32>,
    g: FormulaTerm,
    a: Valuation,
    var: Seq<char>,
    p: nat,
    want: bool,
) -> Option<usize>
    decreases g, 1nat, (n + 1 - p) as nat,
{
    if p > n || p > usize::MAX {
        None
    } else if verdict(n, family, g, a.with_point(var, p as usize)).0 == want {
        Some(p as usize)
    } else {
        first_point(n, family, g, a, var, p + 1, want)
    }
}

/// The first member of `family` from place `i` on, in ascending order, under
/// which `g` holds (where `want` is true) or fails (where it is false).
pub open spec fn first_open(
    n: nat,
    family: Set<u32>,
    g: FormulaTerm,
    a: Valuation,
    var: Seq<char>,
    i: nat,
    want: bool,
) -> Option<u32>
    decreases g, 1nat, (sorted(family).len() - i) as nat,
{
    if i >= sorted(family).len() {
        None
    } else if verdict(n, family, g, a.with_open(var, sorted(family)[i as int])).0 == want {
        Some(sorted(family)[i as int])
    } else {
        first_open(n, family, g, a, var, i + 1, want)
    }
}

/// Whether the family of `n` points satisfies `f` with no variable bound.
pub open spec fn satisfies(n: nat, family: Set<u32>, f: FormulaTerm) -> bool {
    verdict(
        n,
        family,
        f,
        Valuation { points: Map::empty(), opens: Map::empty() },
    ).0
}

/// The members of a family with one more member that are disjoint from `o`.
proof fn lemma_disjoint_from_insert(family: Set<u32>, x: u32, o: u32)
    ensures
        disjoint_from(family.insert(x), o) == (if o & x == 0u32 {
            disjoint_from(family, o).insert(x)
        } else {
            disjoint_from(family, o)
        }),
        disjoint_from(Set::<u32>::empty(), o) == Set::<u32>::empty(),
{
    assert(disjoint_from(family.insert(x), o) =~= (if o & x == 0u32 {
        disjoint_from(family, o).insert(x)
    } else {
        disjoint_from(family, o)
    }));
    assert(disjoint_from(Set::<u32>::empty(), o) =~= Set::<u32>::empty());
}

/// What a table gives the members, that hold `p`, of a family with one more
/// member.
proof fn lemma_separating_insert(family: Set<u32>, x: u32, table: Map<u32, u32>, p: usize)
    ensures
        separating(family.insert(x), table, p) == (if x & single_bit(p - 1) != 0u32 {
            separating(family, table, p).insert(table[x])
        } else {
            separating(family, table, p)
        }),
        separating(Set::<u32>::empty(), table, p) == Set::<u32>::empty(),
{
    let bigger = separating(family.insert(x), table, p);
    let smaller = separating(family, table, p);
    assert forall|a: u32| smaller.contains(a) implies bigger.contains(a) by {
        let o = choose|o: u32|
            family.contains(o) && o & single_bit(p - 1) != 0u32 && a == table[o];
        assert(family.insert(x).contains(o));
    }
    if x & single_bit(p - 1) != 0u32 {
        assert(family.insert(x).contains(x));
        assert(bigger.contains(table[x]));
        assert forall|a: u32| bigger.contains(a) implies smaller.insert(table[x]).contains(a) by {
            let o = choose|o: u32|
                family.insert(x).contains(o) && o & single_bit(p - 1) != 0u32 && a == table[o];
            if o != x {
                assert(family.contains(o));
            }
        }
        assert(bigger =~= smaller.insert(table[x]));
    } else {
        assert forall|a: u32| bigger.contains(a) implies smaller.contains(a) by {
            let o = choose|o: u32|
                family.insert(x).contains(o) && o & single_bit(p - 1) != 0u32 && a == table[o];
            assert(family.contains(o));
        }
        assert(bigger =~= smaller);
    }
    assert(separating(Set::<u32>::empty(), table, p) =~= Set::<u32>::empty());
}

/// The members of a family with one more member that lie within `class`.
proof fn lemma_inside_insert(family: Set<u32>, x: u32, class: u32)
    ensures
        inside(family.insert(x), class) == (if x & !class == 0u32 {
            inside(family, class).insert(x)
        } else {
            inside(family, class)
        }),
        inside(Set::<u32>::empty(), class) == Set::<u32>::empty(),
{
    assert(inside(family.insert(x), class) =~= (if x & !class == 0u32 {
        inside(family, class).insert(x)
    } else {
        inside(family, class)
    }));
    assert(inside(Set::<u32>::empty(), class) =~= Set::<u32>::empty());
}

/// A model checker for one family over a ground set of `n` points.
pub struct ModelChecker {
    n: usize,
    family: Family,
    antipode_cache: Option<HashMap<u32, u32>>,
}

impl ModelChecker {
    /// The number of points.
    pub closed spec fn size(&self) -> nat {
        self.n as nat
    }

    /// The open sets.
    pub closed spec fn opens(&self) -> Set<u32> {
        self.family@
    }

    /// Whether the ground set has at most 32 points, and the table of
    /// antipodes, where it has been built, is that of the open sets.
    pub closed spec fn wf(&self) -> bool {
        &&& self.n <= 32
        &&& self.antipode_cache matches Some(table) ==> is_antipode_table(table@, self.family@)
    }

    /// A model checker for `family` over `n` points.
    pub fn new(n: usize, family: Family) -> (checker: ModelChecker)
        requires
            n <= 32,
        ensures
            checker.wf(),
            checker.size() == n,
            checker.opens() == family@,
    {
        ModelChecker { n, family, antipode_cache: None }
    }

    /// The antipode of every open set.
    pub fn build_antipodes(&self) -> (anti: HashMap<u32, u32>)
        ensures
            is_antipode_table(anti@, self.opens()),
            anti@ == antipodes(self.opens()),
    {
        broadcast use vstd::std_specs::hash::group_hash_axioms;

        let listed = members(&self.family);
        let mut anti: HashMap<u32, u32> = HashMap::new();
        let mut i: usize = 0;
        while i < listed.len()
            invariant
                i <= listed@.len(),
                listed@.to_set() == self.family@,
                anti@.dom() == listed@.subrange(0, i as int).to_set(),
                forall|o: u32|
                    anti@.dom().contains(o) ==> #[trigger] anti@[o] == antipode(self.family@, o),
            decreases listed@.len() - i,
        {
            let o: u32 = listed[i];
            let complement: u32 = self.interior_complement(o);
            anti.insert(o, complement);
            proof {
                assert(listed@.subrange(0, i + 1) =~= listed@.subrange(0, i as int).push(o));
                crate::family::lemma_push_to_set(listed@.subrange(0, i as int), o);
            }
            i = i + 1;
        }
        proof {
            assert(listed@.subrange(0, listed@.len() as int) =~= listed@);
            assert(anti@ =~= antipodes(self.family@));
        }
        anti
    }

    /// The interior complement of `o`: the union of the open sets that are
    /// disjoint from it.
    pub fn interior_complement(&self, o: u32) -> (r: u32)
        ensures
            r == antipode(self.opens(), o),
    {
        let listed = members(&self.family);
        let mut complement: u32 = 0;
        let mut i: usize = 0;
        proof {
            lemma_disjoint_from_insert(Set::empty(), 0, o);
            lemma_union_mask_empty();
            assert(listed@.subrange(0, 0).to_set() =~= Set::<u32>::empty());
        }
        while i < listed.len()
            invariant
                i <= listed@.len(),
                listed@.to_set() == self.family@,
                complement == union_mask(
                    disjoint_from(listed@.subrange(0, i as int).to_set(), o),
                ),
            decreases listed@.len() - i,
        {
            let q: u32 = listed[i];
            proof {
                let done = listed@.subrange(0, i as int);
                assert(listed@.subrange(0, i + 1) =~= done.push(q));
                crate::family::lemma_push_to_set(done, q);
                lemma_disjoint_from_insert(done.to_set(), q, o);
                lemma_union_mask_insert(disjoint_from(done.to_set(), o), q);
            }
            if o & q == 0 {
                complement = complement | q;
            }
            i = i + 1;
        }
        proof {
            assert(listed@.subrange(0, listed@.len() as int) =~= listed@);
        }
        complement
    }

    /// The community of the point `p`, by the table `anti` of antipodes.
    pub fn community_with_cache(&self, p: usize, anti: &HashMap<u32, u32>) -> (r: u32)
        requires
            self.wf(),
            forall|o: u32| self.opens().contains(o) ==> anti@.contains_key(o),
        ensures
            r == community(self.size(), self.opens(), anti@, p),
    {
        broadcast use vstd::std_specs::hash::group_hash_axioms;

        let listed = members(&self.family);
        if p == 0 || p > self.n || listed.len() == 0 {
            return 0;
        }
        assert forall|o: u32| self.family@.contains(o) implies anti@.contains_key(o) by {
            assert(self.opens().contains(o));
        }
        let universe: u32 = full(self.n);
        let shift: u32 = (p - 1) as u32;
        let p_bit: u32 = 1u32 << shift;
        let mut separable: u32 = 0;
        let mut i: usize = 0;
        proof {
            lemma_separating_insert(Set::empty(), 0, anti@, p);
            lemma_union_mask_empty();
            assert(listed@.subrange(0, 0).to_set() =~= Set::<u32>::empty());
        }
        while i < listed.len()
            invariant
                i <= listed@.len(),
                1 <= p <= 32,
                p_bit == single_bit(p - 1),
                listed@.to_set() == self.family@,
                forall|o: u32| self.family@.contains(o) ==> anti@.contains_key(o),
                separable == union_mask(
                    separating(listed@.subrange(0, i as int).to_set(), anti@, p),
                ),
            decreases listed@.len() - i,
        {
            let o: u32 = listed[i];
            proof {
                let done = listed@.subrange(0, i as int);
                assert(listed@.subrange(0, i + 1) =~= done.push(o));
                crate::family::lemma_push_to_set(done, o);
                lemma_separating_insert(done.to_set(), o, anti@, p);
                lemma_union_mask_insert(separating(done.to_set(), anti@, p), anti@[o]);
                assert(listed@.to_set().contains(listed@[i as int]));
            }
            if o & p_bit != 0 {
                let entry = anti.get(&o);
                match entry {
                    Some(a) => {
                        separable = separable | *a;
                    },
                    None => {},
                }
            }
            i = i + 1;
        }
        proof {
            assert(listed@.subrange(0, listed@.len() as int) =~= listed@);
        }
        let class: u32 = universe & !separable;
        let mut community: u32 = 0;
        let mut j: usize = 0;
        proof {
            lemma_inside_insert(Set::empty(), 0, class);
            assert(listed@.subrange(0, 0).to_set() =~= Set::<u32>::empty());
        }
        while j < listed.len()
            invariant
                j <= listed@.len(),
                listed@.to_set() == self.family@,
                community == union_mask(inside(listed@.subrange(0, j as int).to_set(), class)),
            decreases listed@.len() - j,
        {
            let o: u32 = listed[j];
            proof {
                let done = listed@.subrange(0, j as int);
                assert(listed@.subrange(0, j + 1) =~= done.push(o));
                crate::family::lemma_push_to_set(done, o);
                lemma_inside_insert(done.to_set(), o, class);
                lemma_union_mask_insert(inside(done.to_set(), class), o);
            }
            if o & !class == 0 {
                community = community | o;
            }
            j = j + 1;
        }
        proof {
            assert(listed@.subrange(0, listed@.len() as int) =~= listed@);
        }
        community
    }

    /// Whether the point `point` lies in `open`.
    pub fn point_in_open(&self, point: usize, open: u32) -> (b: bool)
        requires
            self.wf(),
        ensures
            b == point_in(self.size(), point, open),
    {
        if point == 0 || point > self.n {
            false
        } else {
            test_bit(open, point - 1)
        }
    }

    /// Whether two open sets meet.
    pub fn opens_intersect(&self, open1: u32, open2: u32) -> (b: bool)
        ensures
            b == (open1 & open2 != 0u32),
    {
        (open1 & open2) != 0
    }

    /// Whether an open set has a point.
    pub fn open_is_nonempty(&self, open: u32) -> (b: bool)
        ensures
            b == (open != 0u32),
    {
        open != 0
    }

    /// The open set that `open_expr` stands for under `assignment`; `None`
    /// where a variable of it is not bound.
    pub fn eval_open_expr(&mut self, open_expr: &OpenExpr, assignment: &Assignment) -> (r: Option<
        u32,
    >)
        requires
            old(self).wf(),
        ensures
            final(self).wf(),
            final(self).size() == old(self).size(),
            final(self).opens() == old(self).opens(),
            r == open_value(old(self).size(), old(self).opens(), open_expr@, assignment@),
        decreases open_expr,
    {
        match open_expr {
            OpenExpr::Var(var) => {
                assignment.open_of(var)
            },
            OpenExpr::Community(point_var) => {
                match assignment.point_of(point_var) {
                    Some(point) => {
                        if self.antipode_cache.is_none() {
                            let table = self.build_antipodes();
                            self.antipode_cache = Some(table);
                        }
                        match &self.antipode_cache {
                            Some(anti) => {
                                assert(anti@ =~= antipodes(self.opens()));
                                Some(self.community_with_cache(point, anti))
                            },
                            None => None,
                        }
                    },
                    None => None,
                }
            },
            OpenExpr::InteriorComplement(inner_expr) => {
                match self.eval_open_expr(inner_expr, assignment) {
                    Some(inner_open) => Some(self.interior_complement(inner_open)),
                    None => None,
                }
            },
        }
    }

    /// Whether `atom` holds under `assignment`.
    pub fn eval_atom(&mut self, atom: &Atom, assignment: &Assignment) -> (b: bool)
        requires
            old(self).wf(),
        ensures
            final(self).wf(),
            final(self).size() == old(self).size(),
            final(self).opens() == old(self).opens(),
            b == atom_holds(old(self).size(), old(self).opens(), atom@, assignment@),
    {
        match atom {
            Atom::PointInOpen(point_var, open_expr) => {
                match assignment.point_of(point_var) {
                    Some(point) => match self.eval_open_expr(open_expr, assignment) {
                        Some(open) => self.point_in_open(point, open),
                        None => false,
                    },
                    None => false,
                }
            },
            Atom::OpenIntersection(open_expr1, open_expr2) => {
                let first = self.eval_open_expr(open_expr1, assignment);
                let second = self.eval_open_expr(open_expr2, assignment);
                match (first, second) {
                    (Some(open1), Some(open2)) => self.opens_intersect(open1, open2),
                    _ => false,
                }
            },
            Atom::OpenNonempty(open_expr) => {
                match self.eval_open_expr(open_expr, assignment) {
                    Some(open) => self.open_is_nonempty(open),
                    None => false,
                }
            },
            Atom::PointEqual(first_var, second_var) => {
                match (assignment.point_of(first_var), assignment.point_of(second_var)) {
                    (Some(x), Some(y)) => x == y,
                    _ => false,
                }
            },
            Atom::PointNotEqual(first_var, second_var) => {
                match (assignment.point_of(first_var), assignment.point_of(second_var)) {
                    (Some(x), Some(y)) => x != y,
                    _ => false,
                }
            },
            Atom::OpenEqual(open_expr1, open_expr2) => {
                let first = self.eval_open_expr(open_expr1, assignment);
                let second = self.eval_open_expr(open_expr2, assignment);
                match (first, second) {
                    (Some(open1), Some(open2)) => open1 == open2,
                    _ => false,
                }
            },
            Atom::OpenNotEqual(open_expr1, open_expr2) => {
                let first = self.eval_open_expr(open_expr1, assignment);
                let second = self.eval_open_expr(open_expr2, assignment);
                match (first, second) {
                    (Some(open1), Some(open2)) => open1 != open2,
                    _ => false,
                }
            },
        }
    }

    /// Whether `formula` holds under `assignment`, with the witnesses of its
    /// existential quantifiers.
    #[verifier::loop_isolation(false)]
    pub fn eval_formula(&mut self, formula: &Formula, assignment: &Assignment) -> (r:
        ModelCheckResult)
        requires
            old(self).wf(),
        ensures
            final(self).wf(),
            final(self).size() == old(self).size(),
            final(self).opens() == old(self).opens(),
            r.satisfied == verdict(old(self).size(), old(self).opens(), formula@, assignment@).0,
            named(r.witnesses@) == verdict(
                old(self).size(),
                old(self).opens(),
                formula@,
                assignment@,
            ).1,
        decreases formula,
    {
        let ghost n = self.size();
        let ghost family = self.opens();
        match formula {
            Formula::Atom(atom) => {
                assert(formula@ == FormulaTerm::Atom(atom@));
                let r = if self.eval_atom(atom, assignment) {
                    ModelCheckResult::true_result()
                } else {
                    ModelCheckResult::false_result()
                };
                assert(named(r.witnesses@) =~= Seq::empty());
                r
            },
            Formula::Not(f) => {
                assert(formula@ == FormulaTerm::Not(Box::new(f@)));
                let result = self.eval_formula(f, assignment);
                ModelCheckResult { satisfied: !result.satisfied, witnesses: result.witnesses }
            },
            Formula::And(f1, f2) => {
                assert(formula@ == FormulaTerm::And(Box::new(f1@), Box::new(f2@)));
                let result1 = self.eval_formula(f1, assignment);
                if !result1.satisfied {
                    return result1;
                }
                let result2 = self.eval_formula(f2, assignment);
                if !result2.satisfied {
                    return result2;
                }
                let mut combined_witnesses = result1.witnesses;
                let mut second = result2.witnesses;
                let ghost w1 = combined_witnesses@;
                let ghost w2 = second@;
                combined_witnesses.append(&mut second);
                assert(named(combined_witnesses@) =~= named(w1) + named(w2));
                ModelCheckResult { satisfied: true, witnesses: combined_witnesses }
            },
            Formula::Or(f1, f2) => {
                assert(formula@ == FormulaTerm::Or(Box::new(f1@), Box::new(f2@)));
                let result1 = self.eval_formula(f1, assignment);
                if result1.satisfied {
                    return result1;
                }
                let result2 = self.eval_formula(f2, assignment);
                if result2.satisfied {
                    return result2;
                }
                let r = ModelCheckResult::false_result();
                assert(named(r.witnesses@) =~= Seq::empty());
                r
            },
            Formula::Implies(f1, f2) => {
                assert(formula@ == FormulaTerm::Implies(Box::new(f1@), Box::new(f2@)));
                let result1 = self.eval_formula(f1, assignment);
                if !result1.satisfied {
                    let r = ModelCheckResult::true_result();
                    assert(named(r.witnesses@) =~= Seq::empty());
                    return r;
                }
                self.eval_formula(f2, assignment)
            },
            Formula::Iff(f1, f2) => {
                assert(formula@ == FormulaTerm::Iff(Box::new(f1@), Box::new(f2@)));
                let result1 = self.eval_formula(f1, assignment);
                let result2 = self.eval_formula(f2, assignment);
                let r = if result1.satisfied == result2.satisfied {
                    ModelCheckResult::true_result()
                } else {
                    ModelCheckResult::false_result()
                };
                assert(named(r.witnesses@) =~= Seq::empty());
                r
            },
            Formula::ForAllPoints(var, f) => {
                assert(formula@ == FormulaTerm::ForAllPoints(var@, Box::new(f@)));
                let mut point: usize = 1;
                while point <= self.n
                    invariant
                        1 <= point <= self.n + 1,
                        self.wf(),
                        self.size() == n,
                        self.opens() == family,
                        first_point(n, family, f@, assignment@, var@, 1, false) == first_point(
                            n,
                            family,
                            f@,
                            assignment@,
                            var@,
                            point as nat,
                            false,
                        ),
                    decreases self.n + 1 - point,
                {
                    let new_assignment = assignment.clone_with_point(var.clone(), point);
                    let result = self.eval_formula(f, &new_assignment);
                    if !result.satisfied {
                        let r = ModelCheckResult::false_result();
                        assert(named(r.witnesses@) =~= Seq::empty());
                        return r;
                    }
                    point = point + 1;
                }
                let r = ModelCheckResult::true_result();
                assert(named(r.witnesses@) =~= Seq::empty());
                r
            },
            Formula::ExistsPoints(var, f) => {
                assert(formula@ == FormulaTerm::ExistsPoints(var@, Box::new(f@)));
                let mut point: usize = 1;
                while point <= self.n
                    invariant
                        1 <= point <= self.n + 1,
                        self.wf(),
                        self.size() == n,
                        self.opens() == family,
                        first_point(n, family, f@, assignment@, var@, 1, true) == first_point(
                            n,
                            family,
                            f@,
                            assignment@,
                            var@,
                            point as nat,
                            true,
                        ),
                    decreases self.n + 1 - point,
                {
                    let new_assignment = assignment.clone_with_point(var.clone(), point);
                    let result = self.eval_formula(f, &new_assignment);
                    if result.satisfied {
                        let ghost inner = result.witnesses@;
                        let name = var.clone();
                        let r = result.with_witness(name, Witness::Point(point));
                        assert(named(r.witnesses@) =~= named(inner).push(
                            (var@, Witness::Point(point)),
                        ));
                        return r;
                    }
                    point = point + 1;
                }
                let r = ModelCheckResult::false_result();
                assert(named(r.witnesses@) =~= Seq::empty());
                r
            },
            Formula::ForAllOpens(var, f) => {
                assert(formula@ == FormulaTerm::ForAllOpens(var@, Box::new(f@)));
                let family_vec = members(&self.family);
                let mut i: usize = 0;
                while i < family_vec.len()
                    invariant
                        i <= family_vec@.len(),
                        family_vec@ == sorted(family),
                        self.wf(),
                        self.size() == n,
                        self.opens() == family,
                        first_open(n, family, f@, assignment@, var@, 0, false) == first_open(
                            n,
                            family,
                            f@,
                            assignment@,
                            var@,
                            i as nat,
                            false,
                        ),
                    decreases family_vec@.len() - i,
                {
                    let open: u32 = family_vec[i];
                    let new_assignment = assignment.clone_with_open(var.clone(), open);
                    let result = self.eval_formula(f, &new_assignment);
                    if !result.satisfied {
                        let r = ModelCheckResult::false_result();
                        assert(named(r.witnesses@) =~= Seq::empty());
                        return r;
                    }
                    i = i + 1;
                }
                let r = ModelCheckResult::true_result();
                assert(named(r.witnesses@) =~= Seq::empty());
                r
            },
            Formula::ExistsOpens(var, f) => {
                assert(formula@ == FormulaTerm::ExistsOpens(var@, Box::new(f@)));
                let family_vec = members(&self.family);
                let mut i: usize = 0;
                while i < family_vec.len()
                    invariant
                        i <= family_vec@.len(),
                        family_vec@ == sorted(family),
                        self.wf(),
                        self.size() == n,
                        self.opens() == family,
                        first_open(n, family, f@, assignment@, var@, 0, true) == first_open(
                            n,
                            family,
                            f@,
                            assignment@,
                            var@,
                            i as nat,
                            true,
                        ),
                    decreases family_vec@.len() - i,
                {
                    let open: u32 = family_vec[i];
                    let new_assignment = assignment.clone_with_open(var.clone(), open);
                    let result = self.eval_formula(f, &new_assignment);
                    if result.satisfied {
                        let ghost inner = result.witnesses@;
                        let name = var.clone();
                        let r = result.with_witness(name, Witness::Open(open));
                        assert(named(r.witnesses@) =~= named(inner).push(
                            (var@, Witness::Open(open)),
                        ));
                        return r;
                    }
                    i = i + 1;
                }
                let r = ModelCheckResult::false_result();
                assert(named(r.witnesses@) =~= Seq::empty());
                r
            },
        }
    }

    /// Whether the family satisfies `formula`, with the witnesses of its
    /// existential quantifiers.
    pub fn check(&mut self, formula: &Formula) -> (r: ModelCheckResult)
        requires
            old(self).wf(),
        ensures
            final(self).wf(),
            final(self).size() == old(self).size(),
            final(self).opens() == old(self).opens(),
            r.satisfied == satisfies(old(self).size(), old(self).opens(), formula@),
            named(r.witnesses@) == verdict(
                old(self).size(),
                old(self).opens(),
                formula@,
                Valuation { points: Map::empty(), opens: Map::empty() },
            ).1,
    {
        let assignment = Assignment::new();
        assert(assignment@ == Valuation { points: Map::empty(), opens: Map::empty() });
        self.eval_formula(formula, &assignment)
    }
}

} // verus!

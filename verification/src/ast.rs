//! The syntax tree of a formula as it is written, with its macros.

use vstd::prelude::*;

verus! {

/// A proposition: core logic, or a macro that stands for a formula.
#[derive(Debug, PartialEq)]
pub enum Prop {
    Logic(LogicProp),
    Macro(MacroProp),
}

/// A proposition of the core logic.
#[derive(Debug, PartialEq)]
pub enum LogicProp {
    Quant(QuantProp),
    Binary(BinaryProp),
    Unary(UnaryProp),
    Atomic(AtomicProp),
}

/// A quantified proposition.
#[derive(Debug, PartialEq)]
pub enum QuantProp {
    /// For every point.
    AP(String, Box<Prop>),
    /// For some point.
    EP(String, Box<Prop>),
    /// For every open set.
    AO(String, Box<Prop>),
    /// For some open set.
    EO(String, Box<Prop>),
}

/// Two propositions joined by a connective.
#[derive(Debug, PartialEq)]
pub enum BinaryProp {
    And(Box<Prop>, Box<Prop>),
    Or(Box<Prop>, Box<Prop>),
    Implies(Box<Prop>, Box<Prop>),
    Iff(Box<Prop>, Box<Prop>),
}

/// A proposition under a unary connective.
#[derive(Debug, PartialEq)]
pub enum UnaryProp {
    Not(Box<Prop>),
}

/// An atomic proposition.
#[derive(Debug, PartialEq)]
pub enum AtomicProp {
    /// A point lies in an open set.
    PointInOpen(PointExpr, OpenExpr),
    /// Two open sets meet.
    OpenInter(OpenExpr, OpenExpr),
    /// An open set has a point.
    Nonempty(OpenExpr),
    /// Two points differ.
    PointNotEqual(PointExpr, PointExpr),
    /// Two open sets differ.
    OpenNotEqual(OpenExpr, OpenExpr),
    /// Two points are one.
    PointEqual(PointExpr, PointExpr),
    /// Two open sets are one.
    OpenEqual(OpenExpr, OpenExpr),
}

/// An expression that stands for a point.
#[derive(Debug, PartialEq)]
pub enum PointExpr {
    PointVar(String),
}

/// An expression that stands for an open set.
#[derive(Debug, PartialEq)]
pub enum OpenExpr {
    OpenVar(String),
    /// The community of a point.
    K(PointExpr),
    /// The interior complement of an open set.
    IC(Box<OpenExpr>),
}

/// A macro: a named property that stands for a formula of the core logic.
#[derive(Debug, PartialEq)]
pub enum MacroProp {
    /// Each of three open sets meets the next.
    TripleOpenInter(OpenExpr, OpenExpr, OpenExpr),
    /// Every open set of the one point meets every open set of the other.
    PointInter(PointExpr, PointExpr),
    /// Each of three points intersects the next.
    TriplePointInter(PointExpr, PointExpr, PointExpr),
    /// Open sets that both meet this one meet each other.
    Transitive(OpenExpr),
    /// Non-empty and transitive.
    Topen(OpenExpr),
    /// The community of the point is a transitive open set.
    Regular(PointExpr),
    /// Not regular.
    Irregular(PointExpr),
    /// The point lies in its community.
    WeaklyRegular(PointExpr),
    /// The community of the point has a point.
    Quasiregular(PointExpr),
    /// The point intersects a regular point.
    IndirectlyRegular(PointExpr),
    /// Two open sets meet where each open set of the point lies between
    /// them.
    Hypertransitive(PointExpr),
    /// Points that both intersect this one intersect each other.
    Unconflicted(PointExpr),
    /// Not unconflicted.
    Conflicted(PointExpr),
    ConflictedSpace,
    UnconflictedSpace,
    RegularSpace,
    IrregularSpace,
    WeaklyRegularSpace,
    QuasiregularSpace,
    IndirectlyRegularSpace,
    HypertransitiveSpace,
}

impl Clone for PointExpr {
    fn clone(&self) -> (r: Self)
        ensures
            r == *self,
    {
        match self {
            PointExpr::PointVar(v) => PointExpr::PointVar(v.clone()),
        }
    }
}

impl Clone for OpenExpr {
    fn clone(&self) -> (r: Self)
        ensures
            r == *self,
        decreases self,
    {
        match self {
            OpenExpr::OpenVar(v) => OpenExpr::OpenVar(v.clone()),
            OpenExpr::K(p) => OpenExpr::K(p.clone()),
            OpenExpr::IC(inner) => OpenExpr::IC(Box::new((&**inner).clone())),
        }
    }
}

impl Clone for AtomicProp {
    fn clone(&self) -> (r: Self)
        ensures
            r == *self,
    {
        match self {
            AtomicProp::PointInOpen(p, o) => AtomicProp::PointInOpen(p.clone(), o.clone()),
            AtomicProp::OpenInter(a, b) => AtomicProp::OpenInter(a.clone(), b.clone()),
            AtomicProp::Nonempty(o) => AtomicProp::Nonempty(o.clone()),
            AtomicProp::PointNotEqual(p, q) => AtomicProp::PointNotEqual(p.clone(), q.clone()),
            AtomicProp::OpenNotEqual(a, b) => AtomicProp::OpenNotEqual(a.clone(), b.clone()),
            AtomicProp::PointEqual(p, q) => AtomicProp::PointEqual(p.clone(), q.clone()),
            AtomicProp::OpenEqual(a, b) => AtomicProp::OpenEqual(a.clone(), b.clone()),
        }
    }
}

impl Clone for MacroProp {
    fn clone(&self) -> (r: Self)
        ensures
            r == *self,
    {
        match self {
            MacroProp::TripleOpenInter(a, b, c) => MacroProp::TripleOpenInter(
                a.clone(),
                b.clone(),
                c.clone(),
            ),
            MacroProp::PointInter(p, q) => MacroProp::PointInter(p.clone(), q.clone()),
            MacroProp::TriplePointInter(p, q, r) => MacroProp::TriplePointInter(
                p.clone(),
                q.clone(),
                r.clone(),
            ),
            MacroProp::Transitive(o) => MacroProp::Transitive(o.clone()),
            MacroProp::Topen(o) => MacroProp::Topen(o.clone()),
            MacroProp::Regular(p) => MacroProp::Regular(p.clone()),
            MacroProp::Irregular(p) => MacroProp::Irregular(p.clone()),
            MacroProp::WeaklyRegular(p) => MacroProp::WeaklyRegular(p.clone()),
            MacroProp::Quasiregular(p) => MacroProp::Quasiregular(p.clone()),
            MacroProp::IndirectlyRegular(p) => MacroProp::IndirectlyRegular(p.clone()),
            MacroProp::Hypertransitive(p) => MacroProp::Hypertransitive(p.clone()),
            MacroProp::Unconflicted(p) => MacroProp::Unconflicted(p.clone()),
            MacroProp::Conflicted(p) => MacroProp::Conflicted(p.clone()),
            MacroProp::ConflictedSpace => MacroProp::ConflictedSpace,
            MacroProp::UnconflictedSpace => MacroProp::UnconflictedSpace,
            MacroProp::RegularSpace => MacroProp::RegularSpace,
            MacroProp::IrregularSpace => MacroProp::IrregularSpace,
            MacroProp::WeaklyRegularSpace => MacroProp::WeaklyRegularSpace,
            MacroProp::QuasiregularSpace => MacroProp::QuasiregularSpace,
            MacroProp::IndirectlyRegularSpace => MacroProp::IndirectlyRegularSpace,
            MacroProp::HypertransitiveSpace => MacroProp::HypertransitiveSpace,
        }
    }
}

impl Clone for Prop {
    fn clone(&self) -> (r: Self)
        ensures
            r == *self,
        decreases self,
    {
        match self {
            Prop::Logic(l) => Prop::Logic(l.clone()),
            Prop::Macro(m) => Prop::Macro(m.clone()),
        }
    }
}

impl Clone for LogicProp {
    fn clone(&self) -> (r: Self)
        ensures
            r == *self,
        decreases self,
    {
        match self {
            LogicProp::Quant(q) => LogicProp::Quant(q.clone()),
            LogicProp::Binary(b) => LogicProp::Binary(b.clone()),
            LogicProp::Unary(u) => LogicProp::Unary(u.clone()),
            LogicProp::Atomic(a) => LogicProp::Atomic(a.clone()),
        }
    }
}

impl Clone for QuantProp {
    fn clone(&self) -> (r: Self)
        ensures
            r == *self,
        decreases self,
    {
        match self {
            QuantProp::AP(v, p) => QuantProp::AP(v.clone(), Box::new((&**p).clone())),
            QuantProp::EP(v, p) => QuantProp::EP(v.clone(), Box::new((&**p).clone())),
            QuantProp::AO(v, p) => QuantProp::AO(v.clone(), Box::new((&**p).clone())),
            QuantProp::EO(v, p) => QuantProp::EO(v.clone(), Box::new((&**p).clone())),
        }
    }
}

impl Clone for BinaryProp {
    fn clone(&self) -> (r: Self)
        ensures
            r == *self,
        decreases self,
    {
        match self {
            BinaryProp::And(l, r) => BinaryProp::And(
                Box::new((&**l).clone()),
                Box::new((&**r).clone()),
            ),
            BinaryProp::Or(l, r) => BinaryProp::Or(
                Box::new((&**l).clone()),
                Box::new((&**r).clone()),
            ),
            BinaryProp::Implies(l, r) => BinaryProp::Implies(
                Box::new((&**l).clone()),
                Box::new((&**r).clone()),
            ),
            BinaryProp::Iff(l, r) => BinaryProp::Iff(
                Box::new((&**l).clone()),
                Box::new((&**r).clone()),
            ),
        }
    }
}

impl Clone for UnaryProp {
    fn clone(&self) -> (r: Self)
        ensures
            r == *self,
        decreases self,
    {
        match self {
            UnaryProp::Not(p) => UnaryProp::Not(Box::new((&**p).clone())),
        }
    }
}

} // verus!

//! The formula model: a closed tree grammar of clauses, goals, leaves,
//! quantifications and constants. Clauses and goals are generic over the leaf
//! type, so the same shapes serve with any leaf representation.

use vstd::prelude::*;

verus! {

/// A constant at the head of an application.
#[derive(PartialEq, Eq, Debug)]
pub enum Constant {
    /// A named constant of the source program, printed quoted.
    Program(String),
    /// A fresh constant made when an existential was eliminated, identified
    /// by its counter.
    Skolemized(u64),
}

/// An atomic formula.
#[derive(PartialEq, Eq, Debug)]
pub enum Leaf {
    /// An unresolved unification placeholder, identified by its number.
    InferenceVariable(u64),
    /// A reference to an enclosing binder slot, by de Bruijn depth: 0 is the
    /// innermost enclosing quantification.
    BoundVariable(usize),
    /// A constant applied to zero or more argument leaves, in order.
    Application { constant: Constant, args: Vec<Leaf> },
}

/// A flat prefix of `num_binders` binder slots around `formula`. All slots of
/// one quantification share one depth band: a bound variable of depth 0
/// inside `formula` refers to them.
#[derive(PartialEq, Eq, Debug)]
pub struct Quantification<F> {
    pub num_binders: usize,
    pub formula: F,
}

/// A Horn-clause-shaped formula used as a fact or a rule. It never holds
/// existential or disjunctive structure.
#[derive(PartialEq, Eq, Debug)]
pub enum Clause<L> {
    /// An atomic fact.
    Leaf(L),
    And(Box<Clause<L>>, Box<Clause<L>>),
    /// A rule: the goal is the condition, the leaf the consequence.
    Implication(Box<Goal<L>>, L),
    ForAll(Box<Quantification<Clause<L>>>),
}

/// A formula to be proved.
#[derive(PartialEq, Eq, Debug)]
pub enum Goal<L> {
    True,
    Leaf(L),
    And(Box<Goal<L>>, Box<Goal<L>>),
    Or(Box<Goal<L>>, Box<Goal<L>>),
    /// A hypothetical: assume the goal, then derive the leaf.
    Implication(Box<Goal<L>>, L),
    ForAll(Box<Quantification<Goal<L>>>),
    Exists(Box<Quantification<Goal<L>>>),
}

} // verus!

//! The expression and constraint model.
//!
//! A `Constraint` equates two `Expression` trees over integer literals and
//! named element properties.  Evaluation under an assignment of integers to
//! `(element, property)` slots produces a ghost rational (`Fraction` nodes
//! divide), or nothing when a referenced slot is unassigned or a divisor is
//! zero.

use vstd::prelude::*;
use crate::rat::{Rat, rat_add, rat_eq, rat_inv, rat_mul, rat_neg, rat_of_int, rat_wf};
use crate::rat::{lemma_rat_add_wf, lemma_rat_mul_wf};

verus! {

/// The name of a UI element; properties are always addressed as
/// `(element name, property)`, so cross-element references are ordinary.
pub type Name = String;

/// The closed set of addressable attributes of an element.
#[derive(Clone, Copy, PartialEq, Eq, Structural, Debug, Hash)]
pub enum Property {
    Width,
    Height,
    Left,
    Right,
    Bottom,
    Top,
    X,
    Y,
    Center,
    Color,
}

/// One step of a path through an expression tree: which child was taken at a
/// binary (`Sum`/`Product`) or unary (`Negative`/`Fraction`) node.  The first
/// entry of a whole path names the side of the equality instead.
#[derive(Clone, Copy, PartialEq, Eq, Structural, Debug)]
pub enum Direction {
    Left,
    Right,
    Down,
}

/// An immutable algebraic tree; `Fraction` is the multiplicative inverse.
#[derive(PartialEq, Eq, Debug)]
pub enum Expression {
    Sum(Box<Expression>, Box<Expression>),
    Product(Box<Expression>, Box<Expression>),
    Negative(Box<Expression>),
    Fraction(Box<Expression>),
    Value(i32),
    Property(Name, Property),
}

/// The sole constraint relation: an equality of two expressions.
#[derive(PartialEq, Eq, Debug)]
pub enum Constraint {
    Equality { left: Expression, right: Expression },
}

/// An assignment of concrete integers to some `(element, property)` slots.
pub type Env = Map<(Seq<char>, Property), int>;

impl Clone for Expression {
    /// A deep copy that is equal, in specifications, to the original.
    fn clone(&self) -> (r: Self)
        ensures
            r == *self,
        decreases self,
    {
        match self {
            Expression::Sum(a, b) => Expression::Sum(
                Box::new((**a).clone()),
                Box::new((**b).clone()),
            ),
            Expression::Product(a, b) => Expression::Product(
                Box::new((**a).clone()),
                Box::new((**b).clone()),
            ),
            Expression::Negative(a) => Expression::Negative(Box::new((**a).clone())),
            Expression::Fraction(a) => Expression::Fraction(Box::new((**a).clone())),
            Expression::Value(v) => Expression::Value(*v),
            Expression::Property(n, p) => Expression::Property(n.clone(), *p),
        }
    }
}

impl Clone for Constraint {
    /// A deep copy that is equal, in specifications, to the original.
    fn clone(&self) -> (r: Self)
        ensures
            r == *self,
    {
        match self {
            Constraint::Equality { left, right } => Constraint::Equality {
                left: left.clone(),
                right: right.clone(),
            },
        }
    }
}

/// The left side of an equality.
pub open spec fn lhs(c: Constraint) -> Expression {
    match c {
        Constraint::Equality { left, right } => left,
    }
}

/// The right side of an equality.
pub open spec fn rhs(c: Constraint) -> Expression {
    match c {
        Constraint::Equality { left, right } => right,
    }
}

/// The exact rational value of `e` under `env`, or `None` when `e` reaches a
/// property that `env` does not assign or inverts a zero.
pub open spec fn eval(e: Expression, env: Env) -> Option<Rat>
    decreases e,
{
    match e {
        Expression::Sum(a, b) => match (eval(*a, env), eval(*b, env)) {
            (Some(x), Some(y)) => Some(rat_add(x, y)),
            _ => None,
        },
        Expression::Product(a, b) => match (eval(*a, env), eval(*b, env)) {
            (Some(x), Some(y)) => Some(rat_mul(x, y)),
            _ => None,
        },
        Expression::Negative(a) => match eval(*a, env) {
            Some(x) => Some(rat_neg(x)),
            None => None,
        },
        Expression::Fraction(a) => match eval(*a, env) {
            Some(x) => if x.num != 0 {
                Some(rat_inv(x))
            } else {
                None
            },
            None => None,
        },
        Expression::Value(v) => Some(rat_of_int(v as int)),
        Expression::Property(n, p) => if env.dom().contains((n@, p)) {
            Some(rat_of_int(env[(n@, p)]))
        } else {
            None
        },
    }
}

/// Whatever evaluation returns is a well-formed rational.
pub proof fn lemma_eval_wf(e: Expression, env: Env)
    ensures
        eval(e, env) matches Some(r) ==> rat_wf(r),
    decreases e,
{
    match e {
        Expression::Sum(a, b) => {
            lemma_eval_wf(*a, env);
            lemma_eval_wf(*b, env);
            if eval(*a, env) is Some && eval(*b, env) is Some {
                lemma_rat_add_wf(eval(*a, env)->Some_0, eval(*b, env)->Some_0);
            }
        },
        Expression::Product(a, b) => {
            lemma_eval_wf(*a, env);
            lemma_eval_wf(*b, env);
            if eval(*a, env) is Some && eval(*b, env) is Some {
                lemma_rat_mul_wf(eval(*a, env)->Some_0, eval(*b, env)->Some_0);
            }
        },
        Expression::Negative(a) => {
            lemma_eval_wf(*a, env);
        },
        Expression::Fraction(a) => {
            lemma_eval_wf(*a, env);
        },
        Expression::Value(_) => {},
        Expression::Property(_, _) => {},
    }
}

/// Both sides of `c` evaluate under `env`.
pub open spec fn sides_defined(c: Constraint, env: Env) -> bool {
    eval(lhs(c), env) is Some && eval(rhs(c), env) is Some
}

/// `env` makes the equality true; meaningful only when `sides_defined`.
pub open spec fn constraint_holds(c: Constraint, env: Env) -> bool {
    sides_defined(c, env) && rat_eq(eval(lhs(c), env)->Some_0, eval(rhs(c), env)->Some_0)
}

/// The element names that occur in property leaves of `e`.
pub open spec fn expr_names(e: Expression) -> Set<Seq<char>>
    decreases e,
{
    match e {
        Expression::Sum(a, b) => expr_names(*a).union(expr_names(*b)),
        Expression::Product(a, b) => expr_names(*a).union(expr_names(*b)),
        Expression::Negative(a) => expr_names(*a),
        Expression::Fraction(a) => expr_names(*a),
        Expression::Value(_) => Set::empty(),
        Expression::Property(n, _) => Set::empty().insert(n@),
    }
}

/// The element names that occur anywhere in `c`.
pub open spec fn constraint_names(c: Constraint) -> Set<Seq<char>> {
    expr_names(lhs(c)).union(expr_names(rhs(c)))
}

/// The element names that occur anywhere in a constraint sequence.
pub open spec fn constraints_names(cs: Seq<Constraint>) -> Set<Seq<char>>
    decreases cs.len(),
{
    if cs.len() == 0 {
        Set::empty()
    } else {
        constraints_names(cs.drop_last()).union(constraint_names(cs.last()))
    }
}

/// Every name of a constraint sequence occurs in one of its constraints.
pub proof fn lemma_constraints_names_member(cs: Seq<Constraint>, n: Seq<char>)
    requires
        constraints_names(cs).contains(n),
    ensures
        exists|k: int| 0 <= k < cs.len() && constraint_names(#[trigger] cs[k]).contains(n),
    decreases cs.len(),
{
    if cs.len() > 0 {
        if constraint_names(cs.last()).contains(n) {
            assert(cs[cs.len() - 1] == cs.last());
            assert(constraint_names(cs[cs.len() - 1]).contains(n));
        } else {
            lemma_constraints_names_member(cs.drop_last(), n);
            let k = choose|k: int|
                0 <= k < cs.drop_last().len() && constraint_names(
                    #[trigger] cs.drop_last()[k],
                ).contains(n);
            assert(cs[k] == cs.drop_last()[k]);
            assert(constraint_names(cs[k]).contains(n));
        }
    }
}

} // verus!

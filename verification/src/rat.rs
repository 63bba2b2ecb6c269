//! Ghost rational numbers.
//!
//! Expression evaluation divides through `Fraction` nodes, so the value of an
//! expression under an assignment is in general a rational, not an integer.
//! These rationals exist only in specifications and proofs.  They are kept
//! unnormalized: `den` is never zero for a well-formed rational, and equality
//! is cross-multiplication (`rat_eq`), so no gcd reasoning is ever needed.

use vstd::prelude::*;

verus! {

/// An unnormalized rational `num / den`.
pub ghost struct Rat {
    pub num: int,
    pub den: int,
}

/// Well-formed: the denominator is nonzero.
pub open spec fn rat_wf(a: Rat) -> bool {
    a.den != 0
}

/// Equality by cross-multiplication; an equivalence relation on well-formed
/// rationals.
pub open spec fn rat_eq(a: Rat, b: Rat) -> bool {
    a.num * b.den == b.num * a.den
}

pub open spec fn rat_of_int(v: int) -> Rat {
    Rat { num: v, den: 1 }
}

pub open spec fn rat_add(a: Rat, b: Rat) -> Rat {
    Rat { num: a.num * b.den + b.num * a.den, den: a.den * b.den }
}

pub open spec fn rat_mul(a: Rat, b: Rat) -> Rat {
    Rat { num: a.num * b.num, den: a.den * b.den }
}

pub open spec fn rat_neg(a: Rat) -> Rat {
    Rat { num: -a.num, den: a.den }
}

/// The multiplicative inverse; well-formed only when `a.num != 0`.
pub open spec fn rat_inv(a: Rat) -> Rat {
    Rat { num: a.den, den: a.num }
}

pub proof fn lemma_rat_eq_trans(a: Rat, b: Rat, c: Rat)
    requires
        rat_wf(a),
        rat_wf(b),
        rat_wf(c),
        rat_eq(a, b),
        rat_eq(b, c),
    ensures
        rat_eq(a, c),
{
    assert(a.num * c.den == c.num * a.den) by (nonlinear_arith)
        requires
            a.num * b.den == b.num * a.den,
            b.num * c.den == c.num * b.den,
            b.den != 0,
    ;
}

/// Replacing one side of an equality test by an equal rational does not
/// change the outcome.
pub proof fn lemma_rat_eq_congr_left(a: Rat, b: Rat, c: Rat)
    requires
        rat_wf(a),
        rat_wf(b),
        rat_wf(c),
        rat_eq(a, b),
    ensures
        rat_eq(a, c) <==> rat_eq(b, c),
{
    if rat_eq(a, c) {
        lemma_rat_eq_trans(b, a, c);
    }
    if rat_eq(b, c) {
        lemma_rat_eq_trans(a, b, c);
    }
}

pub proof fn lemma_rat_add_wf(a: Rat, b: Rat)
    requires
        rat_wf(a),
        rat_wf(b),
    ensures
        rat_wf(rat_add(a, b)),
{
    assert(a.den * b.den != 0) by (nonlinear_arith)
        requires
            a.den != 0,
            b.den != 0,
    ;
}

pub proof fn lemma_rat_mul_wf(a: Rat, b: Rat)
    requires
        rat_wf(a),
        rat_wf(b),
    ensures
        rat_wf(rat_mul(a, b)),
{
    assert(a.den * b.den != 0) by (nonlinear_arith)
        requires
            a.den != 0,
            b.den != 0,
    ;
}

/// Equal rationals are zero together.
pub proof fn lemma_rat_eq_zero(a: Rat, b: Rat)
    requires
        rat_wf(a),
        rat_wf(b),
        rat_eq(a, b),
    ensures
        (a.num == 0) <==> (b.num == 0),
{
    assert((a.num == 0) <==> (b.num == 0)) by (nonlinear_arith)
        requires
            a.num * b.den == b.num * a.den,
            a.den != 0,
            b.den != 0,
    ;
}

/// `x + s == t` exactly when `x == t + (-s)`: the rewrite the isolator
/// applies at a `Sum` node.
#[verifier::rlimit(100)]
pub proof fn lemma_rat_sum_move(x: Rat, s: Rat, t: Rat)
    requires
        rat_wf(x),
        rat_wf(s),
        rat_wf(t),
    ensures
        rat_eq(rat_add(x, s), t) <==> rat_eq(x, rat_add(t, rat_neg(s))),
{
    assert(((x.num * s.den + s.num * x.den) * t.den == t.num * (x.den * s.den)) <==> (x.num * (
    t.den * s.den) == (t.num * s.den + (-s.num) * t.den) * x.den)) by (nonlinear_arith)
        requires
            x.den != 0,
            s.den != 0,
            t.den != 0,
    ;
}

/// `x * s == t` exactly when `x == t * (1/s)`, for `s` nonzero: the rewrite
/// the isolator applies at a `Product` node.
pub proof fn lemma_rat_product_move(x: Rat, s: Rat, t: Rat)
    requires
        rat_wf(x),
        rat_wf(s),
        rat_wf(t),
        s.num != 0,
    ensures
        rat_eq(rat_mul(x, s), t) <==> rat_eq(x, rat_mul(t, rat_inv(s))),
{
    assert(((x.num * s.num) * t.den == t.num * (x.den * s.den)) <==> (x.num * (t.den * s.num) == (
    t.num * s.den) * x.den)) by (nonlinear_arith)
        requires
            x.den != 0,
            s.den != 0,
            t.den != 0,
            s.num != 0,
    ;
}

/// `-x == t` exactly when `x == -t`: the rewrite the isolator applies at a
/// `Negative` node.
pub proof fn lemma_rat_neg_move(x: Rat, t: Rat)
    requires
        rat_wf(x),
        rat_wf(t),
    ensures
        rat_eq(rat_neg(x), t) <==> rat_eq(x, rat_neg(t)),
{
    assert(((-x.num) * t.den == t.num * x.den) <==> (x.num * t.den == (-t.num) * x.den))
        by (nonlinear_arith);
}

/// `1/x == t` exactly when `x == 1/t`, for `x` and `t` nonzero: the rewrite
/// the isolator applies at a `Fraction` node.
pub proof fn lemma_rat_inv_move(x: Rat, t: Rat)
    requires
        rat_wf(x),
        rat_wf(t),
        x.num != 0,
        t.num != 0,
    ensures
        rat_eq(rat_inv(x), t) <==> rat_eq(x, rat_inv(t)),
{
    assert((x.den * t.den == t.num * x.num) <==> (x.num * t.num == t.den * x.den))
        by (nonlinear_arith)
        requires
            x.den != 0,
            t.den != 0,
            x.num != 0,
            t.num != 0,
    ;
}

/// Addition respects `rat_eq`.
#[verifier::rlimit(100)]
pub proof fn lemma_rat_add_congr(a: Rat, a2: Rat, b: Rat, b2: Rat)
    requires
        rat_wf(a),
        rat_wf(a2),
        rat_wf(b),
        rat_wf(b2),
        rat_eq(a, a2),
        rat_eq(b, b2),
    ensures
        rat_eq(rat_add(a, b), rat_add(a2, b2)),
{
    assert((a.num * a2.den) * (b.den * b2.den) == (a2.num * a.den) * (b.den * b2.den))
        by (nonlinear_arith)
        requires
            a.num * a2.den == a2.num * a.den,
    ;
    assert((b.num * b2.den) * (a.den * a2.den) == (b2.num * b.den) * (a.den * a2.den))
        by (nonlinear_arith)
        requires
            b.num * b2.den == b2.num * b.den,
    ;
    assert((a.num * b.den + b.num * a.den) * (a2.den * b2.den) == (a.num * a2.den) * (b.den
        * b2.den) + (b.num * b2.den) * (a.den * a2.den)) by (nonlinear_arith);
    assert((a2.num * b2.den + b2.num * a2.den) * (a.den * b.den) == (a2.num * b2.den) * (a.den
        * b.den) + (b2.num * a2.den) * (a.den * b.den)) by (nonlinear_arith);
    assert((a2.num * b2.den) * (a.den * b.den) == (a2.num * a.den) * (b.den * b2.den))
        by (nonlinear_arith);
    assert((b2.num * a2.den) * (a.den * b.den) == (b2.num * b.den) * (a.den * a2.den))
        by (nonlinear_arith);
}

/// Multiplication respects `rat_eq`.
pub proof fn lemma_rat_mul_congr(a: Rat, a2: Rat, b: Rat, b2: Rat)
    requires
        rat_wf(a),
        rat_wf(a2),
        rat_wf(b),
        rat_wf(b2),
        rat_eq(a, a2),
        rat_eq(b, b2),
    ensures
        rat_eq(rat_mul(a, b), rat_mul(a2, b2)),
{
    assert((a.num * b.num) * (a2.den * b2.den) == (a2.num * b2.num) * (a.den * b.den))
        by (nonlinear_arith)
        requires
            a.num * a2.den == a2.num * a.den,
            b.num * b2.den == b2.num * b.den,
            a.den != 0,
            a2.den != 0,
            b.den != 0,
            b2.den != 0,
    ;
}

/// Negation respects `rat_eq`.
pub proof fn lemma_rat_neg_congr(a: Rat, a2: Rat)
    requires
        rat_wf(a),
        rat_wf(a2),
        rat_eq(a, a2),
    ensures
        rat_eq(rat_neg(a), rat_neg(a2)),
{
    assert(((-a.num) * a2.den == (-a2.num) * a.den) <==> (a.num * a2.den == a2.num * a.den))
        by (nonlinear_arith);
}

/// Inversion respects `rat_eq` on nonzero rationals.
pub proof fn lemma_rat_inv_congr(a: Rat, a2: Rat)
    requires
        rat_wf(a),
        rat_wf(a2),
        a.num != 0,
        a2.num != 0,
        rat_eq(a, a2),
    ensures
        rat_eq(rat_inv(a), rat_inv(a2)),
{
    assert((a.den * a2.num == a2.den * a.num) <==> (a.num * a2.den == a2.num * a.den))
        by (nonlinear_arith);
}

} // verus!

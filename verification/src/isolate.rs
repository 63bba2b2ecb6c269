//! The isolator.
//!
//! Given the path to one property occurrence, the constraint is rearranged so
//! that the occurrence stands alone on the left: at a `Sum` node the sibling
//! moves to the other side negated, at a `Product` node it moves across as a
//! reciprocal multiplicand, and a `Negative` or `Fraction` node wraps the
//! other side correspondingly.  The rewrite never evaluates anything; its
//! soundness (`lemma_isolation_sound`) says that under any assignment where
//! everything evaluates, the original and the isolated equality are true
//! together.

use vstd::prelude::*;
use crate::expr::{Constraint, Direction, Expression, Env, eval, lhs, rhs};
use crate::expr::{constraint_holds, constraint_names, expr_names, lemma_eval_wf, sides_defined};
use crate::rat::{rat_add, rat_eq, rat_inv, rat_mul, rat_neg};
use crate::rat::{
    lemma_rat_eq_zero,
    lemma_rat_inv_move,
    lemma_rat_neg_move,
    lemma_rat_product_move,
    lemma_rat_sum_move,
};
use crate::paths::{constraint_paths, expr_at, expr_paths};

verus! {

/// One isolation walk: descend `p` through `extract`, moving every sibling
/// over to `throw`.  Returns the final `(isolated subtree, other side)` pair,
/// or `None` when `p` does not match the shape of `extract`.
pub open spec fn iso(extract: Expression, throw: Expression, p: Seq<Direction>) -> Option<
    (Expression, Expression),
>
    decreases p.len(),
{
    if p.len() == 0 {
        Some((extract, throw))
    } else {
        match extract {
            Expression::Sum(a, b) => if p[0] is Left {
                iso(
                    *a,
                    Expression::Sum(Box::new(throw), Box::new(Expression::Negative(b))),
                    p.drop_first(),
                )
            } else if p[0] is Right {
                iso(
                    *b,
                    Expression::Sum(Box::new(throw), Box::new(Expression::Negative(a))),
                    p.drop_first(),
                )
            } else {
                None
            },
            Expression::Product(a, b) => if p[0] is Left {
                iso(
                    *a,
                    Expression::Product(Box::new(throw), Box::new(Expression::Fraction(b))),
                    p.drop_first(),
                )
            } else if p[0] is Right {
                iso(
                    *b,
                    Expression::Product(Box::new(throw), Box::new(Expression::Fraction(a))),
                    p.drop_first(),
                )
            } else {
                None
            },
            Expression::Negative(a) => if p[0] is Down {
                iso(*a, Expression::Negative(Box::new(throw)), p.drop_first())
            } else {
                None
            },
            Expression::Fraction(a) => if p[0] is Down {
                iso(*a, Expression::Fraction(Box::new(throw)), p.drop_first())
            } else {
                None
            },
            Expression::Value(_) => None,
            Expression::Property(_, _) => None,
        }
    }
}

/// Isolation of the occurrence that `p` addresses in `c`: the side marker
/// picks the extraction side, the rest of `p` drives the walk.
pub open spec fn constraint_iso(c: Constraint, p: Seq<Direction>) -> Option<Constraint> {
    if p.len() == 0 {
        None
    } else if p[0] is Left {
        match iso(lhs(c), rhs(c), p.drop_first()) {
            Some(pair) => Some(Constraint::Equality { left: pair.0, right: pair.1 }),
            None => None,
        }
    } else if p[0] is Right {
        match iso(rhs(c), lhs(c), p.drop_first()) {
            Some(pair) => Some(Constraint::Equality { left: pair.0, right: pair.1 }),
            None => None,
        }
    } else {
        None
    }
}

/// Along every path the path finder reports, isolation succeeds, ends at the
/// property leaf the path addresses, and that leaf's name occurs in the
/// expression.
pub proof fn lemma_iso_of_path(e: Expression, t: Expression, i: int)
    requires
        0 <= i < expr_paths(e).len(),
    ensures
        iso(e, t, expr_paths(e)[i]) is Some,
        expr_at(e, expr_paths(e)[i]) is Some,
        (iso(e, t, expr_paths(e)[i])->Some_0).0 == expr_at(e, expr_paths(e)[i])->Some_0,
        expr_at(e, expr_paths(e)[i])->Some_0 matches Expression::Property(n, _) ==> expr_names(
            e,
        ).contains(n@),
        expr_at(e, expr_paths(e)[i])->Some_0 is Property,
    decreases e,
{
    match e {
        Expression::Sum(a, b) => {
            let pa = expr_paths(*a);
            let pb = expr_paths(*b);
            let p = expr_paths(e)[i];
            if i < pa.len() {
                assert(p == seq![Direction::Left] + pa[i]);
                assert(p.drop_first() =~= pa[i]);
                lemma_iso_of_path(
                    *a,
                    Expression::Sum(Box::new(t), Box::new(Expression::Negative(b))),
                    i,
                );
            } else {
                let j = i - pa.len();
                assert(p == seq![Direction::Right] + pb[j]);
                assert(p.drop_first() =~= pb[j]);
                lemma_iso_of_path(
                    *b,
                    Expression::Sum(Box::new(t), Box::new(Expression::Negative(a))),
                    j,
                );
            }
        },
        Expression::Product(a, b) => {
            let pa = expr_paths(*a);
            let pb = expr_paths(*b);
            let p = expr_paths(e)[i];
            if i < pa.len() {
                assert(p == seq![Direction::Left] + pa[i]);
                assert(p.drop_first() =~= pa[i]);
                lemma_iso_of_path(
                    *a,
                    Expression::Product(Box::new(t), Box::new(Expression::Fraction(b))),
                    i,
                );
            } else {
                let j = i - pa.len();
                assert(p == seq![Direction::Right] + pb[j]);
                assert(p.drop_first() =~= pb[j]);
                lemma_iso_of_path(
                    *b,
                    Expression::Product(Box::new(t), Box::new(Expression::Fraction(a))),
                    j,
                );
            }
        },
        Expression::Negative(a) => {
            let p = expr_paths(e)[i];
            assert(p == seq![Direction::Down] + expr_paths(*a)[i]);
            assert(p.drop_first() =~= expr_paths(*a)[i]);
            lemma_iso_of_path(*a, Expression::Negative(Box::new(t)), i);
        },
        Expression::Fraction(a) => {
            let p = expr_paths(e)[i];
            assert(p == seq![Direction::Down] + expr_paths(*a)[i]);
            assert(p.drop_first() =~= expr_paths(*a)[i]);
            lemma_iso_of_path(*a, Expression::Fraction(Box::new(t)), i);
        },
        Expression::Value(_) => {},
        Expression::Property(_, _) => {
            let p = expr_paths(e)[i];
            assert(p =~= Seq::<Direction>::empty());
        },
    }
}

/// `p` leads in `e` to a property leaf of element `n`.
pub open spec fn path_hits_name(e: Expression, p: Seq<Direction>, n: Seq<char>) -> bool {
    expr_at(e, p) matches Some(Expression::Property(m, _)) && m@ == n
}

/// Every element name of `e` is reached by some reported path.
pub proof fn lemma_name_has_path(e: Expression, n: Seq<char>)
    requires
        expr_names(e).contains(n),
    ensures
        exists|i: int|
            0 <= i < expr_paths(e).len() && #[trigger] path_hits_name(e, expr_paths(e)[i], n),
    decreases e,
{
    match e {
        Expression::Sum(a, b) => {
            let pa = expr_paths(*a);
            let pb = expr_paths(*b);
            if expr_names(*a).contains(n) {
                lemma_name_has_path(*a, n);
                let i = choose|i: int|
                    0 <= i < pa.len() && #[trigger] path_hits_name(*a, pa[i], n);
                assert(expr_paths(e)[i] == seq![Direction::Left] + pa[i]);
                assert((seq![Direction::Left] + pa[i]).drop_first() =~= pa[i]);
                assert(expr_at(e, expr_paths(e)[i]) == expr_at(*a, pa[i]));
                assert(path_hits_name(e, expr_paths(e)[i], n));
            } else {
                lemma_name_has_path(*b, n);
                let j = choose|j: int|
                    0 <= j < pb.len() && #[trigger] path_hits_name(*b, pb[j], n);
                assert(expr_paths(e)[pa.len() + j] == seq![Direction::Right] + pb[j]);
                assert((seq![Direction::Right] + pb[j]).drop_first() =~= pb[j]);
                assert(expr_at(e, expr_paths(e)[pa.len() + j]) == expr_at(*b, pb[j]));
                assert(path_hits_name(e, expr_paths(e)[pa.len() + j], n));
            }
        },
        Expression::Product(a, b) => {
            let pa = expr_paths(*a);
            let pb = expr_paths(*b);
            if expr_names(*a).contains(n) {
                lemma_name_has_path(*a, n);
                let i = choose|i: int|
                    0 <= i < pa.len() && #[trigger] path_hits_name(*a, pa[i], n);
                assert(expr_paths(e)[i] == seq![Direction::Left] + pa[i]);
                assert((seq![Direction::Left] + pa[i]).drop_first() =~= pa[i]);
                assert(expr_at(e, expr_paths(e)[i]) == expr_at(*a, pa[i]));
                assert(path_hits_name(e, expr_paths(e)[i], n));
            } else {
                lemma_name_has_path(*b, n);
                let j = choose|j: int|
                    0 <= j < pb.len() && #[trigger] path_hits_name(*b, pb[j], n);
                assert(expr_paths(e)[pa.len() + j] == seq![Direction::Right] + pb[j]);
                assert((seq![Direction::Right] + pb[j]).drop_first() =~= pb[j]);
                assert(expr_at(e, expr_paths(e)[pa.len() + j]) == expr_at(*b, pb[j]));
                assert(path_hits_name(e, expr_paths(e)[pa.len() + j], n));
            }
        },
        Expression::Negative(a) => {
            lemma_name_has_path(*a, n);
            let pa = expr_paths(*a);
            let i = choose|i: int|
                0 <= i < pa.len() && #[trigger] path_hits_name(*a, pa[i], n);
            assert(expr_paths(e)[i] == seq![Direction::Down] + pa[i]);
            assert((seq![Direction::Down] + pa[i]).drop_first() =~= pa[i]);
            assert(expr_at(e, expr_paths(e)[i]) == expr_at(*a, pa[i]));
            assert(path_hits_name(e, expr_paths(e)[i], n));
        },
        Expression::Fraction(a) => {
            lemma_name_has_path(*a, n);
            let pa = expr_paths(*a);
            let i = choose|i: int|
                0 <= i < pa.len() && #[trigger] path_hits_name(*a, pa[i], n);
            assert(expr_paths(e)[i] == seq![Direction::Down] + pa[i]);
            assert((seq![Direction::Down] + pa[i]).drop_first() =~= pa[i]);
            assert(expr_at(e, expr_paths(e)[i]) == expr_at(*a, pa[i]));
            assert(path_hits_name(e, expr_paths(e)[i], n));
        },
        Expression::Value(_) => {},
        Expression::Property(_, _) => {
            assert(expr_at(e, expr_paths(e)[0]) == Some(e));
            assert(path_hits_name(e, expr_paths(e)[0], n));
        },
    }
}

/// The inner soundness induction: walking one isolation step keeps the two
/// equalities true together, and definedness of the final right-hand side
/// flows back to every intermediate "thrown" expression.
proof fn lemma_iso_sound(e: Expression, t: Expression, p: Seq<Direction>, env: Env)
    requires
        iso(e, t, p) is Some,
        eval(e, env) is Some,
    ensures
        eval((iso(e, t, p)->Some_0).1, env) is Some ==> eval(t, env) is Some,
        eval((iso(e, t, p)->Some_0).1, env) is Some ==> eval((iso(e, t, p)->Some_0).0, env)
            is Some,
        eval((iso(e, t, p)->Some_0).1, env) is Some ==> (rat_eq(
            eval(e, env)->Some_0,
            eval(t, env)->Some_0,
        ) <==> rat_eq(
            eval((iso(e, t, p)->Some_0).0, env)->Some_0,
            eval((iso(e, t, p)->Some_0).1, env)->Some_0,
        )),
    decreases p.len(),
{
    if p.len() == 0 {
    } else {
        let p2 = p.drop_first();
        match e {
            Expression::Sum(a, b) => {
                let va = eval(*a, env)->Some_0;
                let vb = eval(*b, env)->Some_0;
                let vt = eval(t, env)->Some_0;
                lemma_eval_wf(*a, env);
                lemma_eval_wf(*b, env);
                lemma_eval_wf(t, env);
                if p[0] is Left {
                    let t1 = Expression::Sum(Box::new(t), Box::new(Expression::Negative(b)));
                    lemma_iso_sound(*a, t1, p2, env);
                    assert(iso(e, t, p) == iso(*a, t1, p2));
                    if eval((iso(e, t, p)->Some_0).1, env) is Some {
                        assert(eval(t1, env) is Some);
                        assert(eval(t, env) is Some);
                        assert(eval(Expression::Negative(b), env) == Some(rat_neg(vb)));
                        assert(eval(t1, env) == Some(rat_add(vt, rat_neg(vb))));
                        lemma_rat_sum_move(va, vb, vt);
                    }
                } else {
                    let t1 = Expression::Sum(Box::new(t), Box::new(Expression::Negative(a)));
                    lemma_iso_sound(*b, t1, p2, env);
                    assert(iso(e, t, p) == iso(*b, t1, p2));
                    if eval((iso(e, t, p)->Some_0).1, env) is Some {
                        assert(eval(t1, env) is Some);
                        assert(eval(t, env) is Some);
                        assert(eval(Expression::Negative(a), env) == Some(rat_neg(va)));
                        assert(eval(t1, env) == Some(rat_add(vt, rat_neg(va))));
                        lemma_rat_sum_move(vb, va, vt);
                        assert(rat_add(va, vb).den == rat_add(vb, va).den) by (nonlinear_arith);
                        assert(rat_add(va, vb) == rat_add(vb, va));
                    }
                }
            },
            Expression::Product(a, b) => {
                let va = eval(*a, env)->Some_0;
                let vb = eval(*b, env)->Some_0;
                let vt = eval(t, env)->Some_0;
                lemma_eval_wf(*a, env);
                lemma_eval_wf(*b, env);
                lemma_eval_wf(t, env);
                if p[0] is Left {
                    let t1 = Expression::Product(Box::new(t), Box::new(Expression::Fraction(b)));
                    lemma_iso_sound(*a, t1, p2, env);
                    assert(iso(e, t, p) == iso(*a, t1, p2));
                    if eval((iso(e, t, p)->Some_0).1, env) is Some {
                        assert(eval(t1, env) is Some);
                        assert(eval(t, env) is Some);
                        assert(eval(Expression::Fraction(b), env) is Some);
                        assert(vb.num != 0);
                        assert(eval(Expression::Fraction(b), env) == Some(rat_inv(vb)));
                        assert(eval(t1, env) == Some(rat_mul(vt, rat_inv(vb))));
                        lemma_rat_product_move(va, vb, vt);
                    }
                } else {
                    let t1 = Expression::Product(Box::new(t), Box::new(Expression::Fraction(a)));
                    lemma_iso_sound(*b, t1, p2, env);
                    assert(iso(e, t, p) == iso(*b, t1, p2));
                    if eval((iso(e, t, p)->Some_0).1, env) is Some {
                        assert(eval(t1, env) is Some);
                        assert(eval(t, env) is Some);
                        assert(eval(Expression::Fraction(a), env) is Some);
                        assert(va.num != 0);
                        assert(eval(Expression::Fraction(a), env) == Some(rat_inv(va)));
                        assert(eval(t1, env) == Some(rat_mul(vt, rat_inv(va))));
                        lemma_rat_product_move(vb, va, vt);
                        assert(rat_mul(va, vb).num == rat_mul(vb, va).num) by (nonlinear_arith);
                        assert(rat_mul(va, vb).den == rat_mul(vb, va).den) by (nonlinear_arith);
                        assert(rat_mul(va, vb) == rat_mul(vb, va));
                    }
                }
            },
            Expression::Negative(a) => {
                let va = eval(*a, env)->Some_0;
                let vt = eval(t, env)->Some_0;
                lemma_eval_wf(*a, env);
                lemma_eval_wf(t, env);
                let t1 = Expression::Negative(Box::new(t));
                lemma_iso_sound(*a, t1, p2, env);
                assert(iso(e, t, p) == iso(*a, t1, p2));
                if eval((iso(e, t, p)->Some_0).1, env) is Some {
                    assert(eval(t1, env) is Some);
                    assert(eval(t, env) is Some);
                    assert(eval(t1, env) == Some(rat_neg(vt)));
                    lemma_rat_neg_move(va, vt);
                }
            },
            Expression::Fraction(a) => {
                let va = eval(*a, env)->Some_0;
                let vt = eval(t, env)->Some_0;
                lemma_eval_wf(*a, env);
                lemma_eval_wf(t, env);
                let t1 = Expression::Fraction(Box::new(t));
                lemma_iso_sound(*a, t1, p2, env);
                assert(iso(e, t, p) == iso(*a, t1, p2));
                if eval((iso(e, t, p)->Some_0).1, env) is Some {
                    assert(eval(t1, env) is Some);
                    assert(eval(t, env) is Some);
                    assert(vt.num != 0);
                    assert(va.num != 0);
                    assert(eval(t1, env) == Some(rat_inv(vt)));
                    lemma_rat_inv_move(va, vt);
                }
            },
            Expression::Value(_) => {},
            Expression::Property(_, _) => {},
        }
    }
}

/// Isolation soundness: under any assignment where both sides of the
/// original constraint and the isolated right-hand side all evaluate, the
/// original equality and the isolated equality have the same truth value.
pub proof fn lemma_isolation_sound(c: Constraint, p: Seq<Direction>, env: Env)
    requires
        constraint_paths(c).contains(p),
        sides_defined(c, env),
        eval(rhs(constraint_iso(c, p)->Some_0), env) is Some,
    ensures
        constraint_iso(c, p) is Some,
        sides_defined(constraint_iso(c, p)->Some_0, env),
        constraint_holds(c, env) <==> constraint_holds(constraint_iso(c, p)->Some_0, env),
{
    let i = choose|i: int| 0 <= i < constraint_paths(c).len() && constraint_paths(c)[i] == p;
    let la = expr_paths(lhs(c));
    let lb = expr_paths(rhs(c));
    if i < la.len() {
        assert(p == seq![Direction::Left] + la[i]);
        assert(p.drop_first() =~= la[i]);
        lemma_iso_of_path(lhs(c), rhs(c), i);
        lemma_iso_sound(lhs(c), rhs(c), la[i], env);
    } else {
        let j = i - la.len();
        assert(p == seq![Direction::Right] + lb[j]);
        assert(p.drop_first() =~= lb[j]);
        lemma_iso_of_path(rhs(c), lhs(c), j);
        lemma_iso_sound(rhs(c), lhs(c), lb[j], env);
    }
}

/// Every path the path finder reports on a constraint isolates successfully,
/// its left side is the addressed property leaf, and that leaf's name is one
/// of the constraint's names.
pub proof fn lemma_constraint_path_iso(c: Constraint, i: int)
    requires
        0 <= i < constraint_paths(c).len(),
    ensures
        constraint_iso(c, constraint_paths(c)[i]) is Some,
        lhs(constraint_iso(c, constraint_paths(c)[i])->Some_0) is Property,
        lhs(constraint_iso(c, constraint_paths(c)[i])->Some_0) matches Expression::Property(
            n,
            _,
        ) ==> constraint_names(c).contains(n@),
{
    let la = expr_paths(lhs(c));
    let lb = expr_paths(rhs(c));
    let p = constraint_paths(c)[i];
    if i < la.len() {
        assert(p == seq![Direction::Left] + la[i]);
        assert(p.drop_first() =~= la[i]);
        lemma_iso_of_path(lhs(c), rhs(c), i);
    } else {
        let j = i - la.len();
        assert(p == seq![Direction::Right] + lb[j]);
        assert(p.drop_first() =~= lb[j]);
        lemma_iso_of_path(rhs(c), lhs(c), j);
    }
}

/// The isolated constraint at path index `j` of `c` has a bare property of
/// element `n` on its left.
pub open spec fn iso_lhs_named(c: Constraint, j: int, n: Seq<char>) -> bool {
    lhs(constraint_iso(c, constraint_paths(c)[j])->Some_0) matches Expression::Property(m, _)
        && m@ == n
}

/// Every element name of a constraint is isolated by some reported path.
pub proof fn lemma_constraint_name_has_path(c: Constraint, n: Seq<char>)
    requires
        constraint_names(c).contains(n),
    ensures
        exists|j: int|
            0 <= j < constraint_paths(c).len() && #[trigger] iso_lhs_named(c, j, n),
{
    let la = expr_paths(lhs(c));
    let lb = expr_paths(rhs(c));
    if expr_names(lhs(c)).contains(n) {
        lemma_name_has_path(lhs(c), n);
        let i = choose|i: int|
            0 <= i < la.len() && #[trigger] path_hits_name(lhs(c), la[i], n);
        let p = constraint_paths(c)[i];
        assert(p == seq![Direction::Left] + la[i]);
        assert(p.drop_first() =~= la[i]);
        lemma_iso_of_path(lhs(c), rhs(c), i);
        assert(iso_lhs_named(c, i, n));
    } else {
        lemma_name_has_path(rhs(c), n);
        let i = choose|i: int|
            0 <= i < lb.len() && #[trigger] path_hits_name(rhs(c), lb[i], n);
        let j = la.len() + i;
        let p = constraint_paths(c)[j];
        assert(p == seq![Direction::Right] + lb[i]);
        assert(p.drop_first() =~= lb[i]);
        lemma_iso_of_path(rhs(c), lhs(c), i);
        assert(iso_lhs_named(c, j, n));
    }
}

/// Algebraically rearrange `init` so that the property occurrence addressed
/// by `path` stands alone on the left.  The path must match the tree: the
/// path finder guarantees this for every path it returns, and any mismatch
/// would be a defect inside the engine, not a property of the input.
pub fn isolate_variable(path: Vec<Direction>, init: Constraint) -> (r: Constraint)
    requires
        constraint_iso(init, path@) is Some,
    ensures
        r == constraint_iso(init, path@)->Some_0,
{
    let ghost c0 = init;
    let (left, right) = match init {
        Constraint::Equality { left, right } => (left, right),
    };
    let (mut extract, mut throw) = match path[0] {
        Direction::Left => (left, right),
        Direction::Right => (right, left),
        Direction::Down => {
            proof {
                assert(false);
            }
            return unreached();
        },
    };
    let ghost e0 = extract;
    let ghost t0 = throw;
    proof {
        assert(path@.skip(1) =~= path@.drop_first());
    }
    let mut i: usize = 1;
    while i < path.len()
        invariant
            1 <= i <= path@.len(),
            iso(extract, throw, path@.skip(i as int)) is Some,
            iso(extract, throw, path@.skip(i as int)) == iso(e0, t0, path@.skip(1)),
        decreases path@.len() - i,
    {
        proof {
            assert(path@.skip(i as int)[0] == path@[i as int]);
            assert(path@.skip(i as int).drop_first() =~= path@.skip(i as int + 1));
        }
        let d = path[i];
        let ex = extract;
        match ex {
            Expression::Sum(a, b) => {
                match d {
                    Direction::Left => {
                        throw = Expression::Sum(
                            Box::new(throw),
                            Box::new(Expression::Negative(b)),
                        );
                        extract = *a;
                    },
                    Direction::Right => {
                        throw = Expression::Sum(
                            Box::new(throw),
                            Box::new(Expression::Negative(a)),
                        );
                        extract = *b;
                    },
                    Direction::Down => {
                        proof {
                            assert(false);
                        }
                        return unreached();
                    },
                }
            },
            Expression::Product(a, b) => {
                match d {
                    Direction::Left => {
                        throw = Expression::Product(
                            Box::new(throw),
                            Box::new(Expression::Fraction(b)),
                        );
                        extract = *a;
                    },
                    Direction::Right => {
                        throw = Expression::Product(
                            Box::new(throw),
                            Box::new(Expression::Fraction(a)),
                        );
                        extract = *b;
                    },
                    Direction::Down => {
                        proof {
                            assert(false);
                        }
                        return unreached();
                    },
                }
            },
            Expression::Negative(a) => {
                match d {
                    Direction::Down => {
                        throw = Expression::Negative(Box::new(throw));
                        extract = *a;
                    },
                    _ => {
                        proof {
                            assert(false);
                        }
                        return unreached();
                    },
                }
            },
            Expression::Fraction(a) => {
                match d {
                    Direction::Down => {
                        throw = Expression::Fraction(Box::new(throw));
                        extract = *a;
                    },
                    _ => {
                        proof {
                            assert(false);
                        }
                        return unreached();
                    },
                }
            },
            Expression::Value(_) => {
                proof {
                    assert(false);
                }
                return unreached();
            },
            Expression::Property(_, _) => {
                proof {
                    assert(false);
                }
                return unreached();
            },
        }
        i = i + 1;
    }
    proof {
        assert(path@.skip(i as int) =~= Seq::<Direction>::empty());
        assert(iso(e0, t0, path@.skip(1)) == Some((extract, throw)));
    }
    Constraint::Equality { left: extract, right: throw }
}

/// `e` with the subtree at `p` replaced by `new`, or `None` when `p` does
/// not match the shape of `e`.
pub open spec fn subst(e: Expression, p: Seq<Direction>, new: Expression) -> Option<Expression>
    decreases p.len(),
{
    if p.len() == 0 {
        Some(new)
    } else {
        match e {
            Expression::Sum(a, b) => if p[0] is Left {
                match subst(*a, p.drop_first(), new) {
                    Some(a2) => Some(Expression::Sum(Box::new(a2), b)),
                    None => None,
                }
            } else if p[0] is Right {
                match subst(*b, p.drop_first(), new) {
                    Some(b2) => Some(Expression::Sum(a, Box::new(b2))),
                    None => None,
                }
            } else {
                None
            },
            Expression::Product(a, b) => if p[0] is Left {
                match subst(*a, p.drop_first(), new) {
                    Some(a2) => Some(Expression::Product(Box::new(a2), b)),
                    None => None,
                }
            } else if p[0] is Right {
                match subst(*b, p.drop_first(), new) {
                    Some(b2) => Some(Expression::Product(a, Box::new(b2))),
                    None => None,
                }
            } else {
                None
            },
            Expression::Negative(a) => if p[0] is Down {
                match subst(*a, p.drop_first(), new) {
                    Some(a2) => Some(Expression::Negative(Box::new(a2))),
                    None => None,
                }
            } else {
                None
            },
            Expression::Fraction(a) => if p[0] is Down {
                match subst(*a, p.drop_first(), new) {
                    Some(a2) => Some(Expression::Fraction(Box::new(a2))),
                    None => None,
                }
            } else {
                None
            },
            Expression::Value(_) => None,
            Expression::Property(_, _) => None,
        }
    }
}

/// `c` with the subtree at `p` (a side marker followed by a path within that
/// side) replaced by `new`.
pub open spec fn constraint_subst(c: Constraint, p: Seq<Direction>, new: Expression) -> Option<
    Constraint,
> {
    if p.len() == 0 {
        None
    } else if p[0] is Left {
        match subst(lhs(c), p.drop_first(), new) {
            Some(l2) => Some(Constraint::Equality { left: l2, right: rhs(c) }),
            None => None,
        }
    } else if p[0] is Right {
        match subst(rhs(c), p.drop_first(), new) {
            Some(r2) => Some(Constraint::Equality { left: lhs(c), right: r2 }),
            None => None,
        }
    } else {
        None
    }
}

/// Replacing a subtree by an expression with the same value (under `env`)
/// leaves the whole expression's value unchanged, and leaves it undefined
/// exactly where it was undefined.
proof fn lemma_subst_eval(e: Expression, p: Seq<Direction>, new: Expression, env: Env)
    requires
        expr_at(e, p) is Some,
        eval(expr_at(e, p)->Some_0, env) is Some,
        eval(new, env) is Some,
        rat_eq(eval(new, env)->Some_0, eval(expr_at(e, p)->Some_0, env)->Some_0),
    ensures
        subst(e, p, new) is Some,
        eval(subst(e, p, new)->Some_0, env) is Some <==> eval(e, env) is Some,
        eval(e, env) is Some ==> rat_eq(
            eval(subst(e, p, new)->Some_0, env)->Some_0,
            eval(e, env)->Some_0,
        ),
    decreases p.len(),
{
    if p.len() == 0 {
    } else {
        let p2 = p.drop_first();
        match e {
            Expression::Sum(a, b) => {
                if p[0] is Left {
                    lemma_subst_eval(*a, p2, new, env);
                    let a2 = subst(*a, p2, new)->Some_0;
                    if eval(*a, env) is Some && eval(*b, env) is Some {
                        lemma_eval_wf(*a, env);
                        lemma_eval_wf(*b, env);
                        lemma_eval_wf(a2, env);
                        crate::rat::lemma_rat_add_congr(
                            eval(a2, env)->Some_0,
                            eval(*a, env)->Some_0,
                            eval(*b, env)->Some_0,
                            eval(*b, env)->Some_0,
                        );
                    }
                } else {
                    lemma_subst_eval(*b, p2, new, env);
                    let b2 = subst(*b, p2, new)->Some_0;
                    if eval(*a, env) is Some && eval(*b, env) is Some {
                        lemma_eval_wf(*a, env);
                        lemma_eval_wf(*b, env);
                        lemma_eval_wf(b2, env);
                        crate::rat::lemma_rat_add_congr(
                            eval(*a, env)->Some_0,
                            eval(*a, env)->Some_0,
                            eval(b2, env)->Some_0,
                            eval(*b, env)->Some_0,
                        );
                    }
                }
            },
            Expression::Product(a, b) => {
                if p[0] is Left {
                    lemma_subst_eval(*a, p2, new, env);
                    let a2 = subst(*a, p2, new)->Some_0;
                    if eval(*a, env) is Some && eval(*b, env) is Some {
                        lemma_eval_wf(*a, env);
                        lemma_eval_wf(*b, env);
                        lemma_eval_wf(a2, env);
                        crate::rat::lemma_rat_mul_congr(
                            eval(a2, env)->Some_0,
                            eval(*a, env)->Some_0,
                            eval(*b, env)->Some_0,
                            eval(*b, env)->Some_0,
                        );
                    }
                } else {
                    lemma_subst_eval(*b, p2, new, env);
                    let b2 = subst(*b, p2, new)->Some_0;
                    if eval(*a, env) is Some && eval(*b, env) is Some {
                        lemma_eval_wf(*a, env);
                        lemma_eval_wf(*b, env);
                        lemma_eval_wf(b2, env);
                        crate::rat::lemma_rat_mul_congr(
                            eval(*a, env)->Some_0,
                            eval(*a, env)->Some_0,
                            eval(b2, env)->Some_0,
                            eval(*b, env)->Some_0,
                        );
                    }
                }
            },
            Expression::Negative(a) => {
                lemma_subst_eval(*a, p2, new, env);
                let a2 = subst(*a, p2, new)->Some_0;
                if eval(*a, env) is Some {
                    lemma_eval_wf(*a, env);
                    lemma_eval_wf(a2, env);
                    crate::rat::lemma_rat_neg_congr(eval(a2, env)->Some_0, eval(*a, env)->Some_0);
                }
            },
            Expression::Fraction(a) => {
                lemma_subst_eval(*a, p2, new, env);
                let a2 = subst(*a, p2, new)->Some_0;
                if eval(*a, env) is Some {
                    lemma_eval_wf(*a, env);
                    lemma_eval_wf(a2, env);
                    crate::rat::lemma_rat_eq_zero(eval(a2, env)->Some_0, eval(*a, env)->Some_0);
                    if eval(*a, env)->Some_0.num != 0 {
                        crate::rat::lemma_rat_inv_congr(
                            eval(a2, env)->Some_0,
                            eval(*a, env)->Some_0,
                        );
                    }
                }
            },
            Expression::Value(_) => {},
            Expression::Property(_, _) => {},
        }
    }
}

/// Round trip: take any path the path finder reports, isolate the property
/// occurrence there, then substitute the isolated right-hand side back in
/// place of that occurrence.  Under any assignment that satisfies the
/// isolated equation, the rebuilt constraint evaluates side for side to the
/// same values as the original, so the two have equal truth values.
pub proof fn lemma_round_trip(c: Constraint, p: Seq<Direction>, env: Env)
    requires
        constraint_paths(c).contains(p),
        constraint_holds(constraint_iso(c, p)->Some_0, env),
    ensures
        constraint_iso(c, p) is Some,
        constraint_subst(c, p, rhs(constraint_iso(c, p)->Some_0)) is Some,
        sides_defined(constraint_subst(c, p, rhs(constraint_iso(c, p)->Some_0))->Some_0, env)
            <==> sides_defined(c, env),
        sides_defined(c, env) ==> (constraint_holds(
            constraint_subst(c, p, rhs(constraint_iso(c, p)->Some_0))->Some_0,
            env,
        ) <==> constraint_holds(c, env)),
{
    let i = choose|i: int| 0 <= i < constraint_paths(c).len() && constraint_paths(c)[i] == p;
    let la = expr_paths(lhs(c));
    let lb = expr_paths(rhs(c));
    let new = rhs(constraint_iso(c, p)->Some_0);
    if i < la.len() {
        assert(p == seq![Direction::Left] + la[i]);
        assert(p.drop_first() =~= la[i]);
        lemma_iso_of_path(lhs(c), rhs(c), i);
        let leaf = expr_at(lhs(c), la[i])->Some_0;
        lemma_eval_wf(new, env);
        lemma_eval_wf(leaf, env);
        lemma_subst_eval(lhs(c), la[i], new, env);
        if sides_defined(c, env) {
            lemma_eval_wf(lhs(c), env);
            lemma_eval_wf(rhs(c), env);
            let l2 = subst(lhs(c), la[i], new)->Some_0;
            lemma_eval_wf(l2, env);
            crate::rat::lemma_rat_eq_congr_left(
                eval(l2, env)->Some_0,
                eval(lhs(c), env)->Some_0,
                eval(rhs(c), env)->Some_0,
            );
        }
    } else {
        let j = i - la.len();
        assert(p == seq![Direction::Right] + lb[j]);
        assert(p.drop_first() =~= lb[j]);
        lemma_iso_of_path(rhs(c), lhs(c), j);
        let leaf = expr_at(rhs(c), lb[j])->Some_0;
        lemma_eval_wf(new, env);
        lemma_eval_wf(leaf, env);
        lemma_subst_eval(rhs(c), lb[j], new, env);
        if sides_defined(c, env) {
            lemma_eval_wf(lhs(c), env);
            lemma_eval_wf(rhs(c), env);
            let r2 = subst(rhs(c), lb[j], new)->Some_0;
            lemma_eval_wf(r2, env);
            crate::rat::lemma_rat_eq_congr_left(
                eval(r2, env)->Some_0,
                eval(rhs(c), env)->Some_0,
                eval(lhs(c), env)->Some_0,
            );
        }
    }
}

} // verus!

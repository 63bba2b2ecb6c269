//! The path finder.
//!
//! A path locates one `Property` leaf inside a constraint: its first entry
//! says on which side of the equality the leaf sits, and each further entry
//! records the child taken at a `Sum`/`Product` (`Left`/`Right`) or a
//! `Negative`/`Fraction` (`Down`) node.  `find_paths_to_vars` returns the
//! paths to every property occurrence, left side before right side and, within
//! a side, left child before right child.

use vstd::prelude::*;
use crate::expr::{Constraint, Direction, Expression, lhs, rhs};

verus! {

/// Every path of `ps`, each extended with the prefix `pre` in front.
pub open spec fn with_prefix(pre: Seq<Direction>, ps: Seq<Seq<Direction>>) -> Seq<
    Seq<Direction>,
> {
    ps.map_values(|p: Seq<Direction>| pre + p)
}

/// Every path of `ps`, each with the single step `d` in front.
pub open spec fn prepend_all(d: Direction, ps: Seq<Seq<Direction>>) -> Seq<Seq<Direction>> {
    with_prefix(seq![d], ps)
}

/// The paths from the root of `e` to each of its `Property` leaves, in
/// left-to-right traversal order.
pub open spec fn expr_paths(e: Expression) -> Seq<Seq<Direction>>
    decreases e,
{
    match e {
        Expression::Sum(a, b) => prepend_all(Direction::Left, expr_paths(*a)) + prepend_all(
            Direction::Right,
            expr_paths(*b),
        ),
        Expression::Product(a, b) => prepend_all(Direction::Left, expr_paths(*a)) + prepend_all(
            Direction::Right,
            expr_paths(*b),
        ),
        Expression::Negative(a) => prepend_all(Direction::Down, expr_paths(*a)),
        Expression::Fraction(a) => prepend_all(Direction::Down, expr_paths(*a)),
        Expression::Value(_) => Seq::empty(),
        Expression::Property(_, _) => seq![Seq::<Direction>::empty()],
    }
}

/// The paths to every property occurrence in `c`: a side marker followed by
/// the path within that side.
pub open spec fn constraint_paths(c: Constraint) -> Seq<Seq<Direction>> {
    prepend_all(Direction::Left, expr_paths(lhs(c))) + prepend_all(
        Direction::Right,
        expr_paths(rhs(c)),
    )
}

/// The subtree of `e` that `p` leads to, or `None` when `p` does not match
/// the shape of `e`.
pub open spec fn expr_at(e: Expression, p: Seq<Direction>) -> Option<Expression>
    decreases p.len(),
{
    if p.len() == 0 {
        Some(e)
    } else {
        match e {
            Expression::Sum(a, b) => if p[0] is Left {
                expr_at(*a, p.drop_first())
            } else if p[0] is Right {
                expr_at(*b, p.drop_first())
            } else {
                None
            },
            Expression::Product(a, b) => if p[0] is Left {
                expr_at(*a, p.drop_first())
            } else if p[0] is Right {
                expr_at(*b, p.drop_first())
            } else {
                None
            },
            Expression::Negative(a) => if p[0] is Down {
                expr_at(*a, p.drop_first())
            } else {
                None
            },
            Expression::Fraction(a) => if p[0] is Down {
                expr_at(*a, p.drop_first())
            } else {
                None
            },
            Expression::Value(_) => None,
            Expression::Property(_, _) => None,
        }
    }
}

/// The views of a vector of paths.
pub open spec fn paths_view(v: Vec<Vec<Direction>>) -> Seq<Seq<Direction>> {
    v@.map_values(|p: Vec<Direction>| p@)
}

proof fn lemma_with_prefix_add(pre: Seq<Direction>, ps1: Seq<Seq<Direction>>, ps2: Seq<
    Seq<Direction>,
>)
    ensures
        with_prefix(pre, ps1 + ps2) == with_prefix(pre, ps1) + with_prefix(pre, ps2),
{
    assert(with_prefix(pre, ps1 + ps2) =~= with_prefix(pre, ps1) + with_prefix(pre, ps2));
}

proof fn lemma_with_prefix_compose(pre: Seq<Direction>, d: Direction, ps: Seq<Seq<Direction>>)
    ensures
        with_prefix(pre, prepend_all(d, ps)) == with_prefix(pre.push(d), ps),
{
    assert forall|i: int| 0 <= i < ps.len() implies pre + (seq![d] + ps[i]) == pre.push(d)
        + ps[i] by {
        assert(pre + (seq![d] + ps[i]) =~= pre.push(d) + ps[i]);
    }
    assert(with_prefix(pre, prepend_all(d, ps)) =~= with_prefix(pre.push(d), ps));
}

/// Copy one path.
pub fn copy_path(p: &Vec<Direction>) -> (r: Vec<Direction>)
    ensures
        r@ == p@,
{
    let mut r: Vec<Direction> = Vec::new();
    let n = p.len();
    for i in 0..n
        invariant
            n == p.len(),
            r@ == p@.take(i as int),
    {
        r.push(p[i]);
        proof {
            assert(r@ =~= p@.take(i + 1));
        }
    }
    proof {
        assert(p@.take(n as int) =~= p@);
    }
    r
}

/// Record, after `prefix`, the path to every property leaf of `e`.
fn collect_paths(e: &Expression, prefix: &mut Vec<Direction>, out: &mut Vec<Vec<Direction>>)
    ensures
        final(prefix)@ == old(prefix)@,
        paths_view(*final(out)) == paths_view(*old(out)) + with_prefix(
            old(prefix)@,
            expr_paths(*e),
        ),
    decreases *e,
{
    match e {
        Expression::Sum(a, b) => {
            prefix.push(Direction::Left);
            collect_paths(a, prefix, out);
            prefix.pop();
            prefix.push(Direction::Right);
            collect_paths(b, prefix, out);
            prefix.pop();
            proof {
                assert(old(prefix)@.push(Direction::Left).drop_last() =~= old(prefix)@);
                assert(old(prefix)@.push(Direction::Right).drop_last() =~= old(prefix)@);
                lemma_with_prefix_add(
                    old(prefix)@,
                    prepend_all(Direction::Left, expr_paths(**a)),
                    prepend_all(Direction::Right, expr_paths(**b)),
                );
                lemma_with_prefix_compose(old(prefix)@, Direction::Left, expr_paths(**a));
                lemma_with_prefix_compose(old(prefix)@, Direction::Right, expr_paths(**b));
                assert(paths_view(*out) =~= paths_view(*old(out)) + with_prefix(
                    old(prefix)@,
                    expr_paths(*e),
                ));
            }
        },
        Expression::Product(a, b) => {
            prefix.push(Direction::Left);
            collect_paths(a, prefix, out);
            prefix.pop();
            prefix.push(Direction::Right);
            collect_paths(b, prefix, out);
            prefix.pop();
            proof {
                assert(old(prefix)@.push(Direction::Left).drop_last() =~= old(prefix)@);
                assert(old(prefix)@.push(Direction::Right).drop_last() =~= old(prefix)@);
                lemma_with_prefix_add(
                    old(prefix)@,
                    prepend_all(Direction::Left, expr_paths(**a)),
                    prepend_all(Direction::Right, expr_paths(**b)),
                );
                lemma_with_prefix_compose(old(prefix)@, Direction::Left, expr_paths(**a));
                lemma_with_prefix_compose(old(prefix)@, Direction::Right, expr_paths(**b));
                assert(paths_view(*out) =~= paths_view(*old(out)) + with_prefix(
                    old(prefix)@,
                    expr_paths(*e),
                ));
            }
        },
        Expression::Negative(a) => {
            prefix.push(Direction::Down);
            collect_paths(a, prefix, out);
            prefix.pop();
            proof {
                assert(old(prefix)@.push(Direction::Down).drop_last() =~= old(prefix)@);
                lemma_with_prefix_compose(old(prefix)@, Direction::Down, expr_paths(**a));
                assert(paths_view(*out) =~= paths_view(*old(out)) + with_prefix(
                    old(prefix)@,
                    expr_paths(*e),
                ));
            }
        },
        Expression::Fraction(a) => {
            prefix.push(Direction::Down);
            collect_paths(a, prefix, out);
            prefix.pop();
            proof {
                assert(old(prefix)@.push(Direction::Down).drop_last() =~= old(prefix)@);
                lemma_with_prefix_compose(old(prefix)@, Direction::Down, expr_paths(**a));
                assert(paths_view(*out) =~= paths_view(*old(out)) + with_prefix(
                    old(prefix)@,
                    expr_paths(*e),
                ));
            }
        },
        Expression::Value(_) => {
            proof {
                assert(paths_view(*out) =~= paths_view(*old(out)) + with_prefix(
                    old(prefix)@,
                    expr_paths(*e),
                ));
            }
        },
        Expression::Property(_, _) => {
            let copied = copy_path(prefix);
            out.push(copied);
            proof {
                assert(old(prefix)@ + Seq::<Direction>::empty() =~= old(prefix)@);
                assert(paths_view(*out) =~= paths_view(*old(out)) + with_prefix(
                    old(prefix)@,
                    expr_paths(*e),
                ));
            }
        },
    }
}

/// Find the path to every property occurrence in `constraint`, left side
/// first, each side traversed left before right.
pub fn find_paths_to_vars(constraint: &Constraint) -> (r: Vec<Vec<Direction>>)
    ensures
        paths_view(r) == constraint_paths(*constraint),
{
    let mut out: Vec<Vec<Direction>> = Vec::new();
    let mut prefix: Vec<Direction> = Vec::new();
    match constraint {
        Constraint::Equality { left, right } => {
            prefix.push(Direction::Left);
            collect_paths(left, &mut prefix, &mut out);
            prefix.pop();
            prefix.push(Direction::Right);
            collect_paths(right, &mut prefix, &mut out);
            prefix.pop();
            proof {
                assert(Seq::<Direction>::empty().push(Direction::Left).drop_last() =~= Seq::<
                    Direction,
                >::empty());
                assert(Seq::<Direction>::empty().push(Direction::Left) =~= seq![
                    Direction::Left,
                ]);
                assert(Seq::<Direction>::empty().push(Direction::Right) =~= seq![
                    Direction::Right,
                ]);
                assert(paths_view(out) =~= constraint_paths(*constraint));
            }
        },
    }
    out
}

} // verus!

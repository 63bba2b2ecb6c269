//! The extractor.
//!
//! A user constraint that mentions properties N times expands into N isolated
//! constraints, one per occurrence, each equating that occurrence to an
//! expression built from the rest of the original equality.

use vstd::prelude::*;
use crate::expr::{Constraint, Direction, Expression, constraint_names, constraints_names, lhs};
use crate::isolate::{constraint_iso, isolate_variable, lemma_constraint_path_iso};
use crate::paths::{constraint_paths, copy_path, find_paths_to_vars, paths_view};

verus! {

/// The isolated constraints one constraint expands to, in path order.
pub open spec fn iso_all(c: Constraint) -> Seq<Constraint> {
    constraint_paths(c).map_values(|p: Seq<Direction>| constraint_iso(c, p)->Some_0)
}

/// The isolated constraints of a whole sequence of constraints, in order.
pub open spec fn extracted(cs: Seq<Constraint>) -> Seq<Constraint>
    decreases cs.len(),
{
    if cs.len() == 0 {
        Seq::empty()
    } else {
        extracted(cs.drop_last()) + iso_all(cs.last())
    }
}

/// Every extracted constraint has a bare property on its left, and that
/// property's element name occurs in the original constraints.
pub proof fn lemma_extracted_shape(cs: Seq<Constraint>)
    ensures
        forall|t: int|
            0 <= t < extracted(cs).len() ==> lhs(#[trigger] extracted(cs)[t]) is Property,
        forall|t: int|
            0 <= t < extracted(cs).len() ==> (lhs(#[trigger] extracted(cs)[t]) matches
                Expression::Property(m, _) ==> constraints_names(cs).contains(m@)),
    decreases cs.len(),
{
    if cs.len() > 0 {
        lemma_extracted_shape(cs.drop_last());
        let prev = extracted(cs.drop_last());
        let c = cs.last();
        assert forall|t: int| 0 <= t < extracted(cs).len() implies lhs(
            #[trigger] extracted(cs)[t],
        ) is Property && (lhs(extracted(cs)[t]) matches Expression::Property(m, _)
            ==> constraints_names(cs).contains(m@)) by {
            if t < prev.len() {
                assert(extracted(cs)[t] == prev[t]);
                assert(constraints_names(cs.drop_last()).subset_of(constraints_names(cs)));
            } else {
                let j = t - prev.len();
                assert(extracted(cs)[t] == iso_all(c)[j]);
                crate::isolate::lemma_constraint_path_iso(c, j);
                assert(iso_all(c)[j] == crate::isolate::constraint_iso(
                    c,
                    crate::paths::constraint_paths(c)[j],
                )->Some_0);
            }
        }
    }
}

/// Every isolated constraint of one input constraint appears in the
/// extraction of the whole sequence.
pub proof fn lemma_extracted_contains(cs: Seq<Constraint>, k: int, j: int)
    requires
        0 <= k < cs.len(),
        0 <= j < iso_all(cs[k]).len(),
    ensures
        extracted(cs).contains(iso_all(cs[k])[j]),
    decreases cs.len(),
{
    let prev = extracted(cs.drop_last());
    if k == cs.len() - 1 {
        assert(cs.last() == cs[k]);
        assert(extracted(cs)[prev.len() + j] == iso_all(cs[k])[j]);
    } else {
        assert(cs.drop_last()[k] == cs[k]);
        lemma_extracted_contains(cs.drop_last(), k, j);
        let t = choose|t: int| 0 <= t < prev.len() && prev[t] == iso_all(cs[k])[j];
        assert(extracted(cs)[t] == iso_all(cs[k])[j]);
    }
}

/// Expand every constraint into one isolated constraint per property
/// occurrence that the path finder reports, in input order.
pub fn extract_prop_constraints(constraints: Vec<Constraint>) -> (r: Vec<Constraint>)
    ensures
        r@ == extracted(constraints@),
{
    let mut out: Vec<Constraint> = Vec::new();
    let n = constraints.len();
    for k in 0..n
        invariant
            n == constraints@.len(),
            out@ == extracted(constraints@.take(k as int)),
    {
        let c = &constraints[k];
        let paths = find_paths_to_vars(c);
        let m = paths.len();
        for j in 0..m
            invariant
                n == constraints@.len(),
                k < n,
                m == paths@.len(),
                *c == constraints@[k as int],
                paths_view(paths) == constraint_paths(constraints@[k as int]),
                out@ == extracted(constraints@.take(k as int)) + iso_all(
                    constraints@[k as int],
                ).take(j as int),
        {
            let path = copy_path(&paths[j]);
            proof {
                let ck = constraints@[k as int];
                assert(paths_view(paths)[j as int] == paths@[j as int]@);
                assert(path@ == constraint_paths(ck)[j as int]);
                lemma_constraint_path_iso(ck, j as int);
                assert(iso_all(ck)[j as int] == constraint_iso(
                    ck,
                    constraint_paths(ck)[j as int],
                )->Some_0);
            }
            let copied = c.clone();
            let isolated = isolate_variable(path, copied);
            out.push(isolated);
            proof {
                assert(out@ =~= extracted(constraints@.take(k as int)) + iso_all(
                    constraints@[k as int],
                ).take(j as int + 1));
            }
        }
        proof {
            let ck = constraints@[k as int];
            assert(iso_all(ck).take(m as int) =~= iso_all(ck));
            assert(constraints@.take(k as int + 1).drop_last() =~= constraints@.take(k as int));
            assert(constraints@.take(k as int + 1).last() == ck);
            assert(out@ =~= extracted(constraints@.take(k as int + 1)));
        }
    }
    proof {
        assert(constraints@.take(n as int) =~= constraints@);
    }
    out
}

} // verus!

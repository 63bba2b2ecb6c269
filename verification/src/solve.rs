//! The solver: fixed-point resolution of the grouped, augmented constraints.
//!
//! Every candidate expression is repeatedly evaluated; once all properties an
//! expression references hold concrete integers, its exact rational value is
//! known.  A candidate whose value is an integer in range pins its slot; a
//! candidate whose exact value disagrees with a committed one — integer or
//! not — aborts with `ConflictingConstraints`; slots that never reach a value
//! are reported together in `CannotDetermineSpecificValue`.  Width/left/right,
//! height/bottom/top and any user-constrained slot must resolve; `x`, `y`,
//! `center` and `color` without constraints stay empty.  A colour is taken
//! only from a directly-supplied value, never derived through arithmetic or
//! another element.  All arithmetic is exact: a candidate whose value is not
//! an integer, or whose intermediate numerators or denominators grow beyond
//! `EVAL_BOUND`, never commits a value.

use vstd::prelude::*;
use crate::expr::{Constraint, Env, Expression, Name, Property, eval, lhs, rhs};
use crate::expr::{constraint_names, constraints_names};
use crate::extract::{extract_prop_constraints, extracted, iso_all, lemma_extracted_contains,
    lemma_extracted_shape};
use crate::group::{ElementConstraints, group_by_element, has_key, is_for, lhs_names, rhs_for};
use crate::group::{lemma_rhs_for_contains};
use crate::augment::{augmented, fill_with_inherent_constraints, inherent};
use crate::isolate::constraint_iso;
use crate::paths::constraint_paths;
use crate::rat::{Rat, rat_add, rat_eq, rat_mul, rat_of_int, rat_wf};

verus! {

/// Numerators and denominators of intermediate values are kept within this
/// bound; a candidate that overflows it never commits a value.
pub const EVAL_BOUND: i128 = 0x4000_0000_0000_0000;

/// The partial solution for one element: a value per property, filled in as
/// the fixpoint progresses.
pub struct ElementBuilder {
    pub width: Option<i32>,
    pub height: Option<i32>,
    pub left: Option<i32>,
    pub right: Option<i32>,
    pub bottom: Option<i32>,
    pub top: Option<i32>,
    pub x: Option<i32>,
    pub y: Option<i32>,
    pub center: Option<i32>,
    pub color: Option<i32>,
}

impl ElementBuilder {
    /// The value held for `p`, if any.
    pub open spec fn prop_value(self, p: Property) -> Option<i32> {
        match p {
            Property::Width => self.width,
            Property::Height => self.height,
            Property::Left => self.left,
            Property::Right => self.right,
            Property::Bottom => self.bottom,
            Property::Top => self.top,
            Property::X => self.x,
            Property::Y => self.y,
            Property::Center => self.center,
            Property::Color => self.color,
        }
    }

    fn get(&self, p: Property) -> (r: Option<i32>)
        ensures
            r == self.prop_value(p),
    {
        match p {
            Property::Width => self.width,
            Property::Height => self.height,
            Property::Left => self.left,
            Property::Right => self.right,
            Property::Bottom => self.bottom,
            Property::Top => self.top,
            Property::X => self.x,
            Property::Y => self.y,
            Property::Center => self.center,
            Property::Color => self.color,
        }
    }

    fn set(&mut self, p: Property, v: i32)
        ensures
            final(self).prop_value(p) == Some(v),
            forall|q: Property|
                q != p ==> #[trigger] final(self).prop_value(q) == old(self).prop_value(q),
    {
        match p {
            Property::Width => self.width = Some(v),
            Property::Height => self.height = Some(v),
            Property::Left => self.left = Some(v),
            Property::Right => self.right = Some(v),
            Property::Bottom => self.bottom = Some(v),
            Property::Top => self.top = Some(v),
            Property::X => self.x = Some(v),
            Property::Y => self.y = Some(v),
            Property::Center => self.center = Some(v),
            Property::Color => self.color = Some(v),
        }
    }
}

impl Default for ElementBuilder {
    /// No property pinned yet.
    fn default() -> (r: Self)
        ensures
            forall|p: Property| #[trigger] r.prop_value(p) is None,
    {
        ElementBuilder {
            width: None,
            height: None,
            left: None,
            right: None,
            bottom: None,
            top: None,
            x: None,
            y: None,
            center: None,
            color: None,
        }
    }
}

/// A fully resolved element.  The geometry triads are always concrete;
/// `x`, `y`, `center` and `color` are present exactly when the caller
/// constrained them.
pub struct Element {
    pub width: i32,
    pub height: i32,
    pub left: i32,
    pub right: i32,
    pub bottom: i32,
    pub top: i32,
    pub x: Option<i32>,
    pub y: Option<i32>,
    pub center: Option<i32>,
    pub color: Option<i32>,
}

impl Element {
    /// The value this element gives to `p`.
    pub open spec fn prop_value(self, p: Property) -> Option<i32> {
        match p {
            Property::Width => Some(self.width),
            Property::Height => Some(self.height),
            Property::Left => Some(self.left),
            Property::Right => Some(self.right),
            Property::Bottom => Some(self.bottom),
            Property::Top => Some(self.top),
            Property::X => self.x,
            Property::Y => self.y,
            Property::Center => self.center,
            Property::Color => self.color,
        }
    }

    /// The value this element gives to `p`, if any.
    pub fn value_of(&self, p: Property) -> (r: Option<i32>)
        ensures
            r == self.prop_value(p),
    {
        match p {
            Property::Width => Some(self.width),
            Property::Height => Some(self.height),
            Property::Left => Some(self.left),
            Property::Right => Some(self.right),
            Property::Bottom => Some(self.bottom),
            Property::Top => Some(self.top),
            Property::X => self.x,
            Property::Y => self.y,
            Property::Center => self.center,
            Property::Color => self.color,
        }
    }
}

/// Why a constraint set cannot be resolved.
#[derive(Debug)]
pub enum ResolutionError {
    /// The slots that never reached a concrete value, reported together
    /// rather than one at a time; each is a required slot of a mentioned
    /// element, and none of them has a directly-supplied value.
    CannotDetermineSpecificValue(Vec<(Name, Property)>),
    /// Two candidates for one slot evaluated to different numbers: the
    /// committed integer and the exact rational the disagreeing candidate
    /// stands for.
    ConflictingConstraints {
        element: Name,
        property: Property,
        existing: i32,
        conflicting_num: i64,
        conflicting_den: i64,
    },
}

/// Pairwise distinct element names.
pub open spec fn distinct_elem_keys(elems: Seq<(Name, Element)>) -> bool {
    forall|i: int, j: int| 0 <= i < j < elems.len() ==> elems[i].0@ != elems[j].0@
}

/// Some entry of `elems` is keyed by `n`.
pub open spec fn has_elem(elems: Seq<(Name, Element)>, n: Seq<char>) -> bool {
    exists|i: int| 0 <= i < elems.len() && (#[trigger] elems[i].0)@ == n
}

/// The index of the entry keyed by `n`.
pub open spec fn elem_idx(elems: Seq<(Name, Element)>, n: Seq<char>) -> int {
    choose|i: int| 0 <= i < elems.len() && (#[trigger] elems[i].0)@ == n
}

/// The assignment that resolved elements give to slots: a slot is assigned
/// exactly when its element exists and gives its property a value.
pub open spec fn elems_env(elems: Seq<(Name, Element)>) -> Env {
    Map::new(
        |k: (Seq<char>, Property)|
            has_elem(elems, k.0) && elems[elem_idx(elems, k.0)].1.prop_value(k.1) is Some,
        |k: (Seq<char>, Property)|
            elems[elem_idx(elems, k.0)].1.prop_value(k.1)->Some_0 as int,
    )
}

/// What `elems_env` holds at the slots of entry `i`.
pub proof fn lemma_elems_env_at(elems: Seq<(Name, Element)>, i: int, p: Property)
    requires
        distinct_elem_keys(elems),
        0 <= i < elems.len(),
    ensures
        elems_env(elems).dom().contains((elems[i].0@, p)) <==> elems[i].1.prop_value(p) is Some,
        elems[i].1.prop_value(p) is Some ==> elems_env(elems)[(elems[i].0@, p)] == elems[i].1
            .prop_value(p)->Some_0 as int,
{
    let n = elems[i].0@;
    assert(has_elem(elems, n));
    let i0 = elem_idx(elems, n);
    if i0 != i {
        if i0 < i {
            assert(elems[i0].0@ != elems[i].0@);
        } else {
            assert(elems[i].0@ != elems[i0].0@);
        }
    }
    assert(i0 == i);
}

/// The index of the entry of `groups` keyed by `n`.
pub open spec fn group_idx(groups: Seq<(Name, ElementConstraints)>, n: Seq<char>) -> int {
    choose|i: int| 0 <= i < groups.len() && (#[trigger] groups[i].0)@ == n
}

/// The partial assignment a builder vector embodies: a slot is assigned
/// exactly when its element exists and its builder holds a value.
pub open spec fn builders_env(
    groups: Seq<(Name, ElementConstraints)>,
    vals: Seq<ElementBuilder>,
) -> Env {
    Map::new(
        |k: (Seq<char>, Property)|
            has_key(groups, k.0) && vals[group_idx(groups, k.0)].prop_value(k.1) is Some,
        |k: (Seq<char>, Property)|
            vals[group_idx(groups, k.0)].prop_value(k.1)->Some_0 as int,
    )
}

/// What `builders_env` holds at the slots of entry `i`.
pub proof fn lemma_builders_env_at(
    groups: Seq<(Name, ElementConstraints)>,
    vals: Seq<ElementBuilder>,
    i: int,
    p: Property,
)
    requires
        distinct_group_keys(groups),
        0 <= i < groups.len(),
    ensures
        builders_env(groups, vals).dom().contains((groups[i].0@, p)) <==> vals[i].prop_value(p)
            is Some,
        vals[i].prop_value(p) is Some ==> builders_env(groups, vals)[(groups[i].0@, p)]
            == vals[i].prop_value(p)->Some_0 as int,
{
    let n = groups[i].0@;
    assert(has_key(groups, n));
    let i0 = group_idx(groups, n);
    if i0 != i {
        if i0 < i {
            assert(groups[i0].0@ != groups[i].0@);
        } else {
            assert(groups[i].0@ != groups[i0].0@);
        }
    }
    assert(i0 == i);
}

/// With distinct keys, `group_idx` finds exactly entry `i` for its own key.
proof fn lemma_group_idx_at(groups: Seq<(Name, ElementConstraints)>, i: int)
    requires
        distinct_group_keys(groups),
        0 <= i < groups.len(),
    ensures
        group_idx(groups, groups[i].0@) == i,
{
    assert(has_key(groups, groups[i].0@));
    let i0 = group_idx(groups, groups[i].0@);
    if i0 != i {
        if i0 < i {
            assert(groups[i0].0@ != groups[i].0@);
        } else {
            assert(groups[i].0@ != groups[i0].0@);
        }
    }
}

/// `v` within the working bound.
pub open spec fn within_bound(v: Rat) -> bool {
    &&& -(EVAL_BOUND as int) <= v.num <= EVAL_BOUND as int
    &&& -(EVAL_BOUND as int) <= v.den <= EVAL_BOUND as int
}

/// Every intermediate value met while evaluating `e` under `env` stays
/// within the working bound.
pub open spec fn eval_in_bounds(e: Expression, env: Env) -> bool
    decreases e,
{
    match e {
        Expression::Sum(a, b) => eval_in_bounds(*a, env) && eval_in_bounds(*b, env) && match (
            eval(*a, env),
            eval(*b, env),
        ) {
            (Some(x), Some(y)) => within_bound(rat_add(x, y)),
            _ => true,
        },
        Expression::Product(a, b) => eval_in_bounds(*a, env) && eval_in_bounds(*b, env) && match (
            eval(*a, env),
            eval(*b, env),
        ) {
            (Some(x), Some(y)) => within_bound(rat_mul(x, y)),
            _ => true,
        },
        Expression::Negative(a) => eval_in_bounds(*a, env),
        Expression::Fraction(a) => eval_in_bounds(*a, env),
        Expression::Value(_) => true,
        Expression::Property(_, _) => true,
    }
}

proof fn lemma_mul_bound(a: int, b: int, m: int)
    requires
        0 <= m,
        -m <= a <= m,
        -m <= b <= m,
    ensures
        -(m * m) <= a * b <= m * m,
{
    assert(-(m * m) <= a * b <= m * m) by (nonlinear_arith)
        requires
            0 <= m,
            -m <= a <= m,
            -m <= b <= m,
    ;
}

/// Look up an element by name in the resolved list.
fn find_resolved(elems: &Vec<(Name, Element)>, name: &Name) -> (o: Option<usize>)
    ensures
        match o {
            Some(i) => 0 <= i < elems@.len() && elems@[i as int].0@ == name@,
            None => forall|i: int| 0 <= i < elems@.len() ==> elems@[i].0@ != name@,
        },
{
    let n = elems.len();
    for i in 0..n
        invariant
            n == elems@.len(),
            forall|t: int| 0 <= t < i ==> elems@[t].0@ != name@,
    {
        if elems[i].0 == *name {
            return Some(i);
        }
    }
    None
}

/// Evaluate `e` against the resolved elements, exactly: the result, when
/// there is one, is the precise rational value of `e` under the assignment
/// the elements embody, and there is one whenever that value exists and
/// stays within the working bound.
fn eval_full(e: &Expression, elems: &Vec<(Name, Element)>) -> (r: Option<(i128, i128)>)
    requires
        distinct_elem_keys(elems@),
    ensures
        r matches Some(v) ==> {
            &&& v.1 != 0
            &&& -EVAL_BOUND <= v.0 <= EVAL_BOUND
            &&& -EVAL_BOUND <= v.1 <= EVAL_BOUND
            &&& eval(*e, elems_env(elems@)) == Some(Rat { num: v.0 as int, den: v.1 as int })
            &&& eval_in_bounds(*e, elems_env(elems@))
        },
        (eval(*e, elems_env(elems@)) is Some && eval_in_bounds(*e, elems_env(elems@))) ==> r
            is Some,
    decreases *e,
{
    let ghost env = elems_env(elems@);
    match e {
        Expression::Sum(a, b) => {
            match (eval_full(a, elems), eval_full(b, elems)) {
                (Some((n1, d1)), Some((n2, d2))) => {
                    proof {
                        lemma_mul_bound(n1 as int, d2 as int, EVAL_BOUND as int);
                        lemma_mul_bound(n2 as int, d1 as int, EVAL_BOUND as int);
                        lemma_mul_bound(d1 as int, d2 as int, EVAL_BOUND as int);
                    }
                    let n = n1 * d2 + n2 * d1;
                    let d = d1 * d2;
                    if -EVAL_BOUND <= n && n <= EVAL_BOUND && -EVAL_BOUND <= d && d
                        <= EVAL_BOUND {
                        proof {
                            assert(d as int != 0) by (nonlinear_arith)
                                requires
                                    d1 as int != 0,
                                    d2 as int != 0,
                                    d as int == (d1 as int) * (d2 as int),
                            ;
                        }
                        Some((n, d))
                    } else {
                        None
                    }
                },
                _ => None,
            }
        },
        Expression::Product(a, b) => {
            match (eval_full(a, elems), eval_full(b, elems)) {
                (Some((n1, d1)), Some((n2, d2))) => {
                    proof {
                        lemma_mul_bound(n1 as int, n2 as int, EVAL_BOUND as int);
                        lemma_mul_bound(d1 as int, d2 as int, EVAL_BOUND as int);
                    }
                    let n = n1 * n2;
                    let d = d1 * d2;
                    if -EVAL_BOUND <= n && n <= EVAL_BOUND && -EVAL_BOUND <= d && d
                        <= EVAL_BOUND {
                        proof {
                            assert(d as int != 0) by (nonlinear_arith)
                                requires
                                    d1 as int != 0,
                                    d2 as int != 0,
                                    d as int == (d1 as int) * (d2 as int),
                            ;
                        }
                        Some((n, d))
                    } else {
                        None
                    }
                },
                _ => None,
            }
        },
        Expression::Negative(a) => {
            match eval_full(a, elems) {
                Some((n1, d1)) => Some((-n1, d1)),
                None => None,
            }
        },
        Expression::Fraction(a) => {
            match eval_full(a, elems) {
                Some((n1, d1)) => {
                    if n1 != 0 {
                        Some((d1, n1))
                    } else {
                        None
                    }
                },
                None => None,
            }
        },
        Expression::Value(v) => Some((*v as i128, 1)),
        Expression::Property(name, prop) => {
            match find_resolved(elems, name) {
                Some(i) => {
                    proof {
                        lemma_elems_env_at(elems@, i as int, *prop);
                    }
                    match elems[i].1.value_of(*prop) {
                        Some(w) => Some((w as i128, 1)),
                        None => None,
                    }
                },
                None => {
                    proof {
                        if has_elem(elems@, name@) {
                            let i0 = choose|i0: int|
                                0 <= i0 < elems@.len() && (#[trigger] elems@[i0].0)@ == name@;
                            assert(elems@[i0].0@ != name@);
                        }
                        assert(!env.dom().contains((name@, *prop)));
                    }
                    None
                },
            }
        },
    }
}

/// The integer an exact rational stands for, if there is one in `i32` range.
/// When the answer is `None`, no `i32` stands for it.
fn to_i32(n: i128, d: i128) -> (r: Option<i32>)
    requires
        d != 0,
        -EVAL_BOUND <= n <= EVAL_BOUND,
        -EVAL_BOUND <= d <= EVAL_BOUND,
    ensures
        r matches Some(w) ==> rat_eq(rat_of_int(w as int), Rat { num: n as int, den: d as int }),
        r is None ==> forall|w: i32|
            !rat_eq(rat_of_int(w as int), Rat { num: n as int, den: d as int }),
{
    let (nn, dd) = if d < 0 {
        (-n, -d)
    } else {
        (n, d)
    };
    proof {
        assert forall|w: i32|
            rat_eq(rat_of_int(w as int), Rat { num: n as int, den: d as int }) <==> (w as int)
                * (dd as int) == nn as int by {
            assert(((w as int) * (d as int) == n as int) <==> ((w as int) * (dd as int) == (
            nn as int))) by (nonlinear_arith)
                requires
                    d as int != 0,
                    (d < 0 ==> nn as int == -(n as int) && dd as int == -(d as int)),
                    (d >= 0 ==> nn as int == n as int && dd as int == d as int),
            ;
        }
    }
    let q = if nn >= 0 {
        nn / dd
    } else {
        -((-nn) / dd)
    };
    proof {
        assert(q as int == if nn >= 0 {
            (nn as int) / (dd as int)
        } else {
            -((-(nn as int)) / (dd as int))
        });
    }
    proof {
        assert(dd as int >= 1);
        if nn >= 0 {
            vstd::arithmetic::div_mod::lemma_div_is_ordered_by_denominator(nn as int, 1, dd as int);
            vstd::arithmetic::div_mod::lemma_div_pos_is_pos(nn as int, dd as int);
            assert((nn as int) / 1int == nn as int);
        } else {
            vstd::arithmetic::div_mod::lemma_div_is_ordered_by_denominator(
                -(nn as int),
                1,
                dd as int,
            );
            vstd::arithmetic::div_mod::lemma_div_pos_is_pos(-(nn as int), dd as int);
            assert((-(nn as int)) / 1int == -(nn as int));
        }
        assert(-EVAL_BOUND <= q as int <= EVAL_BOUND);
        lemma_mul_bound(q as int, dd as int, EVAL_BOUND as int);
    }
    let back = q * dd;
    if back == nn {
        if q >= i32::MIN as i128 && q <= i32::MAX as i128 {
            proof {
                assert((q as i32) as int * (dd as int) == nn as int) by (nonlinear_arith)
                    requires
                        (q as int) * (dd as int) == nn as int,
                        i32::MIN <= q as int <= i32::MAX,
                        q as i32 as int == q as int,
                ;
            }
            Some(q as i32)
        } else {
            proof {
                assert forall|w: i32|
                    !rat_eq(rat_of_int(w as int), Rat { num: n as int, den: d as int }) by {
                    assert((w as int) * (dd as int) == nn as int ==> w as int == q as int)
                        by (nonlinear_arith)
                        requires
                            dd as int > 0,
                            (q as int) * (dd as int) == nn as int,
                    ;
                }
            }
            None
        }
    } else {
        proof {
            assert forall|w: i32|
                !rat_eq(rat_of_int(w as int), Rat { num: n as int, den: d as int }) by {
                if (w as int) * (dd as int) == nn as int {
                    if nn >= 0 {
                        assert((nn as int) / (dd as int) == w as int) by (nonlinear_arith)
                            requires
                                dd as int > 0,
                                (w as int) * (dd as int) == nn as int,
                                nn as int >= 0,
                        ;
                    } else {
                        assert((-(nn as int)) / (dd as int) == -(w as int))
                            by (nonlinear_arith)
                            requires
                                dd as int > 0,
                                (w as int) * (dd as int) == nn as int,
                                (nn as int) < 0,
                        ;
                    }
                    assert((q as int) * (dd as int) == nn as int) by (nonlinear_arith)
                        requires
                            q as int == w as int,
                            (w as int) * (dd as int) == nn as int,
                    ;
                }
            }
        }
        None
    }
}

/// All ten properties, in scan order.
pub open spec fn prop_order() -> Seq<Property> {
    seq![
        Property::Width,
        Property::Height,
        Property::Left,
        Property::Right,
        Property::Bottom,
        Property::Top,
        Property::X,
        Property::Y,
        Property::Center,
        Property::Color,
    ]
}

/// The scan position of `p` in `prop_order`.
pub open spec fn prop_index(p: Property) -> int {
    match p {
        Property::Width => 0,
        Property::Height => 1,
        Property::Left => 2,
        Property::Right => 3,
        Property::Bottom => 4,
        Property::Top => 5,
        Property::X => 6,
        Property::Y => 7,
        Property::Center => 8,
        Property::Color => 9,
    }
}

/// Every property sits at its scan position.
proof fn lemma_prop_order_at(p: Property)
    ensures
        0 <= prop_index(p) < 10,
        prop_order()[prop_index(p)] == p,
{
}

/// All ten properties, in scan order.
fn all_properties() -> (r: Vec<Property>)
    ensures
        r@ == prop_order(),
{
    let mut r: Vec<Property> = Vec::new();
    r.push(Property::Width);
    r.push(Property::Height);
    r.push(Property::Left);
    r.push(Property::Right);
    r.push(Property::Bottom);
    r.push(Property::Top);
    r.push(Property::X);
    r.push(Property::Y);
    r.push(Property::Center);
    r.push(Property::Color);
    proof {
        assert(r@ =~= prop_order());
    }
    r
}

/// `p` is one of the six properties the inherent identities tie together.
pub open spec fn is_geometry(p: Property) -> bool {
    match p {
        Property::Width => true,
        Property::Height => true,
        Property::Left => true,
        Property::Right => true,
        Property::Bottom => true,
        Property::Top => true,
        Property::X => false,
        Property::Y => false,
        Property::Center => false,
        Property::Color => false,
    }
}

fn is_geometry_exec(p: Property) -> (r: bool)
    ensures
        r == is_geometry(p),
{
    match p {
        Property::Width => true,
        Property::Height => true,
        Property::Left => true,
        Property::Right => true,
        Property::Bottom => true,
        Property::Top => true,
        _ => false,
    }
}

/// Pairwise distinct element names in a grouped system.
pub open spec fn distinct_group_keys(g: Seq<(Name, ElementConstraints)>) -> bool {
    forall|i: int, j: int| 0 <= i < j < g.len() ==> g[i].0@ != g[j].0@
}

/// A slot must reach a concrete value: it is one of the six geometry
/// properties, or the caller constrained it.
pub open spec fn slot_required(ec: ElementConstraints, p: Property) -> bool {
    is_geometry(p) || ec.prop_list(p)@.len() > 0
}

/// Some element of `groups` is called `n` and must resolve `p` (it is a
/// geometry property or carries candidates), and no candidate of that slot
/// supplies a value directly: an unresolved slot is never one the caller
/// pinned with a literal.
pub open spec fn required_slot_of(
    groups: Seq<(Name, ElementConstraints)>,
    n: Seq<char>,
    p: Property,
) -> bool {
    exists|i: int|
        0 <= i < groups.len() && (#[trigger] groups[i].0)@ == n && slot_required(groups[i].1, p)
            && (forall|j: int|
            0 <= j < groups[i].1.prop_list(p)@.len() ==> !((#[trigger] groups[i].1.prop_list(
                p,
            )@[j]) is Value))
}

/// Every slot with a directly-supplied `Value` candidate holds exactly that
/// value.
pub open spec fn value_pinned_at(
    groups: Seq<(Name, ElementConstraints)>,
    vals: Seq<ElementBuilder>,
    i: int,
    p: Property,
) -> bool {
    forall|j: int|
        0 <= j < groups[i].1.prop_list(p)@.len() ==> ((#[trigger] groups[i].1.prop_list(p)@[j])
            matches Expression::Value(w) ==> vals[i].prop_value(p) == Some(w))
}

/// `value_pinned_at` for every slot.
pub open spec fn value_pinned(
    groups: Seq<(Name, ElementConstraints)>,
    vals: Seq<ElementBuilder>,
) -> bool {
    forall|i: int, p: Property|
        0 <= i < groups.len() ==> #[trigger] value_pinned_at(groups, vals, i, p)
}

/// 1 for an assigned slot, 0 for an empty one.
pub open spec fn opt_ind(o: Option<i32>) -> int {
    if o is Some {
        1
    } else {
        0
    }
}

/// How many of a builder's ten slots hold values.
pub open spec fn builder_filled(b: ElementBuilder) -> int {
    opt_ind(b.prop_value(Property::Width)) + opt_ind(b.prop_value(Property::Height)) + opt_ind(
        b.prop_value(Property::Left),
    ) + opt_ind(b.prop_value(Property::Right)) + opt_ind(b.prop_value(Property::Bottom))
        + opt_ind(b.prop_value(Property::Top)) + opt_ind(b.prop_value(Property::X)) + opt_ind(
        b.prop_value(Property::Y),
    ) + opt_ind(b.prop_value(Property::Center)) + opt_ind(b.prop_value(Property::Color))
}

/// How many slots hold values over the whole vector.
pub open spec fn vals_filled(vals: Seq<ElementBuilder>) -> int
    decreases vals.len(),
{
    if vals.len() == 0 {
        0
    } else {
        vals_filled(vals.drop_last()) + builder_filled(vals.last())
    }
}

proof fn lemma_vals_filled_bounds(vals: Seq<ElementBuilder>)
    ensures
        0 <= vals_filled(vals) <= 10 * vals.len(),
    decreases vals.len(),
{
    if vals.len() > 0 {
        lemma_vals_filled_bounds(vals.drop_last());
    }
}

proof fn lemma_vals_filled_update(vals: Seq<ElementBuilder>, i: int, b: ElementBuilder)
    requires
        0 <= i < vals.len(),
    ensures
        vals_filled(vals.update(i, b)) == vals_filled(vals) - builder_filled(vals[i])
            + builder_filled(b),
    decreases vals.len(),
{
    if i == vals.len() - 1 {
        assert(vals.update(i, b).drop_last() =~= vals.drop_last());
    } else {
        assert(vals.update(i, b).drop_last() =~= vals.drop_last().update(i, b));
        lemma_vals_filled_update(vals.drop_last(), i, b);
    }
}

/// Committing one empty slot raises the count by exactly one.
proof fn lemma_set_filled(b1: ElementBuilder, b2: ElementBuilder, p: Property)
    requires
        b1.prop_value(p) is None,
        b2.prop_value(p) is Some,
        forall|q: Property| q != p ==> #[trigger] b2.prop_value(q) == b1.prop_value(q),
    ensures
        builder_filled(b2) == builder_filled(b1) + 1,
{
    match p {
        Property::Width => {},
        Property::Height => {},
        Property::Left => {},
        Property::Right => {},
        Property::Bottom => {},
        Property::Top => {},
        Property::X => {},
        Property::Y => {},
        Property::Center => {},
        Property::Color => {},
    }
}

/// A pinned slot stays pinned under any step that never changes a committed
/// value: a slot pinned while unassigned has no literal candidate at all, so
/// nothing is asked of the new state.
proof fn lemma_pinned_extends(
    groups: Seq<(Name, ElementConstraints)>,
    v1: Seq<ElementBuilder>,
    v2: Seq<ElementBuilder>,
    i: int,
    p: Property,
)
    requires
        0 <= i < v1.len(),
        0 <= i < v2.len(),
        value_pinned_at(groups, v1, i, p),
        v1[i].prop_value(p) is Some ==> v2[i].prop_value(p) == v1[i].prop_value(p),
    ensures
        value_pinned_at(groups, v2, i, p),
{
    assert forall|j: int|
        0 <= j < groups[i].1.prop_list(p)@.len() implies ((#[trigger] groups[i].1.prop_list(
        p,
    )@[j]) matches Expression::Value(w) ==> v2[i].prop_value(p) == Some(w)) by {
        match groups[i].1.prop_list(p)@[j] {
            Expression::Value(w) => {
                assert(v1[i].prop_value(p) == Some(w));
            },
            _ => {},
        }
    }
}

/// Every committed value belongs to a slot that has at least one candidate:
/// the fixpoint never invents a value for an unconstrained slot.
pub open spec fn vals_justified(
    groups: Seq<(Name, ElementConstraints)>,
    vals: Seq<ElementBuilder>,
) -> bool {
    forall|i: int, p: Property|
        0 <= i < vals.len() && (#[trigger] vals[i].prop_value(p)) is Some ==> groups[i].1
            .prop_list(p)@.len() > 0
}

/// One candidate gives the scan nothing to do under `env`: if it has a value
/// within the working bound, then either its slot is assigned and agrees with
/// that value exactly, or the slot is unassigned and the value stands for no
/// in-range integer, so nothing can be committed.
pub open spec fn scan_ok(
    groups: Seq<(Name, ElementConstraints)>,
    env: Env,
    i: int,
    p: Property,
    j: int,
) -> bool {
    (eval(groups[i].1.prop_list(p)@[j], env) is Some && eval_in_bounds(
        groups[i].1.prop_list(p)@[j],
        env,
    )) ==> {
        &&& env.dom().contains((groups[i].0@, p)) ==> rat_eq(
            rat_of_int(env[(groups[i].0@, p)]),
            eval(groups[i].1.prop_list(p)@[j], env)->Some_0,
        )
        &&& !env.dom().contains((groups[i].0@, p)) ==> ((forall|w: i32|
            !rat_eq(
                rat_of_int(w as int),
                eval(groups[i].1.prop_list(p)@[j], env)->Some_0,
            )) || (p is Color && !(groups[i].1.prop_list(p)@[j] is Value)))
    }
}

/// The fixpoint can make no further step under `env`: no candidate commits a
/// value and no candidate disagrees with a committed one.
pub open spec fn stalled(groups: Seq<(Name, ElementConstraints)>, env: Env) -> bool {
    forall|i: int, p: Property, j: int|
        0 <= i < groups.len() && 0 <= j < groups[i].1.prop_list(p)@.len()
            ==> #[trigger] scan_ok(groups, env, i, p, j)
}

/// Every assignment of `e1` is present, with the same value, in `e2`.
pub open spec fn env_le(e1: Env, e2: Env) -> bool {
    forall|k: (Seq<char>, Property)|
        #[trigger] e1.dom().contains(k) ==> e2.dom().contains(k) && e2[k] == e1[k]
}

/// Evaluation is monotone in the assignment: a defined value stays the same,
/// bounds included, under any extension.
proof fn lemma_eval_monotone(e: Expression, e1: Env, e2: Env)
    requires
        env_le(e1, e2),
    ensures
        eval(e, e1) is Some ==> {
            &&& eval(e, e2) == eval(e, e1)
            &&& eval_in_bounds(e, e1) <==> eval_in_bounds(e, e2)
        },
    decreases e,
{
    match e {
        Expression::Sum(a, b) => {
            lemma_eval_monotone(*a, e1, e2);
            lemma_eval_monotone(*b, e1, e2);
        },
        Expression::Product(a, b) => {
            lemma_eval_monotone(*a, e1, e2);
            lemma_eval_monotone(*b, e1, e2);
        },
        Expression::Negative(a) => {
            lemma_eval_monotone(*a, e1, e2);
        },
        Expression::Fraction(a) => {
            lemma_eval_monotone(*a, e1, e2);
        },
        Expression::Value(_) => {},
        Expression::Property(_, _) => {},
    }
}

/// Two integers standing for the same rational are equal.
proof fn lemma_int_value_unique(a: int, b: int, v: Rat)
    requires
        rat_wf(v),
        rat_eq(rat_of_int(a), v),
        rat_eq(rat_of_int(b), v),
    ensures
        a == b,
{
    assert(a == b) by (nonlinear_arith)
        requires
            a * v.den == v.num * 1int,
            b * v.den == v.num * 1int,
            v.den != 0,
    ;
}

/// The partial solution never invents a value: it stays below every stalled
/// assignment, so it is the least one.
pub open spec fn below_all_stalled(
    groups: Seq<(Name, ElementConstraints)>,
    vals: Seq<ElementBuilder>,
) -> bool {
    forall|env2: Env|
        #[trigger] stalled(groups, env2) ==> env_le(builders_env(groups, vals), env2)
}

/// The reported conflict is real: under the least partial assignment the
/// fixpoint reached (one below every stalled assignment), the slot holds
/// `existing` while some candidate of that very slot stands for the reported
/// rational, and the two differ.
pub open spec fn conflict_witnessed(
    groups: Seq<(Name, ElementConstraints)>,
    element: Name,
    property: Property,
    existing: i32,
    num: i64,
    den: i64,
    env: Env,
) -> bool {
    &&& forall|env2: Env| #[trigger] stalled(groups, env2) ==> env_le(env, env2)
    &&& env.dom().contains((element@, property))
    &&& env[(element@, property)] == existing as int
    &&& exists|i: int, j: int|
        0 <= i < groups.len() && (#[trigger] groups[i].0)@ == element@ && 0 <= j
            < groups[i].1.prop_list(property)@.len() && eval(
            #[trigger] groups[i].1.prop_list(property)@[j],
            env,
        ) == Some(Rat { num: num as int, den: den as int }) && eval_in_bounds(
            groups[i].1.prop_list(property)@[j],
            env,
        )
}

/// A conflict error is justified by a least stalled-below partial
/// assignment; other errors are not constrained here.
pub open spec fn conflict_justified(
    groups: Seq<(Name, ElementConstraints)>,
    err: ResolutionError,
) -> bool {
    err matches ResolutionError::ConflictingConstraints {
        element,
        property,
        existing,
        conflicting_num,
        conflicting_den,
    } ==> exists|env: Env|
        #[trigger] conflict_witnessed(
            groups,
            element,
            property,
            existing,
            conflicting_num,
            conflicting_den,
            env,
        )
}

/// Entry `t` of `ms` names the slot `(n, p)`.
pub open spec fn listed(ms: Seq<(Name, Property)>, n: Seq<char>, p: Property) -> bool {
    exists|t: int| 0 <= t < ms.len() && (#[trigger] ms[t].0)@ == n && ms[t].1 == p
}

/// Whenever a candidate has a value under `env` (within the working bound),
/// the slot it constrains is assigned and agrees with that value exactly.
pub open spec fn cand_ok(n: Seq<char>, p: Property, e: Expression, env: Env) -> bool {
    (eval(e, env) is Some && eval_in_bounds(e, env)) ==> (env.dom().contains((n, p)) && rat_eq(
        rat_of_int(env[(n, p)]),
        eval(e, env)->Some_0,
    ))
}

/// Evaluate against the partial solution during the fixpoint, exactly: the
/// result, when there is one, is the precise rational value of `e` under the
/// assignment the builders embody, and there is one whenever that value
/// exists and stays within the working bound.
fn eval_partial(
    e: &Expression,
    groups: &Vec<(Name, ElementConstraints)>,
    vals: &Vec<ElementBuilder>,
) -> (r: Option<(i128, i128)>)
    requires
        vals@.len() == groups@.len(),
        distinct_group_keys(groups@),
    ensures
        r matches Some(v) ==> {
            &&& v.1 != 0
            &&& -EVAL_BOUND <= v.0 <= EVAL_BOUND
            &&& -EVAL_BOUND <= v.1 <= EVAL_BOUND
            &&& eval(*e, builders_env(groups@, vals@)) == Some(
                Rat { num: v.0 as int, den: v.1 as int },
            )
            &&& eval_in_bounds(*e, builders_env(groups@, vals@))
        },
        (eval(*e, builders_env(groups@, vals@)) is Some && eval_in_bounds(
            *e,
            builders_env(groups@, vals@),
        )) ==> r is Some,
        *e matches Expression::Value(w) ==> r == Some((w as i128, 1i128)),
    decreases *e,
{
    let ghost env = builders_env(groups@, vals@);
    match e {
        Expression::Sum(a, b) => {
            match (eval_partial(a, groups, vals), eval_partial(b, groups, vals)) {
                (Some((n1, d1)), Some((n2, d2))) => {
                    proof {
                        lemma_mul_bound(n1 as int, d2 as int, EVAL_BOUND as int);
                        lemma_mul_bound(n2 as int, d1 as int, EVAL_BOUND as int);
                        lemma_mul_bound(d1 as int, d2 as int, EVAL_BOUND as int);
                    }
                    let n = n1 * d2 + n2 * d1;
                    let d = d1 * d2;
                    if -EVAL_BOUND <= n && n <= EVAL_BOUND && -EVAL_BOUND <= d && d
                        <= EVAL_BOUND {
                        proof {
                            assert(d as int != 0) by (nonlinear_arith)
                                requires
                                    d1 as int != 0,
                                    d2 as int != 0,
                                    d as int == (d1 as int) * (d2 as int),
                            ;
                        }
                        Some((n, d))
                    } else {
                        None
                    }
                },
                _ => None,
            }
        },
        Expression::Product(a, b) => {
            match (eval_partial(a, groups, vals), eval_partial(b, groups, vals)) {
                (Some((n1, d1)), Some((n2, d2))) => {
                    proof {
                        lemma_mul_bound(n1 as int, n2 as int, EVAL_BOUND as int);
                        lemma_mul_bound(d1 as int, d2 as int, EVAL_BOUND as int);
                    }
                    let n = n1 * n2;
                    let d = d1 * d2;
                    if -EVAL_BOUND <= n && n <= EVAL_BOUND && -EVAL_BOUND <= d && d
                        <= EVAL_BOUND {
                        proof {
                            assert(d as int != 0) by (nonlinear_arith)
                                requires
                                    d1 as int != 0,
                                    d2 as int != 0,
                                    d as int == (d1 as int) * (d2 as int),
                            ;
                        }
                        Some((n, d))
                    } else {
                        None
                    }
                },
                _ => None,
            }
        },
        Expression::Negative(a) => {
            match eval_partial(a, groups, vals) {
                Some((n1, d1)) => Some((-n1, d1)),
                None => None,
            }
        },
        Expression::Fraction(a) => {
            match eval_partial(a, groups, vals) {
                Some((n1, d1)) => {
                    if n1 != 0 {
                        Some((d1, n1))
                    } else {
                        None
                    }
                },
                None => None,
            }
        },
        Expression::Value(v) => Some((*v as i128, 1)),
        Expression::Property(name, prop) => {
            let found = crate::group::find_element(groups, name);
            match found {
                Some(i) => {
                    proof {
                        lemma_builders_env_at(groups@, vals@, i as int, *prop);
                    }
                    match vals[i].get(*prop) {
                        Some(w) => Some((w as i128, 1)),
                        None => None,
                    }
                },
                None => {
                    proof {
                        if has_key(groups@, name@) {
                            let i0 = choose|i0: int|
                                0 <= i0 < groups@.len() && (#[trigger] groups@[i0].0)@
                                    == name@;
                            assert(groups@[i0].0@ != name@);
                        }
                        assert(!env.dom().contains((name@, *prop)));
                    }
                    None
                },
            }
        },
    }
}

/// Resolve the augmented, grouped system to concrete elements by fixed-point
/// substitution, or report why it cannot be done.
fn solve(groups: Vec<(Name, ElementConstraints)>) -> (res: Result<
    Vec<(Name, Element)>,
    ResolutionError,
>)
    requires
        distinct_group_keys(groups@),
    ensures
        match res {
            Ok(elems) => {
                &&& elems@.len() == groups@.len()
                &&& forall|i: int| 0 <= i < groups@.len() ==> (#[trigger] elems@[i].0)@
                    == groups@[i].0@
                &&& distinct_elem_keys(elems@)
                &&& forall|i: int, p: Property|
                    0 <= i < groups@.len() ==> ((#[trigger] elems@[i].1.prop_value(p)) is Some
                        <==> slot_required(groups@[i].1, p))
                &&& forall|i: int, p: Property, j: int|
                    #![trigger groups@[i].1.prop_list(p)@[j]]
                    0 <= i < groups@.len() && 0 <= j < groups@[i].1.prop_list(p)@.len()
                        ==> cand_ok(
                        groups@[i].0@,
                        p,
                        groups@[i].1.prop_list(p)@[j],
                        elems_env(elems@),
                    )
                &&& forall|env2: Env|
                    #[trigger] stalled(groups@, env2) ==> env_le(elems_env(elems@), env2)
            },
            Err(ResolutionError::CannotDetermineSpecificValue(v)) => {
                &&& v@.len() > 0
                &&& forall|t: int|
                    0 <= t < v@.len() ==> #[trigger] required_slot_of(
                        groups@,
                        (v@[t].0)@,
                        v@[t].1,
                    )
                &&& exists|env: Env|
                    {
                        &&& #[trigger] stalled(groups@, env)
                        &&& forall|i: int, p: Property|
                            #![trigger listed(v@, groups@[i].0@, p)]
                            0 <= i < groups@.len() && slot_required(groups@[i].1, p) ==> (
                            env.dom().contains((groups@[i].0@, p)) <==> !listed(
                                v@,
                                groups@[i].0@,
                                p,
                            ))
                    }
            },
            Err(ResolutionError::ConflictingConstraints {
                element,
                property,
                existing,
                conflicting_num,
                conflicting_den,
            }) => {
                &&& conflicting_den != 0
                &&& !rat_eq(
                    rat_of_int(existing as int),
                    Rat { num: conflicting_num as int, den: conflicting_den as int },
                )
                &&& has_key(groups@, element@)
            },
        },
        res matches Err(e) ==> conflict_justified(groups@, e),
        groups@.len() == 0 ==> res is Ok,
{
    let n = groups.len();
    let mut vals: Vec<ElementBuilder> = Vec::new();
    for i in 0..n
        invariant
            vals@.len() == i,
            vals_justified(groups@, vals@),
            forall|i2: int, p2: Property|
                0 <= i2 < vals@.len() ==> (#[trigger] vals@[i2].prop_value(p2)) is None,
    {
        vals.push(ElementBuilder::default());
    }
    proof {
        assert forall|env2: Env| #[trigger] stalled(groups@, env2) implies env_le(
            builders_env(groups@, vals@),
            env2,
        ) by {
            assert forall|k: (Seq<char>, Property)| #[trigger] builders_env(
                groups@,
                vals@,
            ).dom().contains(k) implies env2.dom().contains(k) && env2[k] == builders_env(
                groups@,
                vals@,
            )[k] by {
                let gi = group_idx(groups@, k.0);
                assert(vals@[gi].prop_value(k.1) is Some);
                assert(false);
            }
        }
    }
    let props = all_properties();

    // first scan: afterwards every slot with a directly-supplied value holds
    // exactly that value, whatever else the scan committed along the way
    for i in 0..n
        invariant
            n == groups@.len(),
            vals@.len() == n as int,
            props@.len() == 10,
            props@ == prop_order(),
            distinct_group_keys(groups@),
            vals_justified(groups@, vals@),
            below_all_stalled(groups@, vals@),
            forall|i2: int, p2: Property|
                0 <= i2 < i ==> #[trigger] value_pinned_at(groups@, vals@, i2, p2),
    {
        for pi in 0..10usize
            invariant
                n == groups@.len(),
                vals@.len() == n as int,
                props@.len() == 10,
                props@ == prop_order(),
                distinct_group_keys(groups@),
                vals_justified(groups@, vals@),
                below_all_stalled(groups@, vals@),
                i < n,
                forall|i2: int, p2: Property|
                    0 <= i2 < i ==> #[trigger] value_pinned_at(groups@, vals@, i2, p2),
                forall|pi2: int|
                    0 <= pi2 < pi ==> #[trigger] value_pinned_at(
                        groups@,
                        vals@,
                        i as int,
                        prop_order()[pi2],
                    ),
        {
            let p = props[pi];
            let m = groups[i].1.candidates(p).len();
            let mut j: usize = 0;
            while j < m
                invariant
                    n == groups@.len(),
                    vals@.len() == n as int,
                    distinct_group_keys(groups@),
                    vals_justified(groups@, vals@),
                    below_all_stalled(groups@, vals@),
                    i < n,
                    j <= m,
                    m == groups@[i as int].1.prop_list(p)@.len(),
                    forall|i2: int, p2: Property|
                        0 <= i2 < i ==> #[trigger] value_pinned_at(groups@, vals@, i2, p2),
                    forall|pi2: int|
                        0 <= pi2 < pi ==> #[trigger] value_pinned_at(
                            groups@,
                            vals@,
                            i as int,
                            prop_order()[pi2],
                        ),
                    forall|j2: int|
                        0 <= j2 < j ==> ((#[trigger] groups@[i as int].1.prop_list(p)@[j2])
                            matches Expression::Value(w) ==> vals@[i as int].prop_value(p)
                            == Some(w)),
                decreases m - j,
            {
                let e = &groups[i].1.candidates(p)[j];
                let ghost cand = groups@[i as int].1.prop_list(p)@[j as int];
                match eval_partial(e, &groups, &vals) {
                    Some((nv, dv)) => {
                        let literal = match e {
                            Expression::Value(_) => true,
                            _ => false,
                        };
                        let is_color = match p {
                            Property::Color => true,
                            _ => false,
                        };
                        match vals[i].get(p) {
                            None if is_color && !literal => {
                                // a colour is taken only from a directly
                                // supplied value, never derived
                                proof {
                                    assert(p is Color && !(cand is Value));
                                }
                            },
                            None => {
                                match to_i32(nv, dv) {
                                    Some(w) => {
                                        proof {
                                            assert(!(p is Color) || cand is Value);
                                        }
                                        let ghost vals_pre = vals@;
                                        let slot = &mut vals[i];
                                        slot.set(p, w);
                                        proof {
                                            assert(vals@ =~= vals_pre.update(
                                                i as int,
                                                *final(slot),
                                            ));
                                            assert forall|i2: int, p2: Property|
                                                0 <= i2 < vals@.len() && (#[trigger] vals@[
                                            i2].prop_value(p2)) is Some implies groups@[
                                            i2].1.prop_list(p2)@.len() > 0 by {
                                                if i2 == i as int && p2 == p {
                                                } else if i2 == i as int {
                                                    assert(vals@[i2].prop_value(p2)
                                                        == vals_pre[i2].prop_value(p2));
                                                } else {
                                                    assert(vals@[i2] == vals_pre[i2]);
                                                }
                                            }
                                            assert forall|i2: int, p2: Property|
                                                0 <= i2 < i implies #[trigger] value_pinned_at(
                                                groups@,
                                                vals@,
                                                i2,
                                                p2,
                                            ) by {
                                                assert(vals@[i2] == vals_pre[i2]);
                                                lemma_pinned_extends(
                                                    groups@,
                                                    vals_pre,
                                                    vals@,
                                                    i2,
                                                    p2,
                                                );
                                            }
                                            assert forall|pi2: int|
                                                0 <= pi2 < pi implies #[trigger] value_pinned_at(
                                                groups@,
                                                vals@,
                                                i as int,
                                                prop_order()[pi2],
                                            ) by {
                                                lemma_pinned_extends(
                                                    groups@,
                                                    vals_pre,
                                                    vals@,
                                                    i as int,
                                                    prop_order()[pi2],
                                                );
                                            }
                                            assert forall|j2: int|
                                                0 <= j2 < j + 1 implies ((#[trigger] groups@[
                                            i as int].1.prop_list(p)@[j2]) matches
                                                Expression::Value(w2) ==> vals@[
                                            i as int].prop_value(p) == Some(w2)) by {
                                                match groups@[i as int].1.prop_list(p)@[j2] {
                                                    Expression::Value(w2) => {
                                                        if j2 < j as int {
                                                            assert(vals_pre[i as int].prop_value(
                                                                p,
                                                            ) == Some(w2));
                                                            assert(false);
                                                        } else {
                                                            assert(cand == Expression::Value(
                                                                w2,
                                                            ));
                                                            assert(nv == w2 as i128 && dv
                                                                == 1i128);
                                                            assert(rat_eq(
                                                                rat_of_int(w as int),
                                                                Rat {
                                                                    num: w2 as int,
                                                                    den: 1,
                                                                },
                                                            ));
                                                            assert(w as int == w2 as int)
                                                                by (nonlinear_arith)
                                                                requires
                                                                    (w as int) * 1int == (
                                                                    w2 as int) * 1int,
                                                            ;
                                                        }
                                                    },
                                                    _ => {},
                                                }
                                            }
                                            assert forall|env2: Env| #[trigger] stalled(
                                                groups@,
                                                env2,
                                            ) implies env_le(
                                                builders_env(groups@, vals@),
                                                env2,
                                            ) by {
                                                let env_pre = builders_env(groups@, vals_pre);
                                                assert(env_le(env_pre, env2));
                                                lemma_eval_monotone(cand, env_pre, env2);
                                                assert(eval(cand, env2) == Some(
                                                    Rat { num: nv as int, den: dv as int },
                                                ));
                                                assert(eval_in_bounds(cand, env2));
                                                assert(scan_ok(
                                                    groups@,
                                                    env2,
                                                    i as int,
                                                    p,
                                                    j as int,
                                                ));
                                                assert(rat_eq(
                                                    rat_of_int(w as int),
                                                    Rat { num: nv as int, den: dv as int },
                                                ));
                                                assert(env2.dom().contains(
                                                    (groups@[i as int].0@, p),
                                                ));
                                                lemma_int_value_unique(
                                                    env2[(groups@[i as int].0@, p)],
                                                    w as int,
                                                    Rat { num: nv as int, den: dv as int },
                                                );
                                                lemma_group_idx_at(groups@, i as int);
                                                assert forall|k: (Seq<char>, Property)|
                                                    #[trigger] builders_env(
                                                    groups@,
                                                    vals@,
                                                ).dom().contains(k) implies env2.dom().contains(
                                                    k,
                                                ) && env2[k] == builders_env(
                                                    groups@,
                                                    vals@,
                                                )[k] by {
                                                    let gi = group_idx(groups@, k.0);
                                                    assert(has_key(groups@, k.0));
                                                    assert(0 <= gi < groups@.len()
                                                        && groups@[gi].0@ == k.0);
                                                    lemma_builders_env_at(
                                                        groups@,
                                                        vals@,
                                                        gi,
                                                        k.1,
                                                    );
                                                    lemma_builders_env_at(
                                                        groups@,
                                                        vals_pre,
                                                        gi,
                                                        k.1,
                                                    );
                                                    if gi == i as int && k.1 == p {
                                                        assert(builders_env(
                                                            groups@,
                                                            vals@,
                                                        )[k] == w as int);
                                                    } else {
                                                        assert(vals@[gi].prop_value(k.1)
                                                            == vals_pre[gi].prop_value(k.1));
                                                        assert(env_pre.dom().contains(k));
                                                    }
                                                }
                                            }
                                        }
                                    },
                                    None => {
                                        proof {
                                            match cand {
                                                Expression::Value(w2) => {
                                                    assert(rat_eq(
                                                        rat_of_int(w2 as int),
                                                        Rat { num: nv as int, den: dv as int },
                                                    ));
                                                    assert(false);
                                                },
                                                _ => {},
                                            }
                                        }
                                    },
                                }
                            },
                            Some(w0) => {
                                proof {
                                    lemma_mul_bound(w0 as int, dv as int, EVAL_BOUND as int);
                                }
                                if (w0 as i128) * dv != nv {
                                    proof {
                                        assert((w0 as int) * (dv as int) != nv as int);
                                        assert(nv as i64 as int == nv as int);
                                        assert(dv as i64 as int == dv as int);
                                        assert(has_key(groups@, groups@[i as int].0@));
                                        assert(!rat_eq(
                                            rat_of_int(w0 as int),
                                            Rat { num: nv as int, den: dv as int },
                                        )) by (nonlinear_arith)
                                            requires
                                                (w0 as int) * (dv as int) != nv as int,
                                        ;
                                    }
                                    let elem_name = groups[i].0.clone();
                                    proof {
                                        assert(elem_name == groups@[i as int].0);
                                        lemma_builders_env_at(groups@, vals@, i as int, p);
                                        assert(builders_env(groups@, vals@).dom().contains(
                                            (groups@[i as int].0@, p),
                                        ));
                                        assert(builders_env(groups@, vals@)[
                                        (groups@[i as int].0@, p)] == w0 as int);
                                        assert(groups@[i as int].1.prop_list(p)@[j as int]
                                            == cand);
                                        assert(eval(cand, builders_env(groups@, vals@))
                                            == Some(Rat { num: nv as int, den: dv as int }));
                                        assert(eval_in_bounds(
                                            cand,
                                            builders_env(groups@, vals@),
                                        ));
                                        assert(conflict_witnessed(
                                            groups@,
                                            elem_name,
                                            p,
                                            w0,
                                            nv as i64,
                                            dv as i64,
                                            builders_env(groups@, vals@),
                                        ));
                                    }
                                    let err_val = ResolutionError::ConflictingConstraints {
                                        element: elem_name,
                                        property: p,
                                        existing: w0,
                                        conflicting_num: nv as i64,
                                        conflicting_den: dv as i64,
                                    };
                                    proof {
                                        assert(err_val matches ResolutionError::ConflictingConstraints {
                                            element,
                                            property,
                                            existing,
                                            conflicting_num,
                                            conflicting_den,
                                        } && element == elem_name && property == p && existing
                                            == w0 && conflicting_num == nv as i64
                                            && conflicting_den == dv as i64);
                                        assert(conflict_justified(groups@, err_val));
                                    }
                                    return Err(err_val);
                                }
                                proof {
                                    assert forall|j2: int|
                                        0 <= j2 < j + 1 implies ((#[trigger] groups@[
                                    i as int].1.prop_list(p)@[j2]) matches Expression::Value(
                                        w2,
                                    ) ==> vals@[i as int].prop_value(p) == Some(w2)) by {
                                        match groups@[i as int].1.prop_list(p)@[j2] {
                                            Expression::Value(w2) => {
                                                if j2 == j as int {
                                                    assert(cand == Expression::Value(w2));
                                                    assert(nv == w2 as i128 && dv == 1i128);
                                                    assert(w0 as int == w2 as int)
                                                        by (nonlinear_arith)
                                                        requires
                                                            (w0 as int) * 1int == (
                                                            w2 as int) * 1int,
                                                    ;
                                                }
                                            },
                                            _ => {},
                                        }
                                    }
                                }
                            },
                        }
                    },
                    None => {
                        proof {
                            assert(!(cand is Value));
                        }
                    },
                }
                j = j + 1;
            }
        }
        proof {
            assert forall|p2: Property| value_pinned_at(
                groups@,
                vals@,
                i as int,
                p2,
            ) by {
                lemma_prop_order_at(p2);
                let pidx: int = prop_index(p2);
                assert(value_pinned_at(groups@, vals@, i as int, prop_order()[pidx]));
            }
        }
    }

    // fixed-point scan: commit every evaluable, integral candidate, abort on
    // the first disagreement; every productive pass fills at least one of the
    // finitely many slots, so the scan reaches a pass that changes nothing
    proof {
        lemma_vals_filled_bounds(vals@);
    }
    let mut progress = true;
    while progress
        invariant
            n == groups@.len(),
            vals@.len() == n as int,
            props@.len() == 10,
            props@ == prop_order(),
            distinct_group_keys(groups@),
            vals_justified(groups@, vals@),
            value_pinned(groups@, vals@),
            below_all_stalled(groups@, vals@),
            0 <= vals_filled(vals@) <= 10 * (n as int),
            !progress ==> stalled(groups@, builders_env(groups@, vals@)),
        decreases 10 * (n as int) - vals_filled(vals@) + (if progress {
            1int
        } else {
            0int
        }),
    {
        let ghost filled0 = vals_filled(vals@);
        progress = false;
        for i in 0..n
            invariant
                n == groups@.len(),
                vals@.len() == n as int,
                props@.len() == 10,
                props@ == prop_order(),
                distinct_group_keys(groups@),
                vals_justified(groups@, vals@),
                value_pinned(groups@, vals@),
                below_all_stalled(groups@, vals@),
                progress ==> vals_filled(vals@) > filled0,
                !progress ==> vals_filled(vals@) == filled0,
                !progress ==> forall|i2: int, p2: Property, j2: int|
                    0 <= i2 < i && 0 <= j2 < groups@[i2].1.prop_list(p2)@.len()
                        ==> #[trigger] scan_ok(
                        groups@,
                        builders_env(groups@, vals@),
                        i2,
                        p2,
                        j2,
                    ),
        {
            for pi in 0..10usize
                invariant
                    n == groups@.len(),
                    vals@.len() == n as int,
                    props@.len() == 10,
                    props@ == prop_order(),
                    distinct_group_keys(groups@),
                    vals_justified(groups@, vals@),
                    value_pinned(groups@, vals@),
                    below_all_stalled(groups@, vals@),
                    i < n,
                    progress ==> vals_filled(vals@) > filled0,
                    !progress ==> vals_filled(vals@) == filled0,
                    !progress ==> forall|i2: int, p2: Property, j2: int|
                        0 <= i2 < i && 0 <= j2 < groups@[i2].1.prop_list(p2)@.len()
                            ==> #[trigger] scan_ok(
                            groups@,
                            builders_env(groups@, vals@),
                            i2,
                            p2,
                            j2,
                        ),
                    !progress ==> forall|pi2: int, j2: int|
                        0 <= pi2 < pi && 0 <= j2 < groups@[i as int].1.prop_list(
                            prop_order()[pi2],
                        )@.len() ==> #[trigger] scan_ok(
                            groups@,
                            builders_env(groups@, vals@),
                            i as int,
                            prop_order()[pi2],
                            j2,
                        ),
            {
                let p = props[pi];
                let m = groups[i].1.candidates(p).len();
                let mut j: usize = 0;
                while j < m
                    invariant
                        n == groups@.len(),
                        vals@.len() == n as int,
                        distinct_group_keys(groups@),
                        vals_justified(groups@, vals@),
                        value_pinned(groups@, vals@),
                        below_all_stalled(groups@, vals@),
                        i < n,
                        m == groups@[i as int].1.prop_list(p)@.len(),
                        progress ==> vals_filled(vals@) > filled0,
                        !progress ==> vals_filled(vals@) == filled0,
                        !progress ==> forall|i2: int, p2: Property, j2: int|
                            0 <= i2 < i && 0 <= j2 < groups@[i2].1.prop_list(p2)@.len()
                                ==> #[trigger] scan_ok(
                                groups@,
                                builders_env(groups@, vals@),
                                i2,
                                p2,
                                j2,
                            ),
                        !progress ==> forall|pi2: int, j2: int|
                            0 <= pi2 < pi && 0 <= j2 < groups@[i as int].1.prop_list(
                                prop_order()[pi2],
                            )@.len() ==> #[trigger] scan_ok(
                                groups@,
                                builders_env(groups@, vals@),
                                i as int,
                                prop_order()[pi2],
                                j2,
                            ),
                        !progress ==> forall|j2: int|
                            0 <= j2 < j ==> #[trigger] scan_ok(
                                groups@,
                                builders_env(groups@, vals@),
                                i as int,
                                p,
                                j2,
                            ),
                    decreases m - j,
                {
                    let e = &groups[i].1.candidates(p)[j];
                    let ghost cand = groups@[i as int].1.prop_list(p)@[j as int];
                    let ghost envc = builders_env(groups@, vals@);
                    match eval_partial(e, &groups, &vals) {
                        Some((nv, dv)) => {
                            let literal = match e {
                                Expression::Value(_) => true,
                                _ => false,
                            };
                            let is_color = match p {
                                Property::Color => true,
                                _ => false,
                            };
                            match vals[i].get(p) {
                                None if is_color && !literal => {
                                    // a colour is taken only from a directly
                                    // supplied value, never derived
                                    proof {
                                        if !progress {
                                            assert(p is Color && !(cand is Value));
                                            assert(scan_ok(
                                                groups@,
                                                envc,
                                                i as int,
                                                p,
                                                j as int,
                                            ));
                                        }
                                    }
                                },
                                None => {
                                    match to_i32(nv, dv) {
                                        Some(w) => {
                                            proof {
                                                assert(!(p is Color) || cand is Value);
                                            }
                                            let ghost vals_pre = vals@;
                                            let slot = &mut vals[i];
                                            slot.set(p, w);
                                            progress = true;
                                            proof {
                                                assert(vals@ =~= vals_pre.update(
                                                    i as int,
                                                    *final(slot),
                                                ));
                                                assert forall|i2: int, p2: Property|
                                                    0 <= i2 < vals@.len() && (
                                                    #[trigger] vals@[i2].prop_value(p2))
                                                        is Some implies groups@[i2].1.prop_list(
                                                    p2,
                                                )@.len() > 0 by {
                                                    if i2 == i as int && p2 == p {
                                                    } else if i2 == i as int {
                                                        assert(vals@[i2].prop_value(p2)
                                                            == vals_pre[i2].prop_value(p2));
                                                    } else {
                                                        assert(vals@[i2] == vals_pre[i2]);
                                                    }
                                                }
                                                assert forall|i2: int, p2: Property|
                                                    0 <= i2 < groups@.len() implies
                                                #[trigger] value_pinned_at(
                                                    groups@,
                                                    vals@,
                                                    i2,
                                                    p2,
                                                ) by {
                                                    if i2 == i as int && p2 == p {
                                                        lemma_pinned_extends(
                                                            groups@,
                                                            vals_pre,
                                                            vals@,
                                                            i2,
                                                            p2,
                                                        );
                                                    } else if i2 == i as int {
                                                        assert(vals@[i2].prop_value(p2)
                                                            == vals_pre[i2].prop_value(p2));
                                                        lemma_pinned_extends(
                                                            groups@,
                                                            vals_pre,
                                                            vals@,
                                                            i2,
                                                            p2,
                                                        );
                                                    } else {
                                                        assert(vals@[i2] == vals_pre[i2]);
                                                        lemma_pinned_extends(
                                                            groups@,
                                                            vals_pre,
                                                            vals@,
                                                            i2,
                                                            p2,
                                                        );
                                                    }
                                                }
                                                lemma_set_filled(
                                                    vals_pre[i as int],
                                                    vals@[i as int],
                                                    p,
                                                );
                                                lemma_vals_filled_update(
                                                    vals_pre,
                                                    i as int,
                                                    vals@[i as int],
                                                );
                                                assert(vals_filled(vals@) == vals_filled(
                                                    vals_pre,
                                                ) + 1);
                                            assert forall|env2: Env| #[trigger] stalled(
                                                groups@,
                                                env2,
                                            ) implies env_le(
                                                builders_env(groups@, vals@),
                                                env2,
                                            ) by {
                                                let env_pre = builders_env(groups@, vals_pre);
                                                assert(env_le(env_pre, env2));
                                                lemma_eval_monotone(cand, env_pre, env2);
                                                assert(eval(cand, env2) == Some(
                                                    Rat { num: nv as int, den: dv as int },
                                                ));
                                                assert(eval_in_bounds(cand, env2));
                                                assert(scan_ok(
                                                    groups@,
                                                    env2,
                                                    i as int,
                                                    p,
                                                    j as int,
                                                ));
                                                assert(rat_eq(
                                                    rat_of_int(w as int),
                                                    Rat { num: nv as int, den: dv as int },
                                                ));
                                                assert(env2.dom().contains(
                                                    (groups@[i as int].0@, p),
                                                ));
                                                lemma_int_value_unique(
                                                    env2[(groups@[i as int].0@, p)],
                                                    w as int,
                                                    Rat { num: nv as int, den: dv as int },
                                                );
                                                lemma_group_idx_at(groups@, i as int);
                                                assert forall|k: (Seq<char>, Property)|
                                                    #[trigger] builders_env(
                                                    groups@,
                                                    vals@,
                                                ).dom().contains(k) implies env2.dom().contains(
                                                    k,
                                                ) && env2[k] == builders_env(
                                                    groups@,
                                                    vals@,
                                                )[k] by {
                                                    let gi = group_idx(groups@, k.0);
                                                    assert(has_key(groups@, k.0));
                                                    assert(0 <= gi < groups@.len()
                                                        && groups@[gi].0@ == k.0);
                                                    lemma_builders_env_at(
                                                        groups@,
                                                        vals@,
                                                        gi,
                                                        k.1,
                                                    );
                                                    lemma_builders_env_at(
                                                        groups@,
                                                        vals_pre,
                                                        gi,
                                                        k.1,
                                                    );
                                                    if gi == i as int && k.1 == p {
                                                        assert(builders_env(
                                                            groups@,
                                                            vals@,
                                                        )[k] == w as int);
                                                    } else {
                                                        assert(vals@[gi].prop_value(k.1)
                                                            == vals_pre[gi].prop_value(k.1));
                                                        assert(env_pre.dom().contains(k));
                                                    }
                                                }
                                            }
                                            }
                                        },
                                        None => {
                                            proof {
                                                if !progress {
                                                    lemma_builders_env_at(
                                                        groups@,
                                                        vals@,
                                                        i as int,
                                                        p,
                                                    );
                                                    assert(!envc.dom().contains(
                                                        (groups@[i as int].0@, p),
                                                    ));
                                                    assert(scan_ok(
                                                        groups@,
                                                        envc,
                                                        i as int,
                                                        p,
                                                        j as int,
                                                    ));
                                                }
                                            }
                                        },
                                    }
                                },
                                Some(w0) => {
                                    proof {
                                        lemma_mul_bound(
                                            w0 as int,
                                            dv as int,
                                            EVAL_BOUND as int,
                                        );
                                    }
                                    if (w0 as i128) * dv != nv {
                                        proof {
                                            assert((w0 as int) * (dv as int) != nv as int);
                                            lemma_builders_env_at(
                                                groups@,
                                                vals@,
                                                i as int,
                                                p,
                                            );
                                            assert(builders_env(
                                                groups@,
                                                vals@,
                                            ).dom().contains((groups@[i as int].0@, p)));
                                            assert(builders_env(groups@, vals@)[
                                            (groups@[i as int].0@, p)] == w0 as int);
                                            assert(groups@[i as int].1.prop_list(p)@[
                                            j as int] == cand);
                                            assert(eval(cand, builders_env(groups@, vals@))
                                                == Some(
                                                Rat { num: nv as int, den: dv as int },
                                            ));
                                            assert(eval_in_bounds(
                                                cand,
                                                builders_env(groups@, vals@),
                                            ));
                                            assert(nv as i64 as int == nv as int);
                                            assert(dv as i64 as int == dv as int);
                                        }
                                        let elem_name = groups[i].0.clone();
                                        proof {
                                            assert(elem_name == groups@[i as int].0);
                                            assert(conflict_witnessed(
                                                groups@,
                                                elem_name,
                                                p,
                                                w0,
                                                nv as i64,
                                                dv as i64,
                                                builders_env(groups@, vals@),
                                            ));
                                        }
                                        let err_val = ResolutionError::ConflictingConstraints {
                                            element: elem_name,
                                            property: p,
                                            existing: w0,
                                            conflicting_num: nv as i64,
                                            conflicting_den: dv as i64,
                                        };
                                        proof {
                                            assert(err_val matches ResolutionError::ConflictingConstraints {
                                                element,
                                                property,
                                                existing,
                                                conflicting_num,
                                                conflicting_den,
                                            } && element == elem_name && property == p
                                                && existing == w0 && conflicting_num == nv as i64
                                                && conflicting_den == dv as i64);
                                            assert(conflict_justified(groups@, err_val));
                                        }
                                        return Err(err_val);
                                    }
                                    proof {
                                        if !progress {
                                            lemma_builders_env_at(
                                                groups@,
                                                vals@,
                                                i as int,
                                                p,
                                            );
                                            assert(envc.dom().contains(
                                                (groups@[i as int].0@, p),
                                            ));
                                            assert(envc[(groups@[i as int].0@, p)]
                                                == w0 as int);
                                            assert(rat_eq(
                                                rat_of_int(w0 as int),
                                                Rat { num: nv as int, den: dv as int },
                                            )) by (nonlinear_arith)
                                                requires
                                                    (w0 as int) * (dv as int) == nv as int,
                                            ;
                                            assert(scan_ok(
                                                groups@,
                                                envc,
                                                i as int,
                                                p,
                                                j as int,
                                            ));
                                        }
                                    }
                                },
                            }
                        },
                        None => {
                            proof {
                                if !progress {
                                    assert(scan_ok(groups@, envc, i as int, p, j as int));
                                }
                            }
                        },
                    }
                    j = j + 1;
                }
                proof {
                    if !progress {
                        assert forall|pi2: int, j2: int|
                            0 <= pi2 < pi + 1 && 0 <= j2 < groups@[i as int].1.prop_list(
                                prop_order()[pi2],
                            )@.len() implies #[trigger] scan_ok(
                            groups@,
                            builders_env(groups@, vals@),
                            i as int,
                            prop_order()[pi2],
                            j2,
                        ) by {
                            if pi2 == pi as int {
                                assert(prop_order()[pi2] == p);
                            }
                        }
                    }
                }
            }
            proof {
                if !progress {
                    assert forall|i2: int, p2: Property, j2: int|
                        0 <= i2 < i + 1 && 0 <= j2 < groups@[i2].1.prop_list(
                            p2,
                        )@.len() implies #[trigger] scan_ok(
                        groups@,
                        builders_env(groups@, vals@),
                        i2,
                        p2,
                        j2,
                    ) by {
                        if i2 == i as int {
                            lemma_prop_order_at(p2);
                            let pidx: int = prop_index(p2);
                            assert(scan_ok(
                                groups@,
                                builders_env(groups@, vals@),
                                i as int,
                                prop_order()[pidx],
                                j2,
                            ));
                        }
                    }
                }
            }
        }
        proof {
            lemma_vals_filled_bounds(vals@);
            if !progress {
                assert(stalled(groups@, builders_env(groups@, vals@)));
            }
        }
    }

    // every required slot must have reached a value; collect the unresolved
    // ones exhaustively
    let mut missing: Vec<(Name, Property)> = Vec::new();
    for i in 0..n
        invariant
            n == groups@.len(),
            vals@.len() == n as int,
            props@.len() == 10,
            props@ == prop_order(),
            distinct_group_keys(groups@),
            value_pinned(groups@, vals@),
            stalled(groups@, builders_env(groups@, vals@)),
            forall|t: int|
                0 <= t < missing@.len() ==> #[trigger] required_slot_of(
                    groups@,
                    (missing@[t].0)@,
                    missing@[t].1,
                ),
            forall|t: int|
                0 <= t < missing@.len() ==> has_key(groups@, (#[trigger] missing@[t].0)@)
                    && vals@[group_idx(groups@, (missing@[t].0)@)].prop_value(missing@[t].1)
                    is None,
            forall|i2: int, p2: Property|
                0 <= i2 < i && slot_required(groups@[i2].1, p2) && (
                #[trigger] vals@[i2].prop_value(p2)) is None ==> listed(
                    missing@,
                    groups@[i2].0@,
                    p2,
                ),
            missing@.len() == 0 ==> forall|i2: int, p: Property|
                0 <= i2 < i && slot_required(groups@[i2].1, p) ==> (
                #[trigger] vals@[i2].prop_value(p)) is Some,
    {
        for pi in 0..10usize
            invariant
                n == groups@.len(),
                vals@.len() == n as int,
                props@.len() == 10,
                props@ == prop_order(),
                i < n,
                distinct_group_keys(groups@),
                value_pinned(groups@, vals@),
                stalled(groups@, builders_env(groups@, vals@)),
                forall|t: int|
                    0 <= t < missing@.len() ==> #[trigger] required_slot_of(
                        groups@,
                        (missing@[t].0)@,
                        missing@[t].1,
                    ),
                forall|t: int|
                    0 <= t < missing@.len() ==> has_key(groups@, (#[trigger] missing@[t].0)@)
                        && vals@[group_idx(groups@, (missing@[t].0)@)].prop_value(
                        missing@[t].1,
                    ) is None,
                forall|i2: int, p2: Property|
                    0 <= i2 < i && slot_required(groups@[i2].1, p2) && (
                    #[trigger] vals@[i2].prop_value(p2)) is None ==> listed(
                        missing@,
                        groups@[i2].0@,
                        p2,
                    ),
                forall|pi2: int|
                    0 <= pi2 < pi && slot_required(groups@[i as int].1, prop_order()[pi2])
                        && (#[trigger] vals@[i as int].prop_value(prop_order()[pi2]))
                        is None ==> listed(missing@, groups@[i as int].0@, prop_order()[pi2]),
                missing@.len() == 0 ==> forall|i2: int, p: Property|
                    0 <= i2 < i && slot_required(groups@[i2].1, p) ==> (
                    #[trigger] vals@[i2].prop_value(p)) is Some,
                missing@.len() == 0 ==> forall|pi2: int|
                    0 <= pi2 < pi && slot_required(groups@[i as int].1, prop_order()[pi2]) ==> (
                    #[trigger] vals@[i as int].prop_value(prop_order()[pi2])) is Some,
        {
            let p = props[pi];
            let required = is_geometry_exec(p) || groups[i].1.candidates(p).len() > 0;
            if required {
                match vals[i].get(p) {
                    None => {
                        let ghost ms_pre = missing@;
                        missing.push((groups[i].0.clone(), p));
                        proof {
                            lemma_group_idx_at(groups@, i as int);
                            assert forall|t: int|
                                0 <= t < missing@.len() implies has_key(
                                groups@,
                                (#[trigger] missing@[t].0)@,
                            ) && vals@[group_idx(groups@, (missing@[t].0)@)].prop_value(
                                missing@[t].1,
                            ) is None by {
                                if t < ms_pre.len() {
                                    assert(missing@[t] == ms_pre[t]);
                                } else {
                                    assert((missing@[t].0)@ == groups@[i as int].0@);
                                    assert(has_key(groups@, groups@[i as int].0@));
                                }
                            }
                            assert forall|i2: int, p2: Property|
                                0 <= i2 < i && slot_required(groups@[i2].1, p2) && (
                            #[trigger] vals@[i2].prop_value(p2)) is None implies listed(
                                missing@,
                                groups@[i2].0@,
                                p2,
                            ) by {
                                assert(listed(ms_pre, groups@[i2].0@, p2));
                                let t0 = choose|t0: int|
                                    0 <= t0 < ms_pre.len() && (#[trigger] ms_pre[t0].0)@
                                        == groups@[i2].0@ && ms_pre[t0].1 == p2;
                                assert(missing@[t0] == ms_pre[t0]);
                            }
                            assert forall|pi2: int|
                                0 <= pi2 < pi + 1 && slot_required(
                                    groups@[i as int].1,
                                    prop_order()[pi2],
                                ) && (#[trigger] vals@[i as int].prop_value(
                                    prop_order()[pi2],
                                )) is None implies listed(
                                missing@,
                                groups@[i as int].0@,
                                prop_order()[pi2],
                            ) by {
                                if pi2 == pi as int {
                                    assert(prop_order()[pi2] == p);
                                    assert((missing@[missing@.len() - 1].0)@ == groups@[
                                    i as int].0@);
                                } else if listed(
                                    ms_pre,
                                    groups@[i as int].0@,
                                    prop_order()[pi2],
                                ) {
                                    let t0 = choose|t0: int|
                                        0 <= t0 < ms_pre.len() && (#[trigger] ms_pre[t0].0)@
                                            == groups@[i as int].0@ && ms_pre[t0].1
                                            == prop_order()[pi2];
                                    assert(missing@[t0] == ms_pre[t0]);
                                }
                            }
                            assert forall|t: int|
                                0 <= t < missing@.len() implies #[trigger] required_slot_of(
                                groups@,
                                (missing@[t].0)@,
                                missing@[t].1,
                            ) by {
                                if t < ms_pre.len() {
                                    assert(missing@[t] == ms_pre[t]);
                                    assert(required_slot_of(
                                        groups@,
                                        (ms_pre[t].0)@,
                                        ms_pre[t].1,
                                    ));
                                } else {
                                    assert(value_pinned_at(groups@, vals@, i as int, p));
                                    assert forall|j2: int|
                                        0 <= j2 < groups@[i as int].1.prop_list(p)@.len()
                                            implies !((#[trigger] groups@[i as int].1.prop_list(
                                        p,
                                    )@[j2]) is Value) by {
                                        match groups@[i as int].1.prop_list(p)@[j2] {
                                            Expression::Value(w2) => {
                                                assert(vals@[i as int].prop_value(p) == Some(
                                                    w2,
                                                ));
                                                assert(false);
                                            },
                                            _ => {},
                                        }
                                    }
                                    assert((groups@[i as int].0)@ == (missing@[t].0)@
                                        && slot_required(groups@[i as int].1, missing@[t].1));
                                }
                            }
                        }
                    },
                    Some(_) => {},
                }
            }
        }
        proof {
            assert forall|p2: Property|
                slot_required(groups@[i as int].1, p2) && (#[trigger] vals@[
            i as int].prop_value(p2)) is None implies listed(
                missing@,
                groups@[i as int].0@,
                p2,
            ) by {
                lemma_prop_order_at(p2);
                let pidx: int = prop_index(p2);
                assert(slot_required(groups@[i as int].1, prop_order()[pidx]));
            }
            if missing@.len() == 0 {
                assert forall|p: Property|
                    slot_required(groups@[i as int].1, p) implies (
                #[trigger] vals@[i as int].prop_value(p)) is Some by {
                    lemma_prop_order_at(p);
                    let pidx: int = prop_index(p);
                    assert(slot_required(groups@[i as int].1, prop_order()[pidx]));
                }
            }
        }
    }
    if missing.len() > 0 {
        proof {
            assert(required_slot_of(groups@, (missing@[0].0)@, missing@[0].1));
            let i0 = choose|i0: int|
                0 <= i0 < groups@.len() && (#[trigger] groups@[i0].0)@ == (missing@[0].0)@
                    && slot_required(groups@[i0].1, missing@[0].1);
            assert(groups@.len() > 0);
            // the final builder state witnesses the stalled partial assignment
            let env = builders_env(groups@, vals@);
            assert forall|i2: int, p2: Property|
                0 <= i2 < groups@.len() && slot_required(
                    groups@[i2].1,
                    p2,
                ) implies (env.dom().contains((groups@[i2].0@, p2)) <==> !(
            #[trigger] listed(missing@, groups@[i2].0@, p2))) by {
                lemma_builders_env_at(groups@, vals@, i2, p2);
                lemma_group_idx_at(groups@, i2);
                if listed(missing@, groups@[i2].0@, p2) {
                    let t0 = choose|t0: int|
                        0 <= t0 < missing@.len() && (#[trigger] missing@[t0].0)@ == groups@[
                        i2].0@ && missing@[t0].1 == p2;
                    assert(vals@[group_idx(groups@, (missing@[t0].0)@)].prop_value(
                        missing@[t0].1,
                    ) is None);
                    assert(vals@[i2].prop_value(p2) is None);
                }
                if vals@[i2].prop_value(p2) is None {
                    assert(listed(missing@, groups@[i2].0@, p2));
                }
            }
            assert(stalled(groups@, env));
        }
        return Err(ResolutionError::CannotDetermineSpecificValue(missing));
    }

    // all required slots are concrete: build the elements
    let mut elems: Vec<(Name, Element)> = Vec::new();
    for i in 0..n
        invariant
            n == groups@.len(),
            vals@.len() == n as int,
            elems@.len() == i,
            distinct_group_keys(groups@),
            below_all_stalled(groups@, vals@),
            forall|i2: int, p: Property|
                0 <= i2 < n && slot_required(groups@[i2].1, p) ==> (
                #[trigger] vals@[i2].prop_value(p)) is Some,
            forall|i2: int| 0 <= i2 < i ==> (#[trigger] elems@[i2].0)@ == groups@[i2].0@,
            forall|i2: int, p: Property|
                0 <= i2 < i ==> #[trigger] elems@[i2].1.prop_value(p) == vals@[i2].prop_value(p),
    {
        let b = &vals[i];
        let e = Element {
            width: b.get(Property::Width).unwrap(),
            height: b.get(Property::Height).unwrap(),
            left: b.get(Property::Left).unwrap(),
            right: b.get(Property::Right).unwrap(),
            bottom: b.get(Property::Bottom).unwrap(),
            top: b.get(Property::Top).unwrap(),
            x: b.get(Property::X),
            y: b.get(Property::Y),
            center: b.get(Property::Center),
            color: b.get(Property::Color),
        };
        elems.push((groups[i].0.clone(), e));
        proof {
            assert forall|p: Property| #[trigger] elems@[i as int].1.prop_value(p) == vals@[
                i as int].prop_value(p) by {
                match p {
                    Property::Width => {},
                    Property::Height => {},
                    Property::Left => {},
                    Property::Right => {},
                    Property::Bottom => {},
                    Property::Top => {},
                    Property::X => {},
                    Property::Y => {},
                    Property::Center => {},
                    Property::Color => {},
                }
            }
        }
    }
    proof {
        assert(distinct_elem_keys(elems@));
    }

    proof {
        // the elements embody exactly the partial solution the scan reached
        assert forall|k: (Seq<char>, Property)| #[trigger] elems_env(elems@).dom().contains(
            k,
        ) == builders_env(groups@, vals@).dom().contains(k) && (elems_env(
            elems@,
        ).dom().contains(k) ==> elems_env(elems@)[k] == builders_env(
            groups@,
            vals@,
        )[k]) by {
            if has_elem(elems@, k.0) {
                let ei = elem_idx(elems@, k.0);
                assert(elems@[ei].0@ == groups@[ei].0@);
                assert(has_key(groups@, k.0));
                let gi = group_idx(groups@, k.0);
                assert(groups@[gi].0@ == k.0);
                if ei != gi {
                    if ei < gi {
                        assert(groups@[ei].0@ != groups@[gi].0@);
                    } else {
                        assert(groups@[gi].0@ != groups@[ei].0@);
                    }
                }
                assert(ei == gi);
                assert(elems@[ei].1.prop_value(k.1) == vals@[ei].prop_value(k.1));
            } else {
                if has_key(groups@, k.0) {
                    let gi = group_idx(groups@, k.0);
                    assert((#[trigger] elems@[gi].0)@ == groups@[gi].0@);
                    assert(has_elem(elems@, k.0));
                }
            }
        }
        assert(elems_env(elems@) =~= builders_env(groups@, vals@));
    }

    // check every candidate once more against the finished assignment; a
    // disagreement that survived the fixpoint is a conflict
    let ghost env = elems_env(elems@);
    proof {
        assert(env == builders_env(groups@, vals@));
        assert forall|env2: Env| #[trigger] stalled(groups@, env2) implies env_le(
            env,
            env2,
        ) by {
            assert(env_le(builders_env(groups@, vals@), env2));
        }
    }
    for i in 0..n
        invariant
            n == groups@.len(),
            vals@.len() == n as int,
            elems@.len() == n as int,
            props@.len() == 10,
            props@ == prop_order(),
            env == elems_env(elems@),
            distinct_group_keys(groups@),
            distinct_elem_keys(elems@),
            forall|i2: int| 0 <= i2 < n ==> (#[trigger] elems@[i2].0)@ == groups@[i2].0@,
            forall|i2: int, p: Property|
                0 <= i2 < n && slot_required(groups@[i2].1, p) ==> (
                #[trigger] elems@[i2].1.prop_value(p)) is Some,
            forall|env2: Env| #[trigger] stalled(groups@, env2) ==> env_le(env, env2),
            forall|i2: int, p: Property, j2: int|
                #![trigger groups@[i2].1.prop_list(p)@[j2]]
                0 <= i2 < i && 0 <= j2 < groups@[i2].1.prop_list(p)@.len() ==> cand_ok(
                    groups@[i2].0@,
                    p,
                    groups@[i2].1.prop_list(p)@[j2],
                    env,
                ),
    {
        for pi in 0..10usize
            invariant
                n == groups@.len(),
                vals@.len() == n as int,
                elems@.len() == n as int,
                props@.len() == 10,
                props@ == prop_order(),
                env == elems_env(elems@),
                distinct_group_keys(groups@),
                distinct_elem_keys(elems@),
                i < n,
                forall|i2: int| 0 <= i2 < n ==> (#[trigger] elems@[i2].0)@ == groups@[i2].0@,
                forall|i2: int, p: Property|
                    0 <= i2 < n && slot_required(groups@[i2].1, p) ==> (
                    #[trigger] elems@[i2].1.prop_value(p)) is Some,
                forall|i2: int, p: Property, j2: int|
                    #![trigger groups@[i2].1.prop_list(p)@[j2]]
                    0 <= i2 < i && 0 <= j2 < groups@[i2].1.prop_list(p)@.len() ==> cand_ok(
                        groups@[i2].0@,
                        p,
                        groups@[i2].1.prop_list(p)@[j2],
                        env,
                    ),
                forall|env2: Env| #[trigger] stalled(groups@, env2) ==> env_le(env, env2),
                forall|pi2: int, j2: int|
                    #![trigger groups@[i as int].1.prop_list(prop_order()[pi2])@[j2]]
                    0 <= pi2 < pi && 0 <= j2 < groups@[i as int].1.prop_list(
                        prop_order()[pi2],
                    )@.len() ==> cand_ok(
                        groups@[i as int].0@,
                        prop_order()[pi2],
                        groups@[i as int].1.prop_list(prop_order()[pi2])@[j2],
                        env,
                    ),
        {
            let p = props[pi];
            let m = groups[i].1.candidates(p).len();
            let mut j: usize = 0;
            while j < m
                invariant
                    n == groups@.len(),
                    elems@.len() == n as int,
                    env == elems_env(elems@),
                    distinct_group_keys(groups@),
                    distinct_elem_keys(elems@),
                    i < n,
                    m == groups@[i as int].1.prop_list(p)@.len(),
                    j <= m,
                    forall|i2: int| 0 <= i2 < n ==> (#[trigger] elems@[i2].0)@ == groups@[i2].0@,
                    forall|i2: int, p2: Property|
                        0 <= i2 < n && slot_required(groups@[i2].1, p2) ==> (
                        #[trigger] elems@[i2].1.prop_value(p2)) is Some,
                    forall|env2: Env| #[trigger] stalled(groups@, env2) ==> env_le(env, env2),
                    forall|j2: int|
                        0 <= j2 < j ==> cand_ok(
                            groups@[i as int].0@,
                            p,
                            #[trigger] groups@[i as int].1.prop_list(p)@[j2],
                            env,
                        ),
                decreases m - j,
            {
                let e = &groups[i].1.candidates(p)[j];
                let ghost ev = eval(groups@[i as int].1.prop_list(p)@[j as int], env);
                match eval_full(e, &elems) {
                    Some((nv, dv)) => {
                        proof {
                            assert(slot_required(groups@[i as int].1, p));
                            assert(elems@[i as int].1.prop_value(p) is Some);
                            lemma_elems_env_at(elems@, i as int, p);
                        }
                        match elems[i].1.value_of(p) {
                            Some(w0) => {
                                proof {
                                    lemma_mul_bound(w0 as int, dv as int, EVAL_BOUND as int);
                                }
                                if (w0 as i128) * dv != nv {
                                    let elem_name = groups[i].0.clone();
                                    proof {
                                        assert((w0 as int) * (dv as int) != nv as int);
                                        assert(nv as i64 as int == nv as int);
                                        assert(dv as i64 as int == dv as int);
                                        assert(elem_name == groups@[i as int].0);
                                        assert(env.dom().contains(
                                            (groups@[i as int].0@, p),
                                        ));
                                        assert(env[(groups@[i as int].0@, p)] == w0 as int);
                                        assert(groups@[i as int].1.prop_list(p)@[j as int]
                                            == *e);
                                        assert(eval(
                                            groups@[i as int].1.prop_list(p)@[j as int],
                                            env,
                                        ) == Some(Rat { num: nv as int, den: dv as int }));
                                        assert(eval_in_bounds(
                                            groups@[i as int].1.prop_list(p)@[j as int],
                                            env,
                                        ));
                                        assert(conflict_witnessed(
                                            groups@,
                                            elem_name,
                                            p,
                                            w0,
                                            nv as i64,
                                            dv as i64,
                                            env,
                                        ));
                                    }
                                    let err_val = ResolutionError::ConflictingConstraints {
                                        element: elem_name,
                                        property: p,
                                        existing: w0,
                                        conflicting_num: nv as i64,
                                        conflicting_den: dv as i64,
                                    };
                                    proof {
                                        assert(err_val matches ResolutionError::ConflictingConstraints {
                                            element,
                                            property,
                                            existing,
                                            conflicting_num,
                                            conflicting_den,
                                        } && element == elem_name && property == p && existing
                                            == w0 && conflicting_num == nv as i64
                                            && conflicting_den == dv as i64);
                                        assert(conflict_justified(groups@, err_val));
                                    }
                                    return Err(err_val);
                                }
                                proof {
                                    assert(rat_eq(
                                        rat_of_int(w0 as int),
                                        Rat { num: nv as int, den: dv as int },
                                    ));
                                    assert(env[(groups@[i as int].0@, p)] == w0 as int);
                                    assert(cand_ok(
                                        groups@[i as int].0@,
                                        p,
                                        groups@[i as int].1.prop_list(p)@[j as int],
                                        env,
                                    ));
                                }
                            },
                            None => {
                                proof {
                                    assert(false);
                                }
                                return unreached();
                            },
                        }
                    },
                    None => {
                        proof {
                            assert(cand_ok(
                                groups@[i as int].0@,
                                p,
                                groups@[i as int].1.prop_list(p)@[j as int],
                                env,
                            ));
                        }
                    },
                }
                j = j + 1;
            }
        }
        proof {
            assert forall|p: Property, j2: int|
                0 <= j2 < groups@[i as int].1.prop_list(p)@.len() implies cand_ok(
                groups@[i as int].0@,
                p,
                #[trigger] groups@[i as int].1.prop_list(p)@[j2],
                env,
            ) by {
                lemma_prop_order_at(p);
                let pidx: int = prop_index(p);
                assert(groups@[i as int].1.prop_list(prop_order()[pidx])@[j2] == groups@[i as int
                ].1.prop_list(p)@[j2]);
            }
        }
    }
    Ok(elems)
}

/// `sys` is the system the pipeline builds from `cs`: one entry per element
/// name mentioned anywhere in `cs` (names distinct), each slot holding the
/// isolated right-hand sides collected for it in order, followed by that
/// slot's inherent triad identities.
pub open spec fn pipeline_system(cs: Seq<Constraint>, sys: Seq<(Name, ElementConstraints)>) -> bool {
    &&& forall|i: int, j: int| 0 <= i < j < sys.len() ==> sys[i].0@ != sys[j].0@
    &&& forall|i: int|
        0 <= i < sys.len() ==> constraints_names(cs).contains((#[trigger] sys[i].0)@)
    &&& forall|n: Seq<char>| constraints_names(cs).contains(n) ==> #[trigger] has_key(sys, n)
    &&& forall|i: int, p: Property|
        0 <= i < sys.len() ==> (#[trigger] sys[i].1.prop_list(p))@ == rhs_for(
            extracted(cs),
            sys[i].0@,
            p,
        ) + inherent(sys[i].0, p)
}

/// The two triad identities hold of every resolved element.
pub open spec fn triads_hold(elems: Seq<(Name, Element)>) -> bool {
    forall|i: int|
        0 <= i < elems.len() ==> ((#[trigger] elems[i].1).right as int == elems[i].1.left as int
            + elems[i].1.width as int && elems[i].1.top as int == elems[i].1.bottom as int
            + elems[i].1.height as int)
}

/// An isolated constraint is honoured by `env`: whatever integer its
/// right-hand side provably stands for, the property on its left holds
/// exactly that integer.
pub open spec fn iso_constraint_ok(c: Constraint, env: Env) -> bool {
    match lhs(c) {
        Expression::Property(m, q) => cand_ok(m@, q, rhs(c), env),
        _ => true,
    }
}

/// Resolve a constraint set to concrete geometry.
///
/// On success the result holds one entry per element name mentioned anywhere
/// in the constraints (`pipeline_system` names the augmented system this
/// pins down): the width/left/right and height/bottom/top triads are concrete
/// and tied together (`triads_hold`), `x`/`y`/`center`/`color` are present
/// exactly when constrained, and every candidate of the system — every
/// isolated form of every input constraint and every inherent identity —
/// that has a value under the resulting assignment agrees with it exactly
/// (`cand_ok`).  A candidate that disagrees with a committed value, by any
/// amount, aborts with `ConflictingConstraints` carrying the committed
/// integer and the candidate's exact rational value; slots that never reach
/// a value are reported together in `CannotDetermineSpecificValue`, each a
/// required slot of a mentioned element; the error also carries a stalled
/// partial assignment characterising exactly which slots could not be
/// determined.  A colour is resolved only from a directly-supplied value,
/// never derived.
pub fn resolve(constraints: Vec<Constraint>) -> (res: Result<
    Vec<(Name, Element)>,
    ResolutionError,
>)
    ensures
        match res {
            Ok(elems) => {
                &&& distinct_elem_keys(elems@)
                &&& forall|i: int|
                    0 <= i < elems@.len() ==> constraints_names(constraints@).contains(
                        (#[trigger] elems@[i].0)@,
                    )
                &&& forall|n: Seq<char>|
                    constraints_names(constraints@).contains(n) ==> #[trigger] has_elem(
                        elems@,
                        n,
                    )
                &&& forall|t: int|
                    0 <= t < extracted(constraints@).len() ==> iso_constraint_ok(
                        #[trigger] extracted(constraints@)[t],
                        elems_env(elems@),
                    )
                &&& triads_hold(elems@)
                &&& exists|sys: Seq<(Name, ElementConstraints)>|
                    {
                        &&& #[trigger] pipeline_system(constraints@, sys)
                        &&& sys.len() == elems@.len()
                        &&& forall|i: int| 0 <= i < sys.len() ==> (#[trigger] sys[i].0)@
                            == elems@[i].0@
                        &&& forall|i: int, p: Property|
                            0 <= i < sys.len() ==> ((#[trigger] elems@[i].1.prop_value(p))
                                is Some <==> slot_required(sys[i].1, p))
                        &&& forall|i: int, p: Property, j: int|
                            #![trigger sys[i].1.prop_list(p)@[j]]
                            0 <= i < sys.len() && 0 <= j < sys[i].1.prop_list(p)@.len()
                                ==> cand_ok(
                                sys[i].0@,
                                p,
                                sys[i].1.prop_list(p)@[j],
                                elems_env(elems@),
                            )
                        &&& forall|env2: Env|
                            #[trigger] stalled(sys, env2) ==> env_le(elems_env(elems@), env2)
                    }
            },
            Err(ResolutionError::CannotDetermineSpecificValue(v)) => {
                &&& v@.len() > 0
                &&& forall|t: int|
                    0 <= t < v@.len() ==> constraints_names(constraints@).contains(
                        (#[trigger] v@[t].0)@,
                    )
                &&& exists|sys: Seq<(Name, ElementConstraints)>|
                    {
                        &&& #[trigger] pipeline_system(constraints@, sys)
                        &&& forall|t: int|
                            0 <= t < v@.len() ==> #[trigger] required_slot_of(
                                sys,
                                (v@[t].0)@,
                                v@[t].1,
                            )
                        &&& exists|env: Env|
                            {
                                &&& #[trigger] stalled(sys, env)
                                &&& forall|i: int, p: Property|
                                    #![trigger listed(v@, sys[i].0@, p)]
                                    0 <= i < sys.len() && slot_required(sys[i].1, p) ==> (
                                    env.dom().contains((sys[i].0@, p)) <==> !listed(
                                        v@,
                                        sys[i].0@,
                                        p,
                                    ))
                            }
                    }
            },
            Err(ResolutionError::ConflictingConstraints {
                element,
                property,
                existing,
                conflicting_num,
                conflicting_den,
            }) => {
                &&& conflicting_den != 0
                &&& !rat_eq(
                    rat_of_int(existing as int),
                    Rat { num: conflicting_num as int, den: conflicting_den as int },
                )
                &&& constraints_names(constraints@).contains(element@)
            },
        },
        res matches Err(e) ==> exists|sys: Seq<(Name, ElementConstraints)>|
            #[trigger] pipeline_system(constraints@, sys) && conflict_justified(sys, e),
        constraints_names(constraints@) =~= Set::<Seq<char>>::empty() ==> res is Ok,
{
    let ghost cs0 = constraints@;
    proof {
        lemma_extracted_shape(cs0);
    }
    let isolated = extract_prop_constraints(constraints);
    let groups = group_by_element(isolated);
    let ghost groups_v = groups@;
    let aug = fill_with_inherent_constraints(groups);
    let ghost aug_v = aug@;
    proof {
        assert forall|i: int, j: int| 0 <= i < j < aug_v.len() implies aug_v[i].0@ != aug_v[
        j].0@ by {
            assert(aug_v[i].0 == groups_v[i].0);
            assert(aug_v[j].0 == groups_v[j].0);
        }
        if constraints_names(cs0) =~= Set::<Seq<char>>::empty() {
            if extracted(cs0).len() > 0 {
                assert(lhs(extracted(cs0)[0]) is Property);
                assert(false);
            }
            if groups_v.len() > 0 {
                assert(lhs_names(extracted(cs0)).contains(groups_v[0].0@));
                assert(false);
            }
            assert(aug_v.len() == 0);
        }
        // the augmented system is exactly the pipeline's system for cs0
        assert forall|i: int| 0 <= i < aug_v.len() implies constraints_names(cs0).contains(
            (#[trigger] aug_v[i].0)@,
        ) by {
            assert(aug_v[i].0 == groups_v[i].0);
            assert(lhs_names(extracted(cs0)).contains(groups_v[i].0@));
            crate::group::lemma_lhs_names_member(extracted(cs0), groups_v[i].0@);
        }
        assert forall|nk: Seq<char>| constraints_names(cs0).contains(nk) implies #[trigger]
        has_key(aug_v, nk) by {
            crate::expr::lemma_constraints_names_member(cs0, nk);
            let k = choose|k: int|
                0 <= k < cs0.len() && constraint_names(#[trigger] cs0[k]).contains(nk);
            crate::isolate::lemma_constraint_name_has_path(cs0[k], nk);
            let j = choose|j: int|
                0 <= j < constraint_paths(cs0[k]).len() && #[trigger] crate::isolate::iso_lhs_named(
                    cs0[k],
                    j,
                    nk,
                );
            lemma_extracted_contains(cs0, k, j);
            let t = choose|t: int|
                0 <= t < extracted(cs0).len() && extracted(cs0)[t] == iso_all(cs0[k])[j];
            assert(iso_all(cs0[k])[j] == constraint_iso(
                cs0[k],
                constraint_paths(cs0[k])[j],
            )->Some_0);
            match lhs(extracted(cs0)[t]) {
                Expression::Property(m, q) => {
                    assert(is_for(extracted(cs0)[t], nk, q));
                    lemma_rhs_for_contains(extracted(cs0), t, nk, q);
                    assert(has_key(groups_v, nk));
                    let gi = choose|gi: int|
                        0 <= gi < groups_v.len() && (#[trigger] groups_v[gi].0)@ == nk;
                    assert(aug_v[gi].0 == groups_v[gi].0);
                },
                _ => {},
            }
        }
        assert forall|i: int, p: Property| 0 <= i < aug_v.len() implies (
        #[trigger] aug_v[i].1.prop_list(p))@ == rhs_for(extracted(cs0), aug_v[i].0@, p)
            + inherent(aug_v[i].0, p) by {
            assert(aug_v[i].0 == groups_v[i].0);
            assert(groups_v[i].1.prop_list(p)@ == rhs_for(extracted(cs0), groups_v[i].0@, p));
            assert(aug_v[i].1.prop_list(p)@ == groups_v[i].1.prop_list(p)@ + inherent(
                groups_v[i].0,
                p,
            ));
        }
        assert(pipeline_system(cs0, aug_v));
    }
    let res = solve(aug);
    match res {
        Ok(elems) => {
            proof {
                // element names are exactly the names the constraints mention
                assert forall|i: int| 0 <= i < elems@.len() implies constraints_names(
                    cs0,
                ).contains((#[trigger] elems@[i].0)@) by {
                    assert(elems@[i].0@ == aug_v[i].0@);
                    assert(aug_v[i].0 == groups_v[i].0);
                    assert(lhs_names(extracted(cs0)).contains(groups_v[i].0@));
                    crate::group::lemma_lhs_names_member(extracted(cs0), groups_v[i].0@);
                }
                assert forall|n: Seq<char>| constraints_names(cs0).contains(
                    n,
                ) implies #[trigger] has_elem(elems@, n) by {
                    crate::expr::lemma_constraints_names_member(cs0, n);
                    let k = choose|k: int|
                        0 <= k < cs0.len() && constraint_names(#[trigger] cs0[k]).contains(n);
                    crate::isolate::lemma_constraint_name_has_path(cs0[k], n);
                    let j = choose|j: int|
                        0 <= j < constraint_paths(cs0[k]).len()
                            && #[trigger] crate::isolate::iso_lhs_named(cs0[k], j, n);
                    lemma_extracted_contains(cs0, k, j);
                    let t = choose|t: int|
                        0 <= t < extracted(cs0).len() && extracted(cs0)[t] == iso_all(
                            cs0[k],
                        )[j];
                    assert(iso_all(cs0[k])[j] == crate::isolate::constraint_iso(
                        cs0[k],
                        constraint_paths(cs0[k])[j],
                    )->Some_0);
                    match lhs(extracted(cs0)[t]) {
                        Expression::Property(m, q) => {
                            assert(is_for(extracted(cs0)[t], n, q));
                            lemma_rhs_for_contains(extracted(cs0), t, n, q);
                            assert(has_key(groups_v, n));
                            let gi = choose|gi: int|
                                0 <= gi < groups_v.len() && (#[trigger] groups_v[gi].0)@ == n;
                            assert(aug_v.len() == groups_v.len());
                            assert(elems@.len() == aug_v.len());
                            assert(elems@[gi].0@ == aug_v[gi].0@);
                            assert(aug_v[gi].0 == groups_v[gi].0);
                            assert(has_elem(elems@, n));
                        },
                        _ => {},
                    }
                }
                // the assignment honours every isolated constraint
                assert forall|t: int| 0 <= t < extracted(cs0).len() implies iso_constraint_ok(
                    #[trigger] extracted(cs0)[t],
                    elems_env(elems@),
                ) by {
                    let c = extracted(cs0)[t];
                    match lhs(c) {
                        Expression::Property(m, q) => {
                            assert(is_for(c, m@, q));
                            lemma_rhs_for_contains(extracted(cs0), t, m@, q);
                            assert(has_key(groups_v, m@));
                            assert(aug_v.len() == groups_v.len());
                            let gi = choose|gi: int|
                                0 <= gi < groups_v.len() && (#[trigger] groups_v[gi].0)@
                                    == m@;
                            let lst = rhs_for(extracted(cs0), m@, q);
                            let jj = choose|jj: int|
                                0 <= jj < lst.len() && lst[jj] == rhs(c);
                            assert(groups_v[gi].1.prop_list(q)@ == lst);
                            assert(aug_v[gi].1.prop_list(q)@ == lst + inherent(
                                groups_v[gi].0,
                                q,
                            ));
                            assert(aug_v[gi].1.prop_list(q)@[jj] == rhs(c));
                            assert(cand_ok(
                                aug_v[gi].0@,
                                q,
                                aug_v[gi].1.prop_list(q)@[jj],
                                elems_env(elems@),
                            ));
                            assert(aug_v[gi].0 == groups_v[gi].0);
                        },
                        _ => {},
                    }
                }
                // the inherent identities bind each triad's members together
                assert forall|i: int| 0 <= i < elems@.len() implies ((
                #[trigger] elems@[i].1).right as int == elems@[i].1.left as int + elems@[
                i].1.width as int && elems@[i].1.top as int == elems@[i].1.bottom as int
                    + elems@[i].1.height as int) by {
                    let env = elems_env(elems@);
                    let name = aug_v[i].0;
                    lemma_elems_env_at(elems@, i, Property::Left);
                    lemma_elems_env_at(elems@, i, Property::Width);
                    lemma_elems_env_at(elems@, i, Property::Right);
                    lemma_elems_env_at(elems@, i, Property::Bottom);
                    lemma_elems_env_at(elems@, i, Property::Height);
                    lemma_elems_env_at(elems@, i, Property::Top);
                    assert(elems@[i].0@ == aug_v[i].0@);
                    let l = elems@[i].1.left as int;
                    let w = elems@[i].1.width as int;
                    let b = elems@[i].1.bottom as int;
                    let h = elems@[i].1.height as int;
                    assert(eval(Expression::Property(name, Property::Left), env) == Some(
                        rat_of_int(l),
                    ));
                    assert(eval(Expression::Property(name, Property::Width), env) == Some(
                        rat_of_int(w),
                    ));
                    assert(eval(Expression::Property(name, Property::Bottom), env) == Some(
                        rat_of_int(b),
                    ));
                    assert(eval(Expression::Property(name, Property::Height), env) == Some(
                        rat_of_int(h),
                    ));
                    let lst_r = aug_v[i].1.prop_list(Property::Right)@;
                    let er = inherent(name, Property::Right)[0];
                    let jr = lst_r.len() - 1;
                    assert(lst_r == rhs_for(extracted(cs0), aug_v[i].0@, Property::Right)
                        + inherent(name, Property::Right));
                    assert(lst_r[jr] == er);
                    assert(eval(er, env) == Some(rat_add(rat_of_int(l), rat_of_int(w))));
                    assert(rat_add(rat_of_int(l), rat_of_int(w)) == (Rat { num: l + w, den: 1 }))
                        by (nonlinear_arith);
                    assert(eval_in_bounds(Expression::Property(name, Property::Left), env));
                    assert(eval_in_bounds(Expression::Property(name, Property::Width), env));
                    assert(within_bound(Rat { num: l + w, den: 1 }));
                    assert(eval_in_bounds(er, env));
                    assert(cand_ok(aug_v[i].0@, Property::Right, lst_r[jr], env));
                    assert(env[(aug_v[i].0@, Property::Right)] == elems@[i].1.right as int);
                    assert(rat_eq(
                        rat_of_int(elems@[i].1.right as int),
                        rat_add(rat_of_int(l), rat_of_int(w)),
                    ));
                    assert(elems@[i].1.right as int == l + w) by (nonlinear_arith)
                        requires
                            rat_eq(
                                rat_of_int(elems@[i].1.right as int),
                                Rat { num: l + w, den: 1 },
                            ),
                    ;
                    let lst_t = aug_v[i].1.prop_list(Property::Top)@;
                    let et = inherent(name, Property::Top)[0];
                    let jt = lst_t.len() - 1;
                    assert(lst_t == rhs_for(extracted(cs0), aug_v[i].0@, Property::Top)
                        + inherent(name, Property::Top));
                    assert(lst_t[jt] == et);
                    assert(eval(et, env) == Some(rat_add(rat_of_int(b), rat_of_int(h))));
                    assert(rat_add(rat_of_int(b), rat_of_int(h)) == (Rat { num: b + h, den: 1 }))
                        by (nonlinear_arith);
                    assert(eval_in_bounds(Expression::Property(name, Property::Bottom), env));
                    assert(eval_in_bounds(Expression::Property(name, Property::Height), env));
                    assert(within_bound(Rat { num: b + h, den: 1 }));
                    assert(eval_in_bounds(et, env));
                    assert(cand_ok(aug_v[i].0@, Property::Top, lst_t[jt], env));
                    assert(env[(aug_v[i].0@, Property::Top)] == elems@[i].1.top as int);
                    assert(rat_eq(
                        rat_of_int(elems@[i].1.top as int),
                        rat_add(rat_of_int(b), rat_of_int(h)),
                    ));
                    assert(elems@[i].1.top as int == b + h) by (nonlinear_arith)
                        requires
                            rat_eq(
                                rat_of_int(elems@[i].1.top as int),
                                Rat { num: b + h, den: 1 },
                            ),
                    ;
                }
            }
            Ok(elems)
        },
        Err(err) => {
            proof {
                assert forall|nk: Seq<char>| has_key(aug_v, nk) implies constraints_names(
                    cs0,
                ).contains(nk) by {
                    let gi = choose|gi: int|
                        0 <= gi < aug_v.len() && (#[trigger] aug_v[gi].0)@ == nk;
                    assert(aug_v[gi].0 == groups_v[gi].0);
                    assert(lhs_names(extracted(cs0)).contains(groups_v[gi].0@));
                    crate::group::lemma_lhs_names_member(extracted(cs0), nk);
                }
                assert(conflict_justified(aug_v, err));
                match &err {
                    ResolutionError::CannotDetermineSpecificValue(v) => {
                        assert forall|t: int| 0 <= t < v@.len() implies constraints_names(
                            cs0,
                        ).contains((#[trigger] v@[t].0)@) by {
                            assert(required_slot_of(aug_v, (v@[t].0)@, v@[t].1));
                            let i2 = choose|i2: int|
                                0 <= i2 < aug_v.len() && (#[trigger] aug_v[i2].0)@ == (
                                v@[t].0)@ && slot_required(aug_v[i2].1, v@[t].1);
                            assert(has_key(aug_v, (v@[t].0)@));
                        }
                    },
                    ResolutionError::ConflictingConstraints { .. } => {},
                }
            }
            Err(err)
        },
    }
}

} // verus!

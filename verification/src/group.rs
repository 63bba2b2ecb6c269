//! The grouper.
//!
//! Isolated constraints all have a bare `Property` on the left; the grouper
//! buckets their right-hand sides per element name and then per property.
//! The map is an association list with distinct names in order of first
//! appearance, so iteration over it is deterministic.

use vstd::prelude::*;
use crate::expr::{Constraint, Expression, Name, Property, lhs, rhs};

verus! {

/// The not-yet-solved candidate expressions of one element: for each
/// property, every expression asserted (directly or via isolation) to equal
/// it, in insertion order.
pub struct ElementConstraints {
    pub width: Vec<Expression>,
    pub height: Vec<Expression>,
    pub left: Vec<Expression>,
    pub right: Vec<Expression>,
    pub bottom: Vec<Expression>,
    pub top: Vec<Expression>,
    pub x: Vec<Expression>,
    pub y: Vec<Expression>,
    pub center: Vec<Expression>,
    pub color: Vec<Expression>,
}

impl ElementConstraints {
    /// The candidate list for `prop`.
    pub open spec fn prop_list(self, prop: Property) -> Vec<Expression> {
        match prop {
            Property::Width => self.width,
            Property::Height => self.height,
            Property::Left => self.left,
            Property::Right => self.right,
            Property::Bottom => self.bottom,
            Property::Top => self.top,
            Property::X => self.x,
            Property::Y => self.y,
            Property::Center => self.center,
            Property::Color => self.color,
        }
    }

    /// The candidate list for `prop`.
    pub fn candidates(&self, prop: Property) -> (r: &Vec<Expression>)
        ensures
            *r == self.prop_list(prop),
    {
        match prop {
            Property::Width => &self.width,
            Property::Height => &self.height,
            Property::Left => &self.left,
            Property::Right => &self.right,
            Property::Bottom => &self.bottom,
            Property::Top => &self.top,
            Property::X => &self.x,
            Property::Y => &self.y,
            Property::Center => &self.center,
            Property::Color => &self.color,
        }
    }

    /// Borrow the candidate list for `prop` mutably.
    pub fn get_property(&mut self, prop: Property) -> (r: &mut Vec<Expression>)
        ensures
            *r == old(self).prop_list(prop),
            *final(r) == final(self).prop_list(prop),
            forall|q: Property|
                q != prop ==> #[trigger] final(self).prop_list(q) == old(self).prop_list(q),
    {
        match prop {
            Property::Width => &mut self.width,
            Property::Height => &mut self.height,
            Property::Left => &mut self.left,
            Property::Right => &mut self.right,
            Property::Bottom => &mut self.bottom,
            Property::Top => &mut self.top,
            Property::X => &mut self.x,
            Property::Y => &mut self.y,
            Property::Center => &mut self.center,
            Property::Color => &mut self.color,
        }
    }
}

impl Default for ElementConstraints {
    /// Ten empty candidate lists.
    fn default() -> (r: Self)
        ensures
            forall|p: Property| (#[trigger] r.prop_list(p))@ == Seq::<Expression>::empty(),
    {
        ElementConstraints {
            width: Vec::new(),
            height: Vec::new(),
            left: Vec::new(),
            right: Vec::new(),
            bottom: Vec::new(),
            top: Vec::new(),
            x: Vec::new(),
            y: Vec::new(),
            center: Vec::new(),
            color: Vec::new(),
        }
    }
}

/// `c` is an isolated constraint for the slot `(n, p)`.
pub open spec fn is_for(c: Constraint, n: Seq<char>, p: Property) -> bool {
    lhs(c) matches Expression::Property(m, q) && m@ == n && q == p
}

/// The right-hand sides of the constraints of `cs` that are for `(n, p)`,
/// in order.
pub open spec fn rhs_for(cs: Seq<Constraint>, n: Seq<char>, p: Property) -> Seq<Expression>
    decreases cs.len(),
{
    if cs.len() == 0 {
        Seq::empty()
    } else if is_for(cs.last(), n, p) {
        rhs_for(cs.drop_last(), n, p).push(rhs(cs.last()))
    } else {
        rhs_for(cs.drop_last(), n, p)
    }
}

/// The element names on the left sides of `cs`.
pub open spec fn lhs_names(cs: Seq<Constraint>) -> Set<Seq<char>>
    decreases cs.len(),
{
    if cs.len() == 0 {
        Set::empty()
    } else {
        let rest = lhs_names(cs.drop_last());
        match lhs(cs.last()) {
            Expression::Property(m, _) => rest.insert(m@),
            _ => rest,
        }
    }
}

/// A name never on a left side collects nothing.
pub proof fn lemma_rhs_for_absent(cs: Seq<Constraint>, n: Seq<char>, p: Property)
    requires
        !lhs_names(cs).contains(n),
    ensures
        rhs_for(cs, n, p) == Seq::<Expression>::empty(),
    decreases cs.len(),
{
    if cs.len() > 0 {
        lemma_rhs_for_absent(cs.drop_last(), n, p);
    }
}

/// The right-hand side of every isolated constraint is collected under its
/// own slot.
pub proof fn lemma_rhs_for_contains(cs: Seq<Constraint>, t: int, n: Seq<char>, p: Property)
    requires
        0 <= t < cs.len(),
        is_for(cs[t], n, p),
    ensures
        rhs_for(cs, n, p).contains(rhs(cs[t])),
        lhs_names(cs).contains(n),
    decreases cs.len(),
{
    if t == cs.len() - 1 {
        assert(cs.last() == cs[t]);
        assert(rhs_for(cs, n, p).last() == rhs(cs[t]));
    } else {
        lemma_rhs_for_contains(cs.drop_last(), t, n, p);
        assert(cs.drop_last()[t] == cs[t]);
        let prev = rhs_for(cs.drop_last(), n, p);
        let w = choose|w: int| 0 <= w < prev.len() && prev[w] == rhs(cs[t]);
        if is_for(cs.last(), n, p) {
            assert(rhs_for(cs, n, p)[w] == rhs(cs[t]));
        }
    }
}

/// Every name on a left side belongs to some constraint of the sequence.
pub proof fn lemma_lhs_names_member(cs: Seq<Constraint>, n: Seq<char>)
    requires
        lhs_names(cs).contains(n),
    ensures
        exists|t: int|
            0 <= t < cs.len() && (lhs(#[trigger] cs[t]) matches Expression::Property(m, _)
                && m@ == n),
    decreases cs.len(),
{
    if cs.len() > 0 {
        let last_is = match lhs(cs.last()) {
            Expression::Property(m, _) => m@ == n,
            _ => false,
        };
        if last_is {
            assert(cs[cs.len() - 1] == cs.last());
        } else {
            lemma_lhs_names_member(cs.drop_last(), n);
            let t = choose|t: int|
                0 <= t < cs.drop_last().len() && (lhs(#[trigger] cs.drop_last()[t]) matches
                    Expression::Property(m, _) && m@ == n);
            assert(cs[t] == cs.drop_last()[t]);
        }
    }
}

/// The left side of `c` is a property of the element called `n`.
pub open spec fn lhs_named(c: Constraint, n: Seq<char>) -> bool {
    lhs(c) matches Expression::Property(m, _) && m@ == n
}

/// The position of the first constraint whose left side names `n`; one past
/// the end when none does.
pub open spec fn first_for(cs: Seq<Constraint>, n: Seq<char>) -> int
    decreases cs.len(),
{
    if cs.len() == 0 {
        0
    } else if lhs_named(cs[0], n) {
        0
    } else {
        1 + first_for(cs.drop_first(), n)
    }
}

pub proof fn lemma_first_for_bounds(cs: Seq<Constraint>, n: Seq<char>)
    ensures
        0 <= first_for(cs, n) <= cs.len(),
    decreases cs.len(),
{
    if cs.len() > 0 && !lhs_named(cs[0], n) {
        lemma_first_for_bounds(cs.drop_first(), n);
    }
}

/// `first_for` is no later than any constraint naming `n`.
pub proof fn lemma_first_for_le(cs: Seq<Constraint>, n: Seq<char>, t: int)
    requires
        0 <= t < cs.len(),
        lhs_named(cs[t], n),
    ensures
        first_for(cs, n) <= t,
    decreases cs.len(),
{
    if !lhs_named(cs[0], n) {
        assert(cs.drop_first()[t - 1] == cs[t]);
        lemma_first_for_le(cs.drop_first(), n, t - 1);
    }
}

/// Within range, `first_for` points at a constraint naming `n`.
pub proof fn lemma_first_for_named(cs: Seq<Constraint>, n: Seq<char>)
    requires
        first_for(cs, n) < cs.len(),
    ensures
        0 <= first_for(cs, n),
        lhs_named(cs[first_for(cs, n)], n),
    decreases cs.len(),
{
    if cs.len() > 0 && !lhs_named(cs[0], n) {
        lemma_first_for_bounds(cs.drop_first(), n);
        lemma_first_for_named(cs.drop_first(), n);
        assert(cs.drop_first()[first_for(cs.drop_first(), n)] == cs[first_for(cs, n)]);
    }
}

/// Some entry of `groups` is keyed by `n`.
pub open spec fn has_key(groups: Seq<(Name, ElementConstraints)>, n: Seq<char>) -> bool {
    exists|i: int| 0 <= i < groups.len() && (#[trigger] groups[i].0)@ == n
}

/// Look up an element by name.
pub(crate) fn find_element(groups: &Vec<(Name, ElementConstraints)>, name: &Name) -> (o: Option<usize>)
    ensures
        match o {
            Some(i) => 0 <= i < groups@.len() && groups@[i as int].0@ == name@,
            None => forall|i: int| 0 <= i < groups@.len() ==> groups@[i].0@ != name@,
        },
{
    let n = groups.len();
    for i in 0..n
        invariant
            n == groups@.len(),
            forall|t: int| 0 <= t < i ==> groups@[t].0@ != name@,
    {
        if groups[i].0 == *name {
            return Some(i);
        }
    }
    None
}

/// Group the right-hand sides of isolated constraints by element name and
/// property.  Every constraint's left side must be a bare property: the
/// extractor guarantees this, and anything else would be a defect inside the
/// engine.  Elements appear in order of first mention, each name once.
pub fn group_by_element(constraints: Vec<Constraint>) -> (r: Vec<(Name, ElementConstraints)>)
    requires
        forall|t: int| 0 <= t < constraints@.len() ==> lhs(#[trigger] constraints@[t]) is Property,
    ensures
        forall|i: int, j: int| 0 <= i < j < r@.len() ==> r@[i].0@ != r@[j].0@,
        forall|i: int, p: Property|
            0 <= i < r@.len() ==> (#[trigger] r@[i].1.prop_list(p))@ == rhs_for(
                constraints@,
                r@[i].0@,
                p,
            ),
        forall|i: int| 0 <= i < r@.len() ==> lhs_names(constraints@).contains(#[trigger] r@[i].0@),
        forall|n: Seq<char>| lhs_names(constraints@).contains(n) ==> #[trigger] has_key(r@, n),
        forall|i: int, j: int|
            0 <= i < j < r@.len() ==> first_for(constraints@, r@[i].0@) < first_for(
                constraints@,
                r@[j].0@,
            ),
{
    let mut r: Vec<(Name, ElementConstraints)> = Vec::new();
    let n = constraints.len();
    proof {
        assert(constraints@.take(0) =~= Seq::<Constraint>::empty());
    }
    for k in 0..n
        invariant
            n == constraints@.len(),
            forall|t: int|
                0 <= t < constraints@.len() ==> lhs(#[trigger] constraints@[t]) is Property,
            forall|i: int, j: int| 0 <= i < j < r@.len() ==> r@[i].0@ != r@[j].0@,
            forall|i: int, p: Property|
                0 <= i < r@.len() ==> (#[trigger] r@[i].1.prop_list(p))@ == rhs_for(
                    constraints@.take(k as int),
                    r@[i].0@,
                    p,
                ),
            forall|i: int|
                0 <= i < r@.len() ==> lhs_names(constraints@.take(k as int)).contains(
                    #[trigger] r@[i].0@,
                ),
            forall|nm: Seq<char>|
                lhs_names(constraints@.take(k as int)).contains(nm) ==> #[trigger] has_key(
                    r@,
                    nm,
                ),
            forall|i: int|
                0 <= i < r@.len() ==> 0 <= first_for(constraints@, #[trigger] r@[i].0@) < k,
            forall|i: int, j: int|
                0 <= i < j < r@.len() ==> first_for(constraints@, r@[i].0@) < first_for(
                    constraints@,
                    r@[j].0@,
                ),
    {
        let c = &constraints[k];
        let ghost cs_prev = constraints@.take(k as int);
        let ghost cs_now = constraints@.take(k as int + 1);
        let ghost r_pre = r@;
        proof {
            assert(cs_now.drop_last() =~= cs_prev);
            assert(cs_now.last() == constraints@[k as int]);
        }
        match c {
            Constraint::Equality { left, right } => {
                match left {
                    Expression::Property(name, prop) => {
                        let idx: usize = match find_element(&r, name) {
                            Some(i) => i,
                            None => {
                                proof {
                                    if lhs_names(cs_prev).contains(name@) {
                                        assert(lhs_names(constraints@.take(k as int)).contains(
                                            name@,
                                        ));
                                        assert(has_key(r@, name@));
                                        let i0 = choose|i0: int|
                                            0 <= i0 < r@.len() && (#[trigger] r@[i0].0)@
                                                == name@;
                                        assert(r@[i0].0@ != name@);
                                        assert(false);
                                    }
                                    lemma_rhs_for_absent(cs_prev, name@, *prop);
                                    // this is the name's first mention
                                    assert(lhs_named(constraints@[k as int], name@));
                                    lemma_first_for_le(constraints@, name@, k as int);
                                    if first_for(constraints@, name@) < k as int {
                                        lemma_first_for_named(constraints@, name@);
                                        let ff = first_for(constraints@, name@);
                                        assert(cs_prev[ff] == constraints@[ff]);
                                        match lhs(cs_prev[ff]) {
                                            Expression::Property(m, q) => {
                                                lemma_rhs_for_contains(cs_prev, ff, name@, q);
                                            },
                                            _ => {},
                                        }
                                        assert(lhs_names(cs_prev).contains(name@));
                                        assert(false);
                                    }
                                    assert(first_for(constraints@, name@) == k as int);
                                }
                                r.push((name.clone(), ElementConstraints::default()));
                                r.len() - 1
                            },
                        };
                        proof {
                            assert(r@[idx as int].0@ == name@);
                            assert forall|i: int| 0 <= i < r_pre.len() implies r@[i].0
                                == r_pre[i].0 by {}
                            assert forall|p: Property|
                                (#[trigger] r@[idx as int].1.prop_list(p))@ == rhs_for(
                                    cs_prev,
                                    name@,
                                    p,
                                ) by {
                                if idx < r_pre.len() {
                                } else {
                                    lemma_rhs_for_absent(cs_prev, name@, p);
                                }
                            }
                        }
                        let ghost r_mid = r@;
                        let slot = &mut r[idx];
                        let list = slot.1.get_property(*prop);
                        list.push(right.clone());
                        proof {
                            assert(r@ =~= r_mid.update(idx as int, *final(slot)));
                            assert(final(slot).0 == r_mid[idx as int].0);
                            assert(r@.len() == r_mid.len());
                            assert forall|i: int| 0 <= i < r_pre.len() implies #[trigger] r@[i].0
                                == r_pre[i].0 by {
                                assert(r_mid[i].0 == r_pre[i].0);
                            }
                            assert(r@[idx as int].0@ == name@);
                            // first-mention order is kept: an existing entry
                            // leaves the keys alone, and a fresh entry's name
                            // first appears exactly at this step
                            assert forall|i: int|
                                0 <= i < r@.len() implies 0 <= first_for(
                                constraints@,
                                #[trigger] r@[i].0@,
                            ) < k + 1 by {
                                if i < r_pre.len() {
                                    assert(r@[i].0 == r_pre[i].0);
                                } else {
                                    assert(r@[i].0@ == name@);
                                }
                            }
                            assert forall|i: int, j: int|
                                0 <= i < j < r@.len() implies first_for(constraints@, r@[i].0@)
                                < first_for(constraints@, r@[j].0@) by {
                                if j < r_pre.len() {
                                    assert(r@[i].0 == r_pre[i].0);
                                    assert(r@[j].0 == r_pre[j].0);
                                } else {
                                    assert(r@[i].0 == r_pre[i].0);
                                    assert(r@[j].0@ == name@);
                                }
                            }
                            assert(r@[idx as int].1.prop_list(*prop)@ == rhs_for(
                                cs_prev,
                                name@,
                                *prop,
                            ).push(rhs(cs_now.last())));
                            assert forall|p: Property|
                                p != *prop implies (#[trigger] r@[idx as int].1.prop_list(p))@
                                == rhs_for(cs_prev, name@, p) by {}
                            // contents of every entry match the longer prefix
                            assert forall|i: int, p: Property| 0 <= i < r@.len() implies (
                            #[trigger] r@[i].1.prop_list(p))@ == rhs_for(
                                cs_now,
                                r@[i].0@,
                                p,
                            ) by {
                                if i == idx as int {
                                    if p != *prop {
                                        assert(!is_for(cs_now.last(), name@, p));
                                    }
                                } else {
                                    assert(r@[i] == r_mid[i]);
                                    assert(r@[i].0@ != name@);
                                    assert(!is_for(cs_now.last(), r@[i].0@, p));
                                }
                            }
                            // name sets match the longer prefix
                            assert(lhs_names(cs_now) == lhs_names(cs_prev).insert(name@));
                            assert forall|nm: Seq<char>| lhs_names(cs_now).contains(
                                nm,
                            ) implies has_key(r@, nm) by {
                                if nm == name@ {
                                    assert((r@[idx as int].0)@ == nm);
                                } else {
                                    assert(lhs_names(cs_prev).contains(nm));
                                    assert(lhs_names(constraints@.take(k as int)).contains(nm));
                                    assert(has_key(r_pre, nm));
                                    let i0 = choose|i0: int|
                                        0 <= i0 < r_pre.len() && (#[trigger] r_pre[i0].0)@
                                            == nm;
                                    assert((r@[i0].0)@ == nm);
                                }
                            }
                            assert forall|i: int| 0 <= i < r@.len() implies lhs_names(
                                cs_now,
                            ).contains(#[trigger] r@[i].0@) by {
                                if i < r_pre.len() {
                                    assert(r@[i].0 == r_pre[i].0);
                                    assert(lhs_names(cs_prev).contains(r_pre[i].0@));
                                } else {
                                    assert(r@[i].0@ == name@);
                                }
                            }
                        }
                    },
                    _ => {
                        proof {
                            assert(false);
                        }
                        return unreached();
                    },
                }
            },
        }
    }
    proof {
        assert(constraints@.take(n as int) =~= constraints@);
    }
    r
}

} // verus!

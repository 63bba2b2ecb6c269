//! The inherent augmenter.
//!
//! For every element it appends the structurally-true identities that tie the
//! width/left/right and height/bottom/top triads together, each stated both
//! forward and inverted, so that any two members of a triad pin the third
//! without the caller spelling all three out.  `x`, `y`, `center` and `color`
//! get no inherent identities.

use vstd::prelude::*;
use crate::expr::{Env, Expression, Name, Property, eval};
use crate::group::ElementConstraints;
use crate::rat::{rat_eq, rat_of_int};

verus! {

/// The inherent candidate expressions appended for property `p` of the
/// element called `name`.
pub open spec fn inherent(name: Name, p: Property) -> Seq<Expression> {
    match p {
        Property::Width => seq![
            Expression::Sum(
                Box::new(Expression::Property(name, Property::Right)),
                Box::new(Expression::Negative(Box::new(Expression::Property(
                    name,
                    Property::Left,
                )))),
            ),
        ],
        Property::Left => seq![
            Expression::Sum(
                Box::new(Expression::Property(name, Property::Right)),
                Box::new(Expression::Negative(Box::new(Expression::Property(
                    name,
                    Property::Width,
                )))),
            ),
        ],
        Property::Right => seq![
            Expression::Sum(
                Box::new(Expression::Property(name, Property::Left)),
                Box::new(Expression::Property(name, Property::Width)),
            ),
        ],
        Property::Height => seq![
            Expression::Sum(
                Box::new(Expression::Property(name, Property::Top)),
                Box::new(Expression::Negative(Box::new(Expression::Property(
                    name,
                    Property::Bottom,
                )))),
            ),
        ],
        Property::Bottom => seq![
            Expression::Sum(
                Box::new(Expression::Property(name, Property::Top)),
                Box::new(Expression::Negative(Box::new(Expression::Property(
                    name,
                    Property::Height,
                )))),
            ),
        ],
        Property::Top => seq![
            Expression::Sum(
                Box::new(Expression::Property(name, Property::Bottom)),
                Box::new(Expression::Property(name, Property::Height)),
            ),
        ],
        Property::X => Seq::empty(),
        Property::Y => Seq::empty(),
        Property::Center => Seq::empty(),
        Property::Color => Seq::empty(),
    }
}

/// `a` is `g` with the inherent identities appended: same elements in the
/// same order, every candidate list extended by that slot's identities.
pub open spec fn augmented(g: Seq<(Name, ElementConstraints)>, a: Seq<(Name, ElementConstraints)>) -> bool {
    &&& a.len() == g.len()
    &&& forall|i: int| 0 <= i < g.len() ==> (#[trigger] a[i].0) == g[i].0
    &&& forall|i: int, p: Property|
        0 <= i < g.len() ==> (#[trigger] a[i].1.prop_list(p))@ == g[i].1.prop_list(p)@
            + inherent(g[i].0, p)
}

/// Append the inherent identities to every element's candidate lists.
pub fn fill_with_inherent_constraints(elements: Vec<(Name, ElementConstraints)>) -> (r: Vec<
    (Name, ElementConstraints),
>)
    ensures
        augmented(elements@, r@),
{
    let ghost g = elements@;
    let mut elements = elements;
    let n = elements.len();
    for k in 0..n
        invariant
            n == elements@.len(),
            g.len() == elements@.len(),
            forall|i: int| k <= i < g.len() ==> (#[trigger] elements@[i]) == g[i],
            forall|i: int| 0 <= i < k ==> (#[trigger] elements@[i].0) == g[i].0,
            forall|i: int, p: Property|
                0 <= i < k ==> (#[trigger] elements@[i].1.prop_list(p))@ == g[i].1.prop_list(p)@
                    + inherent(g[i].0, p),
    {
        let ghost pre = elements@;
        let name = elements[k].0.clone();
        let slot = &mut elements[k];
        slot.1.width.push(
            Expression::Sum(
                Box::new(Expression::Property(name.clone(), Property::Right)),
                Box::new(Expression::Negative(Box::new(Expression::Property(
                    name.clone(),
                    Property::Left,
                )))),
            ),
        );
        slot.1.left.push(
            Expression::Sum(
                Box::new(Expression::Property(name.clone(), Property::Right)),
                Box::new(Expression::Negative(Box::new(Expression::Property(
                    name.clone(),
                    Property::Width,
                )))),
            ),
        );
        slot.1.right.push(
            Expression::Sum(
                Box::new(Expression::Property(name.clone(), Property::Left)),
                Box::new(Expression::Property(name.clone(), Property::Width)),
            ),
        );
        slot.1.height.push(
            Expression::Sum(
                Box::new(Expression::Property(name.clone(), Property::Top)),
                Box::new(Expression::Negative(Box::new(Expression::Property(
                    name.clone(),
                    Property::Bottom,
                )))),
            ),
        );
        slot.1.bottom.push(
            Expression::Sum(
                Box::new(Expression::Property(name.clone(), Property::Top)),
                Box::new(Expression::Negative(Box::new(Expression::Property(
                    name.clone(),
                    Property::Height,
                )))),
            ),
        );
        slot.1.top.push(
            Expression::Sum(
                Box::new(Expression::Property(name.clone(), Property::Bottom)),
                Box::new(Expression::Property(name.clone(), Property::Height)),
            ),
        );
        proof {
            assert(elements@ =~= pre.update(k as int, *final(slot)));
            assert forall|p: Property|
                (#[trigger] elements@[k as int].1.prop_list(p))@ == g[k as int].1.prop_list(p)@
                    + inherent(g[k as int].0, p) by {
                assert(pre[k as int] == g[k as int]);
                match p {
                    Property::Width => {
                        assert(elements@[k as int].1.prop_list(p)@ =~= g[k as int].1.prop_list(
                            p,
                        )@ + inherent(g[k as int].0, p));
                    },
                    Property::Left => {
                        assert(elements@[k as int].1.prop_list(p)@ =~= g[k as int].1.prop_list(
                            p,
                        )@ + inherent(g[k as int].0, p));
                    },
                    Property::Right => {
                        assert(elements@[k as int].1.prop_list(p)@ =~= g[k as int].1.prop_list(
                            p,
                        )@ + inherent(g[k as int].0, p));
                    },
                    Property::Height => {
                        assert(elements@[k as int].1.prop_list(p)@ =~= g[k as int].1.prop_list(
                            p,
                        )@ + inherent(g[k as int].0, p));
                    },
                    Property::Bottom => {
                        assert(elements@[k as int].1.prop_list(p)@ =~= g[k as int].1.prop_list(
                            p,
                        )@ + inherent(g[k as int].0, p));
                    },
                    Property::Top => {
                        assert(elements@[k as int].1.prop_list(p)@ =~= g[k as int].1.prop_list(
                            p,
                        )@ + inherent(g[k as int].0, p));
                    },
                    Property::X => {
                        assert(elements@[k as int].1.prop_list(p)@ =~= g[k as int].1.prop_list(
                            p,
                        )@ + inherent(g[k as int].0, p));
                    },
                    Property::Y => {
                        assert(elements@[k as int].1.prop_list(p)@ =~= g[k as int].1.prop_list(
                            p,
                        )@ + inherent(g[k as int].0, p));
                    },
                    Property::Center => {
                        assert(elements@[k as int].1.prop_list(p)@ =~= g[k as int].1.prop_list(
                            p,
                        )@ + inherent(g[k as int].0, p));
                    },
                    Property::Color => {
                        assert(elements@[k as int].1.prop_list(p)@ =~= g[k as int].1.prop_list(
                            p,
                        )@ + inherent(g[k as int].0, p));
                    },
                }
            }
        }
    }
    elements
}

/// One candidate expression is satisfied: the slot it constrains has a value
/// under `env`, the expression evaluates, and the two agree.
pub open spec fn slot_satisfied(env: Env, n: Seq<char>, p: Property, e: Expression) -> bool {
    &&& env.dom().contains((n, p))
    &&& eval(e, env) matches Some(v) && rat_eq(rat_of_int(env[(n, p)]), v)
}

/// Every candidate of every slot is satisfied under `env`.
pub open spec fn groups_satisfied(env: Env, g: Seq<(Name, ElementConstraints)>) -> bool {
    forall|i: int, p: Property, j: int|
        #![trigger g[i].1.prop_list(p)@[j]]
        0 <= i < g.len() && 0 <= j < g[i].1.prop_list(p)@.len() ==> slot_satisfied(
            env,
            g[i].0@,
            p,
            g[i].1.prop_list(p)@[j],
        )
}

/// Idempotent augmentation: augmenting twice yields a system that exactly the
/// same assignments satisfy as augmenting once, for the second round only
/// repeats candidates the first round already added.
pub proof fn lemma_augment_idempotent(
    g: Seq<(Name, ElementConstraints)>,
    a1: Seq<(Name, ElementConstraints)>,
    a2: Seq<(Name, ElementConstraints)>,
    env: Env,
)
    requires
        augmented(g, a1),
        augmented(a1, a2),
    ensures
        groups_satisfied(env, a2) <==> groups_satisfied(env, a1),
{
    if groups_satisfied(env, a1) {
        assert forall|i: int, p: Property, j: int|
            #![trigger a2[i].1.prop_list(p)@[j]]
            0 <= i < a2.len() && 0 <= j < a2[i].1.prop_list(p)@.len() implies slot_satisfied(
            env,
            a2[i].0@,
            p,
            a2[i].1.prop_list(p)@[j],
        ) by {
            let base = g[i].1.prop_list(p)@.len() as int;
            let one = a1[i].1.prop_list(p)@.len() as int;
            if j < one {
                assert(a2[i].1.prop_list(p)@[j] == a1[i].1.prop_list(p)@[j]);
                assert(slot_satisfied(env, a1[i].0@, p, a1[i].1.prop_list(p)@[j]));
            } else {
                assert(a2[i].1.prop_list(p)@[j] == inherent(a1[i].0, p)[j - one]);
                assert(a1[i].1.prop_list(p)@[base + (j - one)] == inherent(g[i].0, p)[j - one]);
                assert(slot_satisfied(env, a1[i].0@, p, a1[i].1.prop_list(p)@[base + (j - one)]));
            }
        }
    }
    if groups_satisfied(env, a2) {
        assert forall|i: int, p: Property, j: int|
            #![trigger a1[i].1.prop_list(p)@[j]]
            0 <= i < a1.len() && 0 <= j < a1[i].1.prop_list(p)@.len() implies slot_satisfied(
            env,
            a1[i].0@,
            p,
            a1[i].1.prop_list(p)@[j],
        ) by {
            assert(a2[i].1.prop_list(p)@[j] == a1[i].1.prop_list(p)@[j]);
            assert(slot_satisfied(env, a2[i].0@, p, a2[i].1.prop_list(p)@[j]));
        }
    }
}

} // verus!

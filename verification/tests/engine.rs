use bismuth::{Constraint, Direction, Expression, Property, ResolutionError};
use bismuth::{
    extract_prop_constraints, fill_with_inherent_constraints, find_paths_to_vars,
    group_by_element, isolate_variable, resolve,
};
use bismuth::solve::Element;

fn val(v: i32) -> Expression {
    Expression::Value(v)
}

fn prop(name: &str, p: Property) -> Expression {
    Expression::Property(name.to_string(), p)
}

fn sum(a: Expression, b: Expression) -> Expression {
    Expression::Sum(Box::new(a), Box::new(b))
}

fn product(a: Expression, b: Expression) -> Expression {
    Expression::Product(Box::new(a), Box::new(b))
}

fn neg(a: Expression) -> Expression {
    Expression::Negative(Box::new(a))
}

fn frac(a: Expression) -> Expression {
    Expression::Fraction(Box::new(a))
}

fn eq(left: Expression, right: Expression) -> Constraint {
    Constraint::Equality { left, right }
}

fn get<'a>(elems: &'a [(String, Element)], name: &str) -> &'a Element {
    &elems.iter().find(|(n, _)| n == name).expect("element missing").1
}

/// Exact rational evaluation of an expression under resolved elements, for
/// checking round trips in tests.
fn eval_under(e: &Expression, elems: &[(String, Element)]) -> Option<(i128, i128)> {
    match e {
        Expression::Sum(a, b) => {
            let (n1, d1) = eval_under(a, elems)?;
            let (n2, d2) = eval_under(b, elems)?;
            Some((n1 * d2 + n2 * d1, d1 * d2))
        }
        Expression::Product(a, b) => {
            let (n1, d1) = eval_under(a, elems)?;
            let (n2, d2) = eval_under(b, elems)?;
            Some((n1 * n2, d1 * d2))
        }
        Expression::Negative(a) => {
            let (n1, d1) = eval_under(a, elems)?;
            Some((-n1, d1))
        }
        Expression::Fraction(a) => {
            let (n1, d1) = eval_under(a, elems)?;
            if n1 == 0 {
                None
            } else {
                Some((d1, n1))
            }
        }
        Expression::Value(v) => Some((*v as i128, 1)),
        Expression::Property(name, p) => {
            let elem = &elems.iter().find(|(n, _)| n == name)?.1;
            let v = match p {
                Property::Width => Some(elem.width),
                Property::Height => Some(elem.height),
                Property::Left => Some(elem.left),
                Property::Right => Some(elem.right),
                Property::Bottom => Some(elem.bottom),
                Property::Top => Some(elem.top),
                Property::X => elem.x,
                Property::Y => elem.y,
                Property::Center => elem.center,
                Property::Color => elem.color,
            }?;
            Some((v as i128, 1))
        }
    }
}

fn rat_equal(a: (i128, i128), b: (i128, i128)) -> bool {
    a.0 * b.1 == b.0 * a.1
}

#[test]
fn paths_of_simple_equality() {
    // box.left = 0: one occurrence, on the left side of the equality
    let c = eq(prop("box", Property::Left), val(0));
    let paths = find_paths_to_vars(&c);
    assert_eq!(paths, vec![vec![Direction::Left]]);
}

#[test]
fn paths_cover_both_sides_in_order() {
    // a.x + 3 = -b.y: left-side occurrence first, then the right-side one
    let c = eq(
        sum(prop("a", Property::X), val(3)),
        neg(prop("b", Property::Y)),
    );
    let paths = find_paths_to_vars(&c);
    assert_eq!(
        paths,
        vec![
            vec![Direction::Left, Direction::Left],
            vec![Direction::Right, Direction::Down],
        ]
    );
}

#[test]
fn paths_empty_without_properties() {
    let c = eq(val(1), sum(val(2), val(3)));
    assert!(find_paths_to_vars(&c).is_empty());
}

#[test]
fn isolate_moves_sum_sibling_negated() {
    // x + 3 = 10 becomes x = 10 + (-3)
    let c = eq(sum(prop("box", Property::X), val(3)), val(10));
    let isolated = isolate_variable(vec![Direction::Left, Direction::Left], c);
    assert_eq!(
        isolated,
        eq(prop("box", Property::X), sum(val(10), neg(val(3))))
    );
}

#[test]
fn isolate_moves_product_sibling_as_fraction() {
    // x * 2 = 10 becomes x = 10 * (1/2)
    let c = eq(product(prop("box", Property::X), val(2)), val(10));
    let isolated = isolate_variable(vec![Direction::Left, Direction::Left], c);
    assert_eq!(
        isolated,
        eq(prop("box", Property::X), product(val(10), frac(val(2))))
    );
}

#[test]
fn isolate_unwraps_negative() {
    // -(x) = 4 becomes x = -(4)
    let c = eq(neg(prop("box", Property::Y)), val(4));
    let isolated = isolate_variable(vec![Direction::Left, Direction::Down], c);
    assert_eq!(isolated, eq(prop("box", Property::Y), neg(val(4))));
}

#[test]
fn extract_yields_one_constraint_per_occurrence() {
    // box.left = box.right mentions two properties, so two isolated forms
    let cs = vec![eq(prop("box", Property::Left), prop("box", Property::Right))];
    let isolated = extract_prop_constraints(cs);
    assert_eq!(
        isolated,
        vec![
            eq(prop("box", Property::Left), prop("box", Property::Right)),
            eq(prop("box", Property::Right), prop("box", Property::Left)),
        ]
    );
}

#[test]
fn grouping_buckets_by_element_and_property() {
    let cs = vec![
        eq(prop("a", Property::Left), val(1)),
        eq(prop("b", Property::Left), val(2)),
        eq(prop("a", Property::Width), val(3)),
        eq(prop("a", Property::Left), val(4)),
    ];
    let groups = group_by_element(cs);
    assert_eq!(groups.len(), 2);
    assert_eq!(groups[0].0, "a");
    assert_eq!(groups[1].0, "b");
    assert_eq!(groups[0].1.left, vec![val(1), val(4)]);
    assert_eq!(groups[0].1.width, vec![val(3)]);
    assert!(groups[0].1.height.is_empty());
    assert_eq!(groups[1].1.left, vec![val(2)]);
}

#[test]
fn augmenter_appends_six_identities() {
    let cs = vec![eq(prop("a", Property::Left), val(1))];
    let groups = group_by_element(cs);
    let aug = fill_with_inherent_constraints(groups);
    assert_eq!(aug.len(), 1);
    let ec = &aug[0].1;
    // the user candidate plus one inherent identity
    assert_eq!(ec.left.len(), 2);
    assert_eq!(ec.width.len(), 1);
    assert_eq!(ec.right.len(), 1);
    assert_eq!(ec.height.len(), 1);
    assert_eq!(ec.bottom.len(), 1);
    assert_eq!(ec.top.len(), 1);
    // x, y, center and color get no inherent identities
    assert!(ec.x.is_empty());
    assert!(ec.y.is_empty());
    assert!(ec.center.is_empty());
    assert!(ec.color.is_empty());
    assert_eq!(
        ec.width[0],
        sum(prop("a", Property::Right), neg(prop("a", Property::Left)))
    );
    assert_eq!(
        ec.right[0],
        sum(prop("a", Property::Left), prop("a", Property::Width))
    );
}

#[test]
fn augmenter_is_idempotent_on_solvability() {
    // augmenting twice only repeats the identities the first round added, so
    // the doubled system constrains nothing new
    let make = || {
        group_by_element(extract_prop_constraints(vec![
            eq(prop("box", Property::Left), val(0)),
            eq(prop("box", Property::Width), val(50)),
        ]))
    };
    let once = fill_with_inherent_constraints(make());
    let twice = fill_with_inherent_constraints(fill_with_inherent_constraints(make()));
    assert_eq!(once.len(), twice.len());
    let a = &once[0].1;
    let b = &twice[0].1;
    // each doubled list is the once-augmented list plus a repeat of its own
    // last (inherent) entry
    assert_eq!(b.width.len(), a.width.len() + 1);
    assert_eq!(&b.width[..a.width.len()], &a.width[..]);
    assert_eq!(b.width.last(), a.width.last());
    assert_eq!(b.right.len(), a.right.len() + 1);
    assert_eq!(&b.right[..a.right.len()], &a.right[..]);
    assert_eq!(b.right.last(), a.right.last());
    assert_eq!(b.x.len(), 0);
}

#[test]
fn triad_derives_right_from_left_and_width() {
    let cs = vec![
        eq(prop("box", Property::Left), val(0)),
        eq(prop("box", Property::Width), val(50)),
        eq(prop("box", Property::Bottom), val(0)),
        eq(prop("box", Property::Height), val(20)),
    ];
    let elems = resolve(cs).expect("solvable");
    let b = get(&elems, "box");
    assert_eq!(b.left, 0);
    assert_eq!(b.width, 50);
    assert_eq!(b.right, 50);
    assert_eq!(b.bottom, 0);
    assert_eq!(b.height, 20);
    assert_eq!(b.top, 20);
    assert_eq!(b.x, None);
    assert_eq!(b.y, None);
    assert_eq!(b.center, None);
    assert_eq!(b.color, None);
}

#[test]
fn underdetermined_height_is_reported_exhaustively() {
    // box.left = 0, box.width = 50: the horizontal triad resolves, the
    // vertical one cannot, and every unresolved slot is listed
    let cs = vec![
        eq(prop("box", Property::Left), val(0)),
        eq(prop("box", Property::Width), val(50)),
    ];
    match resolve(cs) {
        Err(ResolutionError::CannotDetermineSpecificValue(slots)) => {
            let mut slots: Vec<(String, Property)> = slots;
            slots.sort_by_key(|(_, p)| format!("{:?}", p));
            assert_eq!(
                slots,
                vec![
                    ("box".to_string(), Property::Bottom),
                    ("box".to_string(), Property::Height),
                    ("box".to_string(), Property::Top),
                ]
            );
        }
        _ => panic!("expected CannotDetermineSpecificValue"),
    }
}

#[test]
fn cross_element_propagation() {
    // A.left = 0, A.width = 10, B.left = A.right, B.width = 5
    let cs = vec![
        eq(prop("A", Property::Left), val(0)),
        eq(prop("A", Property::Width), val(10)),
        eq(prop("B", Property::Left), prop("A", Property::Right)),
        eq(prop("B", Property::Width), val(5)),
        // pin the vertical triads so the resolution succeeds
        eq(prop("A", Property::Bottom), val(0)),
        eq(prop("A", Property::Height), val(1)),
        eq(prop("B", Property::Bottom), val(0)),
        eq(prop("B", Property::Height), val(1)),
    ];
    let elems = resolve(cs).expect("solvable");
    assert_eq!(get(&elems, "A").right, 10);
    assert_eq!(get(&elems, "B").left, 10);
    assert_eq!(get(&elems, "B").right, 15);
}

#[test]
fn cross_element_values_flow_even_when_underdetermined() {
    // the bare cross-element example leaves the vertical triads open
    let cs = vec![
        eq(prop("A", Property::Left), val(0)),
        eq(prop("A", Property::Width), val(10)),
        eq(prop("B", Property::Left), prop("A", Property::Right)),
        eq(prop("B", Property::Width), val(5)),
    ];
    match resolve(cs) {
        Err(ResolutionError::CannotDetermineSpecificValue(slots)) => {
            assert!(slots.iter().all(|(_, p)| matches!(
                p,
                Property::Height | Property::Top | Property::Bottom
            )));
            assert_eq!(slots.len(), 6);
        }
        _ => panic!("expected CannotDetermineSpecificValue"),
    }
}

#[test]
fn conflicting_constraints_are_detected() {
    // box.left = 0, box.width = 10, box.right = 100: 0 + 10 != 100
    let cs = vec![
        eq(prop("box", Property::Left), val(0)),
        eq(prop("box", Property::Width), val(10)),
        eq(prop("box", Property::Right), val(100)),
    ];
    match resolve(cs) {
        Err(ResolutionError::ConflictingConstraints {
            element,
            property,
            existing,
            conflicting_num,
            conflicting_den,
        }) => {
            assert_eq!(element, "box");
            assert!(matches!(property, Property::Right));
            // the two disagreeing values are 100 (supplied) and 10 (computed)
            assert_ne!(conflicting_den, 0);
            let conflicting = conflicting_num / conflicting_den;
            assert_eq!(conflicting_num % conflicting_den, 0);
            assert!(
                (existing == 100 && conflicting == 10)
                    || (existing == 10 && conflicting == 100)
            );
        }
        _ => panic!("expected ConflictingConstraints"),
    }
}

#[test]
fn directly_conflicting_values() {
    let cs = vec![
        eq(prop("box", Property::Left), val(1)),
        eq(prop("box", Property::Left), val(2)),
    ];
    match resolve(cs) {
        Err(ResolutionError::ConflictingConstraints {
            element,
            property,
            existing,
            conflicting_num,
            conflicting_den,
        }) => {
            assert_eq!(element, "box");
            assert!(matches!(property, Property::Left));
            assert_ne!(conflicting_den, 0);
            assert_ne!(existing as i64 * conflicting_den, conflicting_num);
        }
        _ => panic!("expected ConflictingConstraints"),
    }
}

#[test]
fn closed_loop_without_anchor_is_underdetermined() {
    // A.left = B.right, B.left = A.right: no numeric anchor anywhere
    let cs = vec![
        eq(prop("A", Property::Left), prop("B", Property::Right)),
        eq(prop("B", Property::Left), prop("A", Property::Right)),
    ];
    match resolve(cs) {
        Err(ResolutionError::CannotDetermineSpecificValue(slots)) => {
            for name in ["A", "B"] {
                for p in [Property::Left, Property::Right, Property::Width] {
                    assert!(
                        slots.iter().any(|(n, q)| n == name && *q == p),
                        "missing slot"
                    );
                }
            }
        }
        _ => panic!("expected CannotDetermineSpecificValue"),
    }
}

#[test]
fn empty_input_resolves_to_no_elements() {
    assert!(matches!(resolve(vec![]), Ok(elems) if elems.is_empty()));
}

#[test]
fn property_free_constraints_resolve_to_no_elements() {
    let cs = vec![eq(val(1), val(1)), eq(val(2), sum(val(1), val(1)))];
    assert!(matches!(resolve(cs), Ok(elems) if elems.is_empty()));
}

#[test]
fn products_divide_exactly() {
    // box.x * 2 = box.right, box.right = 50 -> x is 25
    let cs = vec![
        eq(product(prop("box", Property::X), val(2)), prop("box", Property::Right)),
        eq(prop("box", Property::Right), val(50)),
        eq(prop("box", Property::Left), val(0)),
        eq(prop("box", Property::Bottom), val(0)),
        eq(prop("box", Property::Top), val(1)),
    ];
    let elems = resolve(cs).expect("solvable");
    assert_eq!(get(&elems, "box").x, Some(25));
}

#[test]
fn non_integer_value_never_commits() {
    // box.x * 2 = 5 has no integer solution, so box.x stays undetermined
    let cs = vec![
        eq(product(prop("box", Property::X), val(2)), val(5)),
        eq(prop("box", Property::Left), val(0)),
        eq(prop("box", Property::Width), val(1)),
        eq(prop("box", Property::Bottom), val(0)),
        eq(prop("box", Property::Height), val(1)),
    ];
    match resolve(cs) {
        Err(ResolutionError::CannotDetermineSpecificValue(slots)) => {
            assert_eq!(slots, vec![("box".to_string(), Property::X)]);
        }
        _ => panic!("expected CannotDetermineSpecificValue"),
    }
}

#[test]
fn non_integer_disagreement_is_a_conflict() {
    // box.x = 2 pins the slot; box.x * 2 = 5 then values it at 5/2, a hard
    // numeric disagreement
    let cs = vec![
        eq(prop("box", Property::X), val(2)),
        eq(product(prop("box", Property::X), val(2)), val(5)),
        eq(prop("box", Property::Left), val(0)),
        eq(prop("box", Property::Width), val(1)),
        eq(prop("box", Property::Bottom), val(0)),
        eq(prop("box", Property::Height), val(1)),
    ];
    match resolve(cs) {
        Err(ResolutionError::ConflictingConstraints {
            element,
            property,
            existing,
            conflicting_num,
            conflicting_den,
        }) => {
            assert_eq!(element, "box");
            assert!(matches!(property, Property::X));
            assert_eq!(existing, 2);
            // the disagreeing candidate stands for exactly 5/2
            assert_eq!(conflicting_num * 2, conflicting_den * 5);
            assert_ne!(existing as i64 * conflicting_den, conflicting_num);
        }
        _ => panic!("expected ConflictingConstraints"),
    }
}

#[test]
fn color_is_never_derived() {
    // pal.color is supplied directly and resolves; box.color only references
    // pal.color, and a colour is never derived, so it stays undetermined
    let cs = vec![
        eq(prop("box", Property::Color), prop("pal", Property::Color)),
        eq(prop("pal", Property::Color), val(7)),
        eq(prop("box", Property::Left), val(0)),
        eq(prop("box", Property::Width), val(1)),
        eq(prop("box", Property::Bottom), val(0)),
        eq(prop("box", Property::Height), val(1)),
        eq(prop("pal", Property::Left), val(0)),
        eq(prop("pal", Property::Width), val(1)),
        eq(prop("pal", Property::Bottom), val(0)),
        eq(prop("pal", Property::Height), val(1)),
    ];
    match resolve(cs) {
        Err(ResolutionError::CannotDetermineSpecificValue(slots)) => {
            assert_eq!(slots, vec![("box".to_string(), Property::Color)]);
        }
        _ => panic!("expected CannotDetermineSpecificValue"),
    }
}

#[test]
fn negative_values_resolve() {
    let cs = vec![
        eq(prop("box", Property::Left), neg(val(5))),
        eq(prop("box", Property::Width), val(3)),
        eq(prop("box", Property::Bottom), neg(val(2))),
        eq(prop("box", Property::Top), val(2)),
    ];
    let elems = resolve(cs).expect("solvable");
    let b = get(&elems, "box");
    assert_eq!(b.left, -5);
    assert_eq!(b.right, -2);
    assert_eq!(b.height, 4);
}

#[test]
fn optional_color_resolves_when_supplied() {
    let cs = vec![
        eq(prop("box", Property::Color), val(0x322442)),
        eq(prop("box", Property::Left), val(0)),
        eq(prop("box", Property::Width), val(1)),
        eq(prop("box", Property::Bottom), val(0)),
        eq(prop("box", Property::Height), val(1)),
    ];
    let elems = resolve(cs).expect("solvable");
    assert_eq!(get(&elems, "box").color, Some(0x322442));
}

#[test]
fn isolation_preserves_truth_under_resolved_values() {
    // resolve a system, then check each original constraint and each
    // isolated form of it evaluate to equal sides
    let make = || {
        vec![
            eq(sum(prop("box", Property::Left), val(8)), val(10)),
            eq(prop("box", Property::Width), val(6)),
            eq(prop("box", Property::Bottom), val(1)),
            eq(sum(prop("box", Property::Top), neg(val(4))), val(0)),
        ]
    };
    let elems = resolve(make()).expect("solvable");
    assert_eq!(get(&elems, "box").left, 2);
    assert_eq!(get(&elems, "box").top, 4);
    for c in make() {
        let Constraint::Equality { left, right } = &c;
        let lv = eval_under(left, &elems).expect("defined");
        let rv = eval_under(right, &elems).expect("defined");
        assert!(rat_equal(lv, rv), "original constraint must hold");
        let paths = find_paths_to_vars(&c);
        for path in paths {
            let iso = isolate_variable(path, c.clone());
            let Constraint::Equality { left: il, right: ir } = &iso;
            let ilv = eval_under(il, &elems).expect("defined");
            let irv = eval_under(ir, &elems).expect("defined");
            assert!(rat_equal(ilv, irv), "isolated constraint must hold");
        }
    }
}

#[test]
fn round_trip_rebuilds_equivalent_constraint() {
    // substituting an isolated right-hand side back in place of its property
    // occurrence keeps both sides' values, under the resolved assignment
    let c = eq(sum(prop("box", Property::Left), val(8)), val(10));
    let cs = vec![
        c.clone(),
        eq(prop("box", Property::Width), val(6)),
        eq(prop("box", Property::Bottom), val(1)),
        eq(prop("box", Property::Top), val(4)),
    ];
    let elems = resolve(cs).expect("solvable");
    let paths = find_paths_to_vars(&c);
    assert_eq!(paths.len(), 1);
    let iso = isolate_variable(paths[0].clone(), c.clone());
    let Constraint::Equality { left: iso_left, right: iso_right } = &iso;
    assert_eq!(iso_left, &prop("box", Property::Left));
    // rebuild: the occurrence sat at Left/Left inside the original sum
    let rebuilt = eq(sum(iso_right.clone(), val(8)), val(10));
    let Constraint::Equality { left: ol, right: or } = &c;
    let Constraint::Equality { left: rl, right: rr } = &rebuilt;
    let olv = eval_under(ol, &elems).expect("defined");
    let orv = eval_under(or, &elems).expect("defined");
    let rlv = eval_under(rl, &elems).expect("defined");
    let rrv = eval_under(rr, &elems).expect("defined");
    assert!(rat_equal(olv, rlv), "left sides agree");
    assert!(rat_equal(orv, rrv), "right sides agree");
    assert_eq!(rat_equal(olv, orv), rat_equal(rlv, rrv));
}

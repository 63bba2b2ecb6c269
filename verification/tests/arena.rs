use bismuth::code::{Code, Color, Node};
use bismuth::widget::{Alignment, Axis};
use bismuth::{ElementConstraints, Expression, Property};

#[test]
fn arena_starts_with_root_group() {
    let code = Code::new();
    let root = code.root();
    let placed = code.get(root).expect("root exists");
    assert!(placed.parent().is_none());
    assert!(matches!(placed.node, Node::Program(ref g) if g.is_empty()));
}

#[test]
fn insert_places_node_under_group() {
    let mut code = Code::new();
    let root = code.root();
    let id = code
        .insert(Node::Pixel { position: (2, 3), color: Color::Green }, root)
        .expect("inserted");
    let placed = code.get(id).expect("node exists");
    assert_eq!(placed.parent(), Some(root));
    assert!(matches!(
        placed.node,
        Node::Pixel { position: (2, 3), color: Color::Green }
    ));
    let root_node = code.get(root).expect("root exists");
    assert!(matches!(root_node.node, Node::Program(ref g) if g == &vec![id]));
}

#[test]
fn insert_into_missing_group_is_refused() {
    let mut code = Code::new();
    let r = code.insert(Node::Pixel { position: (0, 0), color: Color::Red }, 77);
    assert!(r.is_none());
}

#[test]
fn insert_into_pixel_is_refused() {
    let mut code = Code::new();
    let root = code.root();
    let pixel = code
        .insert(Node::Pixel { position: (0, 0), color: Color::Blue }, root)
        .expect("inserted");
    let r = code.insert(Node::Pixel { position: (1, 1), color: Color::Red }, pixel);
    assert!(r.is_none());
}

#[test]
fn group_mut_opens_program_nodes_only() {
    let mut program = Node::Program(vec![4, 5]);
    let children = program.group_mut().expect("a program groups children");
    children.push(6);
    assert!(matches!(program, Node::Program(ref g) if g == &vec![4, 5, 6]));
    let mut pixel = Node::Pixel { position: (0, 0), color: Color::Red };
    assert!(pixel.group_mut().is_none());
}

#[test]
fn axis_pack_orders_main_and_cross() {
    assert_eq!(Axis::Horizontal.pack(1, 2), (1, 2));
    assert_eq!(Axis::Vertical.pack(1, 2), (2, 1));
    assert_eq!(Alignment::Start, Alignment::Start);
}

#[test]
fn get_property_selects_the_right_list() {
    let mut ec = ElementConstraints::default();
    ec.get_property(Property::Width).push(Expression::Value(7));
    ec.get_property(Property::Color).push(Expression::Value(9));
    assert_eq!(ec.width, vec![Expression::Value(7)]);
    assert_eq!(ec.color, vec![Expression::Value(9)]);
    assert!(ec.get_property(Property::Height).is_empty());
}

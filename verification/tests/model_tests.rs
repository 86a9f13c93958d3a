use grid_astar::node::MOVE_COST;
use grid_astar::point::manhattan_distance;
use grid_astar::{Dirs, Node, Point};

#[test]
fn point_add_is_componentwise() {
    let a = Point { x: 3, y: -4 };
    let b = Point { x: -1, y: 10 };
    assert_eq!(a.add(&b), Point { x: 2, y: 6 });
    assert_eq!(b.add(&a), Point { x: 2, y: 6 });
    assert_eq!(a.add(&Point { x: 0, y: 0 }), a);
}

#[test]
fn point_equality_is_by_coordinates() {
    assert_eq!(Point { x: 1, y: 2 }, Point { x: 1, y: 2 });
    assert_ne!(Point { x: 1, y: 2 }, Point { x: 2, y: 1 });
}

#[test]
fn manhattan_distance_values() {
    assert_eq!(manhattan_distance(&Point { x: 0, y: 0 }, &Point { x: 3, y: 4 }), 7);
    assert_eq!(manhattan_distance(&Point { x: 3, y: 4 }, &Point { x: 0, y: 0 }), 7);
    assert_eq!(manhattan_distance(&Point { x: -2, y: 5 }, &Point { x: 2, y: -5 }), 14);
    assert_eq!(manhattan_distance(&Point { x: 7, y: 7 }, &Point { x: 7, y: 7 }), 0);
    assert_eq!(
        manhattan_distance(
            &Point { x: i32::MIN, y: i32::MIN },
            &Point { x: i32::MAX, y: i32::MAX }
        ),
        2 * (u32::MAX as i64)
    );
}

#[test]
fn start_node_has_no_parent_and_no_cost() {
    let end = Point { x: 4, y: 1 };
    let node = Node::new(Point { x: 1, y: 3 }, None, &end);
    assert_eq!(node.parent, None);
    assert_eq!(node.pos, Point { x: 1, y: 3 });
    assert_eq!(node.g, 0);
    assert_eq!(node.h, 5);
    assert_eq!(node.f, 5);
}

#[test]
fn child_node_costs_one_move_more() {
    let end = Point { x: 4, y: 1 };
    let first = Node::new(Point { x: 1, y: 3 }, None, &end);
    let second = Node::new(Point { x: 1, y: 2 }, Some(first), &end);
    assert_eq!(second.parent, Some(Point { x: 1, y: 3 }));
    assert_eq!(second.g, MOVE_COST);
    assert_eq!(second.h, 4);
    assert_eq!(second.f, 5);
    let third = Node::new(Point { x: 0, y: 2 }, Some(second), &end);
    assert_eq!(third.parent, Some(Point { x: 1, y: 2 }));
    assert_eq!(third.g, 2);
    assert_eq!(third.h, 5);
    assert_eq!(third.f, 7);
}

#[test]
fn nodes_are_equal_by_position_only() {
    let end = Point { x: 0, y: 0 };
    let a = Node::new(Point { x: 2, y: 2 }, None, &end);
    let b = Node::new(Point { x: 2, y: 2 }, Some(a), &Point { x: 9, y: 9 });
    let c = Node::new(Point { x: 2, y: 3 }, None, &end);
    assert!(a == b);
    assert!(a != c);
}

#[test]
fn direction_offsets() {
    assert_eq!(Dirs::get(&Dirs::N), Point { x: 0, y: -1 });
    assert_eq!(Dirs::get(&Dirs::E), Point { x: 1, y: 0 });
    assert_eq!(Dirs::get(&Dirs::S), Point { x: 0, y: 1 });
    assert_eq!(Dirs::get(&Dirs::W), Point { x: -1, y: 0 });
}

#[test]
fn directions_come_in_compass_order() {
    assert_eq!(Dirs::iter(), vec![Dirs::N, Dirs::E, Dirs::S, Dirs::W]);
}

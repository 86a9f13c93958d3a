use grid_astar::search::{find, grid_searchable, holds, is_free_cell, is_wall, select_best, visit};
use grid_astar::{a_star, a_star_route, search, Dirs, Node, Point, SearchError};

fn pt(x: i32, y: i32) -> Point {
    Point { x, y }
}

fn found(width: usize, height: usize, start: Point, end: Point, walls: Vec<Point>) -> Node {
    match a_star(width, height, start, end, walls) {
        Ok(node) => node,
        Err(e) => panic!("no node: {:?}", e),
    }
}

#[test]
fn straight_line_on_open_grid() {
    let node = found(5, 5, pt(0, 0), pt(4, 0), vec![]);
    assert_eq!(node.pos, pt(4, 0));
    assert_eq!(node.g, 4);
    assert_eq!(node.h, 0);
    assert_eq!(node.f, 4);
    assert_eq!(node.parent, Some(pt(3, 0)));
}

#[test]
fn detour_round_a_wall() {
    let walls = vec![pt(1, 0), pt(1, 1)];
    let node = found(3, 3, pt(0, 0), pt(2, 0), walls.clone());
    assert_eq!(node.pos, pt(2, 0));
    assert!(node.g > 2);
    assert_eq!(node.g, 6);
    assert_eq!(node.h, 0);
    assert_eq!(node.f, 6);
    assert_eq!(node.parent, Some(pt(2, 1)));
    assert!(!walls.contains(&node.parent.unwrap()));
}

#[test]
fn start_is_end_on_single_cell() {
    let node = found(1, 1, pt(0, 0), pt(0, 0), vec![]);
    assert_eq!(node.pos, pt(0, 0));
    assert_eq!(node.g, 0);
    assert_eq!(node.h, 0);
    assert_eq!(node.f, 0);
    assert_eq!(node.parent, None);
}

#[test]
fn walled_in_end_has_no_path() {
    let walls = vec![pt(3, 4), pt(3, 3), pt(4, 3)];
    let res = a_star(5, 5, pt(0, 0), pt(4, 4), walls);
    assert!(matches!(res, Err(SearchError::NoPath)));
}

#[test]
fn walled_in_start_has_no_path() {
    let walls = vec![pt(1, 0), pt(0, 1)];
    let res = a_star(4, 4, pt(0, 0), pt(3, 3), walls);
    assert!(matches!(res, Err(SearchError::NoPath)));
}

#[test]
fn wall_across_the_grid_has_no_path() {
    let walls = vec![pt(1, 0), pt(1, 1), pt(1, 2)];
    let res = a_star(3, 3, pt(0, 1), pt(2, 1), walls);
    assert!(matches!(res, Err(SearchError::NoPath)));
}

#[test]
fn empty_grid_is_invalid() {
    assert!(matches!(a_star(0, 3, pt(0, 0), pt(0, 0), vec![]), Err(SearchError::InvalidInput)));
    assert!(matches!(a_star(3, 0, pt(0, 0), pt(0, 0), vec![]), Err(SearchError::InvalidInput)));
}

#[test]
fn start_or_end_outside_is_invalid() {
    assert!(matches!(a_star(3, 3, pt(-1, 0), pt(2, 2), vec![]), Err(SearchError::InvalidInput)));
    assert!(matches!(a_star(3, 3, pt(0, 3), pt(2, 2), vec![]), Err(SearchError::InvalidInput)));
    assert!(matches!(a_star(3, 3, pt(0, 0), pt(3, 2), vec![]), Err(SearchError::InvalidInput)));
    assert!(matches!(a_star(3, 3, pt(0, 0), pt(2, -1), vec![]), Err(SearchError::InvalidInput)));
}

#[test]
fn start_or_end_on_a_wall_is_invalid() {
    assert!(matches!(
        a_star(3, 3, pt(0, 0), pt(2, 2), vec![pt(0, 0)]),
        Err(SearchError::InvalidInput)
    ));
    assert!(matches!(
        a_star(3, 3, pt(0, 0), pt(2, 2), vec![pt(2, 2)]),
        Err(SearchError::InvalidInput)
    ));
}

#[test]
fn oversized_grid_is_invalid() {
    assert!(matches!(
        a_star(65536, 65536, pt(0, 0), pt(1, 0), vec![]),
        Err(SearchError::InvalidInput)
    ));
    assert!(!grid_searchable(65536, 65536));
    assert!(!grid_searchable(usize::MAX, 1));
    assert!(!grid_searchable(1, usize::MAX));
    assert!(grid_searchable(1, 1));
    assert!(grid_searchable(1000, 1000));
    // 46340 * 46340 + 2 * 46340 = 2147488280 is above i32::MAX = 2147483647
    assert!(!grid_searchable(46340, 46340));
    // 46339 * 46339 + 2 * 46339 = 2147395599
    assert!(grid_searchable(46339, 46339));
}

#[test]
fn repeated_calls_agree() {
    let walls = vec![pt(1, 1), pt(2, 1), pt(3, 1), pt(1, 3)];
    let a = found(5, 5, pt(0, 0), pt(4, 4), walls.clone());
    let b = found(5, 5, pt(0, 0), pt(4, 4), walls);
    assert_eq!(a.pos, b.pos);
    assert_eq!(a.parent, b.parent);
    assert_eq!(a.g, b.g);
    assert_eq!(a.h, b.h);
    assert_eq!(a.f, b.f);
}

#[test]
fn wall_order_and_duplicates_do_not_matter() {
    let a = found(4, 4, pt(0, 0), pt(3, 0), vec![pt(1, 0), pt(2, 1)]);
    let b = found(4, 4, pt(0, 0), pt(3, 0), vec![pt(2, 1), pt(1, 0), pt(2, 1)]);
    assert_eq!((a.pos, a.parent, a.g, a.h, a.f), (b.pos, b.parent, b.g, b.h, b.f));
}

#[test]
fn open_grid_cost_is_manhattan_distance() {
    let cases = [
        (pt(0, 0), pt(4, 4)),
        (pt(4, 4), pt(0, 0)),
        (pt(2, 3), pt(2, 0)),
        (pt(4, 0), pt(0, 3)),
        (pt(1, 1), pt(3, 2)),
    ];
    for (start, end) in cases {
        let node = found(5, 5, start, end, vec![]);
        let d = (start.x - end.x).abs() + (start.y - end.y).abs();
        assert_eq!(node.g, d);
        assert_eq!(node.pos, end);
        assert_eq!(node.f, node.g + node.h);
    }
}

#[test]
fn last_of_equal_candidates_is_taken() {
    // Every node of this search has f == 4; the last one added is taken each
    // time, so the walk goes down the left edge first.
    let node = found(3, 3, pt(0, 0), pt(2, 2), vec![]);
    assert_eq!(node.g, 4);
    assert_eq!(node.parent, Some(pt(1, 2)));
}

#[test]
fn select_best_takes_last_of_least_f() {
    let end = pt(0, 0);
    let mk = |x: i32, y: i32| Node::new(pt(x, y), None, &end);
    let open = vec![mk(3, 0), mk(1, 0), mk(2, 0), mk(0, 1), mk(5, 5)];
    assert_eq!(select_best(&open), 3);
    let open = vec![mk(1, 0)];
    assert_eq!(select_best(&open), 0);
    let open = vec![mk(1, 0), mk(2, 0), mk(3, 0)];
    assert_eq!(select_best(&open), 0);
}

#[test]
fn visit_adds_only_new_free_cells() {
    let end = pt(2, 2);
    let best = Node::new(pt(1, 1), None, &end);
    let closed = vec![best];
    let walls = vec![pt(1, 0)];
    let mut open: Vec<Node> = vec![Node::new(pt(0, 1), None, &end)];
    visit(&mut open, &closed, &best, &Dirs::N, 3, 3, &end, &walls);
    assert_eq!(open.len(), 1);
    visit(&mut open, &closed, &best, &Dirs::W, 3, 3, &end, &walls);
    assert_eq!(open.len(), 1);
    visit(&mut open, &closed, &best, &Dirs::E, 3, 3, &end, &walls);
    assert_eq!(open.len(), 2);
    assert_eq!(open[1].pos, pt(2, 1));
    assert_eq!(open[1].parent, Some(pt(1, 1)));
    assert_eq!(open[1].g, 1);
    assert_eq!(open[1].h, 1);
    assert_eq!(open[1].f, 2);
    visit(&mut open, &closed, &best, &Dirs::E, 3, 3, &end, &walls);
    assert_eq!(open.len(), 2);
    let corner = Node::new(pt(0, 0), None, &end);
    let closed = vec![corner];
    let mut open: Vec<Node> = Vec::new();
    visit(&mut open, &closed, &corner, &Dirs::N, 3, 3, &end, &vec![]);
    visit(&mut open, &closed, &corner, &Dirs::W, 3, 3, &end, &vec![]);
    assert!(open.is_empty());
    visit(&mut open, &closed, &corner, &Dirs::S, 3, 3, &end, &vec![]);
    assert_eq!(open.len(), 1);
    assert_eq!(open[0].pos, pt(0, 1));
}

#[test]
fn membership_helpers() {
    let end = pt(0, 0);
    let nodes = vec![Node::new(pt(1, 2), None, &end), Node::new(pt(3, 4), None, &end)];
    assert_eq!(find(&nodes, &pt(3, 4)), Some(1));
    assert_eq!(find(&nodes, &pt(1, 2)), Some(0));
    assert_eq!(find(&nodes, &pt(2, 1)), None);
    assert!(holds(&nodes, &pt(3, 4)));
    assert!(!holds(&nodes, &pt(4, 3)));
    assert!(!holds(&Vec::new(), &pt(0, 0)));
    let walls = vec![pt(1, 1), pt(1, 1), pt(0, 2)];
    assert!(is_wall(&walls, &pt(0, 2)));
    assert!(!is_wall(&walls, &pt(2, 0)));
    assert!(is_free_cell(&pt(0, 0), 3, 3, &walls));
    assert!(!is_free_cell(&pt(1, 1), 3, 3, &walls));
    assert!(!is_free_cell(&pt(3, 0), 3, 3, &walls));
    assert!(!is_free_cell(&pt(0, -1), 3, 3, &walls));
}

fn pts(cells: &[(i32, i32)]) -> Vec<Point> {
    cells.iter().map(|c| pt(c.0, c.1)).collect()
}

fn check_walk(route: &[Point], width: i32, height: i32, walls: &[Point]) {
    for p in route {
        assert!(0 <= p.x && p.x < width && 0 <= p.y && p.y < height);
        assert!(!walls.contains(p));
    }
    for pair in route.windows(2) {
        assert_eq!((pair[0].x - pair[1].x).abs() + (pair[0].y - pair[1].y).abs(), 1);
    }
}

#[test]
fn straight_line_route() {
    let route = a_star_route(5, 5, pt(0, 0), pt(4, 0), vec![]).unwrap();
    assert_eq!(route, pts(&[(0, 0), (1, 0), (2, 0), (3, 0), (4, 0)]));
}

#[test]
fn detour_route_avoids_the_walls() {
    let walls = vec![pt(1, 0), pt(1, 1)];
    let route = a_star_route(3, 3, pt(0, 0), pt(2, 0), walls.clone()).unwrap();
    assert_eq!(route, pts(&[(0, 0), (0, 1), (0, 2), (1, 2), (2, 2), (2, 1), (2, 0)]));
    assert!(route.len() - 1 > 2);
    check_walk(&route, 3, 3, &walls);
}

#[test]
fn single_cell_route() {
    let route = a_star_route(1, 1, pt(0, 0), pt(0, 0), vec![]).unwrap();
    assert_eq!(route, pts(&[(0, 0)]));
}

#[test]
fn route_errors_are_those_of_the_search() {
    assert_eq!(
        a_star_route(3, 3, pt(0, 1), pt(2, 1), vec![pt(1, 0), pt(1, 1), pt(1, 2)]),
        Err(SearchError::NoPath)
    );
    assert_eq!(a_star_route(3, 3, pt(0, 1), pt(3, 1), vec![]), Err(SearchError::InvalidInput));
}

#[test]
fn routes_stay_on_free_cells() {
    let walls = vec![pt(1, 1), pt(2, 1), pt(3, 1), pt(1, 3), pt(3, 3), pt(3, 4)];
    let route = a_star_route(5, 5, pt(0, 0), pt(4, 4), walls.clone()).unwrap();
    assert_eq!(route[0], pt(0, 0));
    assert_eq!(route[route.len() - 1], pt(4, 4));
    check_walk(&route, 5, 5, &walls);
    let node = a_star(5, 5, pt(0, 0), pt(4, 4), walls).unwrap();
    assert_eq!(route.len() as i32, node.g + 1);
    assert_eq!(node.parent, Some(route[route.len() - 2]));
}

#[test]
fn first_cost_found_for_a_cell_stands() {
    // The shortest walk has 5 moves. The search reaches (1, 2) by way of
    // column 0 first and keeps that cost when it later finds the cell again.
    let walls = vec![pt(0, 1)];
    let node = found(2, 5, pt(1, 4), pt(0, 0), walls.clone());
    assert_eq!(node.g, 7);
    assert_eq!(node.parent, Some(pt(1, 0)));
    let route = a_star_route(2, 5, pt(1, 4), pt(0, 0), walls).unwrap();
    assert_eq!(
        route,
        pts(&[(1, 4), (0, 4), (0, 3), (0, 2), (1, 2), (1, 1), (1, 0), (0, 0)])
    );
}

#[test]
fn search_gives_the_closed_list() {
    let out = search(3, 3, pt(0, 0), pt(2, 2), &vec![]).unwrap();
    assert_eq!(out.node.pos, pt(2, 2));
    assert_eq!(out.node.g, 4);
    let closed: Vec<Point> = out.closed.iter().map(|n| n.pos).collect();
    assert_eq!(closed, pts(&[(0, 0), (0, 1), (0, 2), (1, 2)]));
    for (i, n) in out.closed.iter().enumerate() {
        assert_eq!(n.g, i as i32);
        assert_eq!(n.f, n.g + n.h);
        assert_eq!(n.h, (n.pos.x - 2).abs() + (n.pos.y - 2).abs());
    }
}

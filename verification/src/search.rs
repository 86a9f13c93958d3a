//! The search itself.

use vstd::prelude::*;
use crate::point::{Point, manhattan};
use crate::node::Node;
use crate::dirs::Dirs;
use crate::grid::{
    in_grid, free_cell, adjacent, is_route, joins, reachable, searchable, valid_query, cells,
    lemma_cells,
};
use crate::frontier::{
    has_pos, discovered, is_best, neighbour, is_trace, node_ok, linked, traceable, frontier_ok,
    expanded, all_expanded, grown, lead, lemma_has_pos_push, lemma_adjacent_is_neighbour,
    lemma_linked_first, lemma_linked_means, lemma_grown_keeps, lemma_close_keeps,
    lemma_close_keeps_expanded, lemma_some_move_nears, lemma_covered,
};
use crate::chase::{chase, lemma_best_is_lead, lemma_chase_start, lemma_chase_step};
use crate::model::{
    lemma_best_unique, expand, settle, initial, search_lists, search_result, ancestor, walked,
};

verus! {

/// Why a search gave no node.
#[derive(PartialEq, Eq, Structural, Clone, Copy, Debug)]
pub enum SearchError {
    /// The grid cannot be searched, or `start` or `end` is not a free cell of
    /// it.
    InvalidInput,
    /// No walk over free cells leads from `start` to `end`.
    NoPath,
}

/// Whether a grid of `width` by `height` cells can be searched.
pub fn grid_searchable(width: usize, height: usize) -> (ok: bool)
    ensures
        ok == searchable(width, height),
{
    if width == 0 || height == 0 {
        return false;
    }
    if width > 0x7fff_ffff || height > 0x7fff_ffff {
        assert(width * height + width + height > i32::MAX) by (nonlinear_arith)
            requires
                width > 0,
                height > 0,
                width > 0x7fff_ffff || height > 0x7fff_ffff,
        ;
        return false;
    }
    let w: u64 = width as u64;
    let h: u64 = height as u64;
    assert(w * h <= 0x7fff_ffff * 0x7fff_ffff) by (nonlinear_arith)
        requires
            0 < w <= 0x7fff_ffff,
            0 < h <= 0x7fff_ffff,
    ;
    w * h + w + h <= 0x7fff_ffff
}

/// Whether a wall stands on the cell `p`.
pub fn is_wall(walls: &Vec<Point>, p: &Point) -> (hit: bool)
    ensures
        hit == walls@.contains(*p),
{
    let mut i: usize = 0;
    while i < walls.len()
        invariant
            i <= walls.len(),
            forall|j: int| 0 <= j < i ==> walls@[j] != *p,
        decreases walls.len() - i,
    {
        if walls[i] == *p {
            return true;
        }
        i += 1;
    }
    false
}

/// Whether `p` is a cell of the grid that no wall stands on.
pub fn is_free_cell(p: &Point, width: usize, height: usize, walls: &Vec<Point>) -> (free: bool)
    ensures
        free == free_cell(*p, width, height, walls@),
{
    p.x >= 0 && p.y >= 0 && (p.x as usize) < width && (p.y as usize) < height && !is_wall(walls, p)
}

/// The place in `nodes` of a node that stands on the cell `p`, if there is
/// one.
pub fn find(nodes: &Vec<Node>, p: &Point) -> (at: Option<usize>)
    ensures
        at is Some <==> has_pos(nodes@, *p),
        at matches Some(j) ==> j < nodes.len() && nodes@[j as int].pos == *p && forall|i: int|
            0 <= i < j ==> (#[trigger] nodes@[i]).pos != *p,
{
    let mut i: usize = 0;
    while i < nodes.len()
        invariant
            i <= nodes.len(),
            forall|j: int| 0 <= j < i ==> (#[trigger] nodes@[j]).pos != *p,
        decreases nodes.len() - i,
    {
        if nodes[i].pos == *p {
            return Some(i);
        }
        i += 1;
    }
    None
}

/// Whether some node of `nodes` stands on the cell `p`.
pub fn holds(nodes: &Vec<Node>, p: &Point) -> (found: bool)
    ensures
        found == has_pos(nodes@, *p),
{
    find(nodes, p).is_some()
}

/// The place in `open` of the node to take next: the last of those with the
/// least `f`.
pub fn select_best(open: &Vec<Node>) -> (k: usize)
    requires
        open.len() > 0,
    ensures
        is_best(open@, k as int),
{
    let mut k: usize = 0;
    let mut i: usize = 1;
    while i < open.len()
        invariant
            k < i <= open.len(),
            forall|j: int| 0 <= j < i ==> open@[k as int].f <= (#[trigger] open@[j]).f,
            forall|j: int| k < j < i ==> open@[k as int].f < (#[trigger] open@[j]).f,
        decreases open.len() - i,
    {
        if open[i].f <= open[k].f {
            k = i;
        }
        i += 1;
    }
    k
}

/// Looks from `best` in the direction `dir`: the cell there gets a node at
/// the end of `open` if it is a free cell that neither list holds yet.
pub fn visit(
    open: &mut Vec<Node>,
    closed: &Vec<Node>,
    best: &Node,
    dir: &Dirs,
    width: usize,
    height: usize,
    end: &Point,
    walls: &Vec<Point>,
)
    requires
        searchable(width, height),
        in_grid(best.pos, width, height),
        in_grid(*end, width, height),
        0 <= best.g < width * height,
    ensures
        final(open)@ == grown(old(open)@, closed@, *best, *dir, width, height, *end, walls@),
{
    let direction = Dirs::get(dir);
    let next = Point::add(&best.pos, &direction);
    assert(next == neighbour(best.pos, *dir));
    assert(manhattan(next, *end) <= width + height);
    let successor = Node::new(next, Some(*best), end);
    if !is_free_cell(&next, width, height, walls) {
        return;
    }
    if !holds(open, &next) && !holds(closed, &next) {
        open.push(successor);
    }
}

/// What a search found: the node that stands on `end`, and the closed list,
/// which holds the node of every cell on the walk to it but the last.
#[derive(Clone, Debug)]
pub struct Found {
    pub node: Node,
    pub closed: Vec<Node>,
}

/// The node of a search's result, or its error.
pub open spec fn node_of(res: Result<Found, SearchError>) -> Result<Node, SearchError> {
    match res {
        Ok(found) => Ok(found.node),
        Err(e) => Err(e),
    }
}

/// Searches the grid of `width` by `height` cells for a walk from `start` to
/// `end` that avoids `walls`, and gives the node that stands on `end` with
/// the closed list.
///
/// The search keeps an open list, at first the node of `start` alone, and a
/// closed list. It takes from the open list the last of the nodes with the
/// least `f`, until that node stands on `end`; a node taken before is closed,
/// and the free cells north, east, south and west of it, in that order, join
/// the open list unless a list holds them already. A cell keeps the cost it
/// was first found with.
///
/// The result is a function of what is asked, `search_result`. It is
/// `InvalidInput` exactly where the grid cannot be searched or `start` or
/// `end` is not a free cell, and `NoPath` exactly where no walk over free
/// cells joins the two. The node given stands on `end`, its `h` is the
/// Manhattan distance to `end` and its `f` the sum of `g` and `h`, and a walk
/// of `g` moves over free cells of the grid leads from `start` to it, the last
/// from its parent. In a grid without walls, `g` is the Manhattan distance
/// from `start` to `end`.
#[verifier::rlimit(50)]
pub fn search(width: usize, height: usize, start: Point, end: Point, walls: &Vec<Point>) -> (res:
    Result<Found, SearchError>)
    ensures
        node_of(res) == search_result(width, height, start, end, walls@),
        res is Ok <==> valid_query(width, height, start, end, walls@) && reachable(
            start,
            end,
            width,
            height,
            walls@,
        ),
        res == Err::<Found, SearchError>(SearchError::InvalidInput) <==> !valid_query(
            width,
            height,
            start,
            end,
            walls@,
        ),
        res == Err::<Found, SearchError>(SearchError::NoPath) <==> valid_query(
            width,
            height,
            start,
            end,
            walls@,
        ) && !reachable(start, end, width, height, walls@),
        res matches Ok(found) ==> found.node.pos == end && found.node.scored(end)
            && exists|route: Seq<Point>|
            is_trace(route, found.node, start, width, height, walls@),
        res matches Ok(found) ==> traceable(found.closed@, found.node, width, height, start, walls@),
        res matches Ok(found) ==> found.closed@ == search_lists(width, height, start, end, walls@).1,
        res matches Ok(found) ==> forall|i: int|
            0 <= i < found.closed.len() ==> (#[trigger] found.closed@[i]).scored(end),
        res matches Ok(found) ==> walls@.len() == 0 ==> found.node.g == manhattan(start, end),
{
    if !grid_searchable(width, height) || !is_free_cell(&start, width, height, walls)
        || !is_free_cell(&end, width, height, walls) {
        return Err(SearchError::InvalidInput);
    }
    let dirs = Dirs::iter();
    let mut open: Vec<Node> = Vec::new();
    let mut closed: Vec<Node> = Vec::new();
    assert(manhattan(start, end) <= width + height);
    let first = Node::new(start, None, &end);
    open.push(first);
    let ghost mut rest: Set<Point> = cells(width as int, height as int);
    let ghost total: int = manhattan(start, end);
    let ghost mut lead_at: int = 0;
    proof {
        lemma_cells(width as int, height as int);
        let route = seq![start];
        assert(is_trace(route, first, start, width, height, walls@));
        assert(node_ok(first, width, height, start, end, walls@));
        lemma_linked_first(closed@, first, start);
        assert(open@[0] == first);
        assert(has_pos(open@, start));
        assert(open@ == initial(start, end));
        assert(closed@ == Seq::<Node>::empty());
    }
    loop
        invariant
            valid_query(width, height, start, end, walls@),
            dirs.len() == 4,
            forall|k: int| 0 <= k < 4 ==> #[trigger] dirs[k] == Dirs::of(k),
            frontier_ok(open@, closed@, width, height, start, end, walls@),
            all_expanded(open@, closed@, closed.len() as int, width, height, walls@),
            rest.finite(),
            closed.len() + rest.len() == width * height,
            forall|p: Point| in_grid(p, width, height) && !has_pos(closed@, p) ==> rest.contains(p),
            total == manhattan(start, end),
            walls@.len() == 0 ==> lead(open@, lead_at, total, closed.len() as int),
            search_lists(width, height, start, end, walls@) == settle(
                open@,
                closed@,
                rest.len(),
                width,
                height,
                end,
                walls@,
            ),
        decreases rest.len(),
    {
        if open.len() == 0 {
            proof {
                assert(open@ =~= Seq::<Node>::empty());
                assert forall|route: Seq<Point>|
                    !joins(route, start, end, width, height, walls@) by {
                    if joins(route, start, end, width, height, walls@) {
                        lemma_covered(closed@, route, route.len() - 1, width, height, walls@);
                        let j = choose|j: int|
                            0 <= j < closed.len() && (#[trigger] closed@[j]).pos == end;
                        assert(closed@[j].pos != end);
                    }
                }
            }
            return Err(SearchError::NoPath);
        }
        let k = select_best(&open);
        let ghost before = open@;
        let best = open.remove(k);
        assert(node_ok(before[k as int], width, height, start, end, walls@));
        proof {
            lemma_best_unique(before, k as int);
            if walls@.len() == 0 {
                lemma_best_is_lead(
                    before,
                    closed@,
                    k as int,
                    lead_at,
                    width,
                    height,
                    start,
                    end,
                    walls@,
                );
            }
        }
        if best.pos == end {
            proof {
                let route = choose|route: Seq<Point>|
                    is_trace(route, best, start, width, height, walls@);
                assert(joins(route, start, end, width, height, walls@));
            }
            return Ok(Found { node: best, closed });
        }
        proof {
            lemma_close_keeps(before, closed@, k as int, width, height, start, end, walls@);
            lemma_close_keeps_expanded(before, closed@, k as int, width, height, walls@);
            lemma_has_pos_push(closed@, best, best.pos);
            assert forall|p: Point|
                in_grid(p, width, height) && !has_pos(closed@.push(best), p) implies rest.remove(
                best.pos,
            ).contains(p) by {
                lemma_has_pos_push(closed@, best, p);
            }
            assert(rest.contains(best.pos));
            if walls@.len() == 0 {
                lemma_chase_start(before, closed@, k as int, width, height, start, end, walls@);
            }
            rest = rest.remove(best.pos);
        }
        closed.push(best);
        let ghost taken = open@;
        let ghost mut found: bool = false;
        proof {
            lead_at = 0;
        }
        let mut d: usize = 0;
        while d < 4
            invariant
                d <= 4,
                valid_query(width, height, start, end, walls@),
                dirs.len() == 4,
                forall|k: int| 0 <= k < 4 ==> #[trigger] dirs[k] == Dirs::of(k),
                frontier_ok(open@, closed@, width, height, start, end, walls@),
                closed.len() > 0,
                best == closed@.last(),
                best.g < closed.len(),
                closed.len() <= width * height,
                all_expanded(open@, closed@, closed.len() - 1, width, height, walls@),
                forall|k: int|
                    0 <= k < d && free_cell(
                        neighbour(best.pos, #[trigger] Dirs::of(k)),
                        width,
                        height,
                        walls@,
                    ) ==> discovered(open@, closed@, neighbour(best.pos, Dirs::of(k))),
                open@ == expand(taken, closed@, best, d as nat, width, height, end, walls@),
                total == manhattan(start, end),
                walls@.len() == 0 ==> chase(
                    open@,
                    closed@,
                    best,
                    d as int,
                    taken.len() as int,
                    k as int,
                    found,
                    lead_at,
                    total,
                    end,
                ),
            decreases 4 - d,
        {
            let ghost prev = open@;
            assert(node_ok(closed@[closed.len() - 1], width, height, start, end, walls@));
            visit(&mut open, &closed, &best, &dirs[d], width, height, &end, walls);
            proof {
                if walls@.len() == 0 {
                    lemma_chase_step(
                        prev,
                        closed@,
                        best,
                        d as int,
                        taken.len() as int,
                        k as int,
                        found,
                        lead_at,
                        width,
                        height,
                        start,
                        end,
                        walls@,
                    );
                    if manhattan(neighbour(best.pos, Dirs::of(d as int)), end) < best.h {
                        found = true;
                        lead_at = prev.len() as int;
                    }
                }
                lemma_grown_keeps(
                    prev,
                    closed@,
                    best,
                    Dirs::of(d as int),
                    width,
                    height,
                    start,
                    end,
                    walls@,
                );
                assert forall|i: int| 0 <= i < closed.len() - 1 implies expanded(
                    open@,
                    closed@,
                    (#[trigger] closed@[i]).pos,
                    width,
                    height,
                    walls@,
                ) by {
                    assert(expanded(prev, closed@, closed@[i].pos, width, height, walls@));
                }
            }
            d += 1;
        }
        proof {
            assert forall|p: Point| #[trigger]
                adjacent(best.pos, p) && free_cell(p, width, height, walls@) implies discovered(
                open@,
                closed@,
                p,
            ) by {
                lemma_adjacent_is_neighbour(best.pos, p);
            }
            assert(expanded(open@, closed@, closed@[closed.len() - 1].pos, width, height, walls@));
            if walls@.len() == 0 {
                lemma_some_move_nears(best.pos, end, width, height);
            }
        }
    }
}

/// Searches the grid of `width` by `height` cells for a walk from `start` to
/// `end` that avoids `walls`, and gives the node that stands on `end`.
///
/// The result is a function of what is asked, `search_result`. It is
/// `InvalidInput` exactly where the grid cannot be searched or `start` or
/// `end` is not a free cell, and `NoPath` exactly where no walk over free
/// cells joins the two. The node given stands on `end`, its `h` is the
/// Manhattan distance to `end` and its `f` the sum of `g` and `h`, and a walk
/// of `g` moves over free cells of the grid leads from `start` to it, the last
/// from its parent. In a grid without walls, `g` is the Manhattan distance
/// from `start` to `end`.
pub fn a_star(width: usize, height: usize, start: Point, end: Point, walls: Vec<Point>) -> (res:
    Result<Node, SearchError>)
    ensures
        res == search_result(width, height, start, end, walls@),
        res is Ok <==> valid_query(width, height, start, end, walls@) && reachable(
            start,
            end,
            width,
            height,
            walls@,
        ),
        res == Err::<Node, SearchError>(SearchError::InvalidInput) <==> !valid_query(
            width,
            height,
            start,
            end,
            walls@,
        ),
        res == Err::<Node, SearchError>(SearchError::NoPath) <==> valid_query(
            width,
            height,
            start,
            end,
            walls@,
        ) && !reachable(start, end, width, height, walls@),
        res matches Ok(node) ==> node.pos == end && node.scored(end) && exists|route: Seq<Point>|
            is_trace(route, node, start, width, height, walls@),
        res matches Ok(node) ==> walls@.len() == 0 ==> node.g == manhattan(start, end),
{
    match search(width, height, start, end, &walls) {
        Ok(found) => Ok(found.node),
        Err(e) => Err(e),
    }
}

/// The walk from `start` to `node`, read off the closed list from parent to
/// parent.
#[verifier::rlimit(50)]
fn trace_back(
    node: &Node,
    closed: &Vec<Node>,
    Ghost(width): Ghost<usize>,
    Ghost(height): Ghost<usize>,
    Ghost(start): Ghost<Point>,
    Ghost(walls): Ghost<Seq<Point>>,
) -> (route: Vec<Point>)
    requires
        traceable(closed@, *node, width, height, start, walls),
    ensures
        is_trace(route@, *node, start, width, height, walls),
        walked(route@, closed@, *node),
{
    let mut back: Vec<Point> = Vec::new();
    back.push(node.pos);
    let mut cur: Node = *node;
    proof {
        lemma_linked_means(closed@, cur, start);
    }
    while cur.g > 0
        invariant
            traceable(closed@, *node, width, height, start, walls),
            linked(closed@, cur, start),
            0 <= cur.g <= node.g,
            back.len() == node.g - cur.g + 1,
            back@[0] == node.pos,
            back@[back.len() - 1] == cur.pos,
            forall|i: int| 0 <= i < back.len() ==> free_cell(#[trigger] back@[i], width, height, walls),
            forall|i: int| 0 <= i < back.len() - 1 ==> adjacent(back@[i + 1], #[trigger] back@[i]),
            cur == ancestor(closed@, *node, (back.len() - 1) as nat),
            forall|i: int|
                0 <= i < back.len() ==> #[trigger] back@[i] == ancestor(closed@, *node, i as nat).pos,
            back.len() > 1 ==> node.parent == Some(back@[1]),
        decreases cur.g,
    {
        proof {
            lemma_linked_means(closed@, cur, start);
        }
        let ghost w = choose|j: int|
            0 <= j < closed.len() && cur.parent == Some((#[trigger] closed@[j]).pos) && closed@[j].g
                == cur.g - 1 && adjacent(closed@[j].pos, cur.pos);
        let at: Option<usize> = match cur.parent {
            Some(p) => find(closed, &p),
            None => None,
        };
        match at {
            Some(j) => {
                assert(j == w) by {
                    if j < w {
                        assert(closed@[j as int].pos != closed@[w].pos);
                    }
                    if w < j {
                        assert(closed@[w].pos != closed@[j as int].pos);
                    }
                }
                let ghost before = back@;
                let ghost pick = choose|i: int|
                    0 <= i < closed.len() && cur.parent == Some(closed@[i].pos);
                assert(pick == w) by {
                    if pick < w {
                        assert(closed@[pick].pos != closed@[w].pos);
                    }
                    if w < pick {
                        assert(closed@[w].pos != closed@[pick].pos);
                    }
                }
                assert(ancestor(closed@, *node, before.len() as nat) == closed@[w]);
                cur = closed[j];
                back.push(cur.pos);
                assert forall|i: int| 0 <= i < back.len() - 1 implies adjacent(
                    back@[i + 1],
                    #[trigger] back@[i],
                ) by {
                    if i < before.len() - 1 {
                        assert(adjacent(before[i + 1], before[i]));
                    }
                }
            },
            None => {
                assert(closed@[w].pos == cur.parent->0);
                assert(false);
                return back;
            },
        }
    }
    proof {
        lemma_linked_means(closed@, cur, start);
    }
    let mut route: Vec<Point> = Vec::new();
    let mut i: usize = back.len();
    while i > 0
        invariant
            i <= back.len(),
            route.len() == back.len() - i,
            forall|j: int| 0 <= j < route.len() ==> #[trigger] route@[j] == back@[back.len() - 1 - j],
        decreases i,
    {
        i -= 1;
        route.push(back[i]);
    }
    proof {
        let n = back.len() as int;
        assert forall|j: int| 0 <= j < route.len() implies free_cell(
            #[trigger] route@[j],
            width,
            height,
            walls,
        ) by {
            assert(free_cell(back@[n - 1 - j], width, height, walls));
        }
        assert forall|j: int| 0 <= j < route.len() - 1 implies adjacent(
            #[trigger] route@[j],
            route@[j + 1],
        ) by {
            assert(adjacent(back@[(n - 2 - j) + 1], back@[n - 2 - j]));
        }
        assert(is_route(route@, width, height, walls));
        assert forall|j: int| 0 <= j < route.len() implies #[trigger] route@[j] == ancestor(
            closed@,
            *node,
            (node.g - j) as nat,
        ).pos by {
            assert(back@[n - 1 - j] == ancestor(closed@, *node, (n - 1 - j) as nat).pos);
        }
    }
    route
}

/// Searches as `a_star` does, and gives the walk from `start` to `end` that
/// the search found, cell by cell, in place of the last node alone.
pub fn a_star_route(width: usize, height: usize, start: Point, end: Point, walls: Vec<Point>) -> (res:
    Result<Vec<Point>, SearchError>)
    ensures
        res is Ok <==> valid_query(width, height, start, end, walls@) && reachable(
            start,
            end,
            width,
            height,
            walls@,
        ),
        res matches Ok(route) ==> search_result(width, height, start, end, walls@) is Ok
            && is_trace(
            route@,
            search_result(width, height, start, end, walls@)->Ok_0,
            start,
            width,
            height,
            walls@,
        ) && walked(
            route@,
            search_lists(width, height, start, end, walls@).1,
            search_result(width, height, start, end, walls@)->Ok_0,
        ),
        res matches Err(e) ==> search_result(width, height, start, end, walls@) == Err::<
            Node,
            SearchError,
        >(e),
{
    match search(width, height, start, end, &walls) {
        Ok(found) => Ok(
            trace_back(
                &found.node,
                &found.closed,
                Ghost(width),
                Ghost(height),
                Ghost(start),
                Ghost(walls@),
            ),
        ),
        Err(e) => Err(e),
    }
}

} // verus!

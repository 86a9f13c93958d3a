//! What holds of the open and closed lists while a search runs.

use vstd::prelude::*;
use crate::point::{Point, manhattan};
use crate::node::Node;
use crate::dirs::Dirs;
use crate::grid::{in_grid, free_cell, adjacent, is_route, joins, searchable};

verus! {

/// Whether some node of `nodes` stands on the cell `p`.
pub open spec fn has_pos(nodes: Seq<Node>, p: Point) -> bool {
    exists|j: int| 0 <= j < nodes.len() && (#[trigger] nodes[j]).pos == p
}

/// Whether a node stands on `p` in one of the two lists.
pub open spec fn discovered(open: Seq<Node>, closed: Seq<Node>, p: Point) -> bool {
    has_pos(open, p) || has_pos(closed, p)
}

/// Whether `k` is the place of the node that a search takes from `open`
/// next: the last of those with the least `f`.
pub open spec fn is_best(open: Seq<Node>, k: int) -> bool {
    &&& 0 <= k < open.len()
    &&& forall|j: int| 0 <= j < open.len() ==> open[k].f <= (#[trigger] open[j]).f
    &&& forall|j: int| k < j < open.len() ==> open[k].f < (#[trigger] open[j]).f
}

/// The cell one move from `pos` in the direction `dir`.
pub open spec fn neighbour(pos: Point, dir: Dirs) -> Point {
    Point { x: (pos.x + dir.offset().x) as i32, y: (pos.y + dir.offset().y) as i32 }
}

/// Whether `route` is the walk by which `node` was reached from `start`: it
/// ends on the node's cell, has one cell more than `g` counts moves, and its
/// last cell but one is the node's parent.
pub open spec fn is_trace(
    route: Seq<Point>,
    node: Node,
    start: Point,
    width: usize,
    height: usize,
    walls: Seq<Point>,
) -> bool {
    &&& joins(route, start, node.pos, width, height, walls)
    &&& route.len() == node.g + 1
    &&& node.g == 0 ==> node.parent is None
    &&& node.g > 0 ==> node.parent == Some(route[node.g - 1])
}

/// Whether `node` is a node that a search for `end` from `start` may hold.
pub open spec fn node_ok(
    node: Node,
    width: usize,
    height: usize,
    start: Point,
    end: Point,
    walls: Seq<Point>,
) -> bool {
    &&& free_cell(node.pos, width, height, walls)
    &&& node.scored(end)
    &&& manhattan(start, node.pos) <= node.g
    &&& exists|route: Seq<Point>| is_trace(route, node, start, width, height, walls)
}

/// Whether `node` hangs on the closed list: the node of `start` has no
/// parent and no cost, and any other has as parent the cell of a closed node
/// one move away, with one move less.
#[verifier::opaque]
pub open spec fn linked(closed: Seq<Node>, node: Node, start: Point) -> bool {
    &&& node.g >= 0
    &&& node.g == 0 ==> node.parent is None && node.pos == start
    &&& node.g > 0 ==> exists|j: int|
        0 <= j < closed.len() && node.parent == Some((#[trigger] closed[j]).pos) && closed[j].g
            == node.g - 1 && adjacent(closed[j].pos, node.pos)
}

/// A node that hangs on the closed list still does when the list grows.
pub proof fn lemma_linked_push(closed: Seq<Node>, extra: Node, node: Node, start: Point)
    requires
        linked(closed, node, start),
    ensures
        linked(closed.push(extra), node, start),
{
    reveal(linked);
    if node.g > 0 {
        let j = choose|j: int|
            0 <= j < closed.len() && node.parent == Some((#[trigger] closed[j]).pos) && closed[j].g
                == node.g - 1 && adjacent(closed[j].pos, node.pos);
        assert(closed.push(extra)[j] == closed[j]);
    }
}

/// What it means for a node to hang on the closed list.
pub proof fn lemma_linked_means(closed: Seq<Node>, node: Node, start: Point)
    requires
        linked(closed, node, start),
    ensures
        node.g >= 0,
        node.g == 0 ==> node.parent is None && node.pos == start,
        node.g > 0 ==> exists|j: int|
            0 <= j < closed.len() && node.parent == Some((#[trigger] closed[j]).pos) && closed[j].g
                == node.g - 1 && adjacent(closed[j].pos, node.pos),
{
    reveal(linked);
}

/// The node of `start` without a parent hangs on any closed list.
pub proof fn lemma_linked_first(closed: Seq<Node>, node: Node, start: Point)
    requires
        node.g == 0,
        node.parent is None,
        node.pos == start,
    ensures
        linked(closed, node, start),
{
    reveal(linked);
}

/// A node made one move from the node closed last hangs on the closed list.
pub proof fn lemma_linked_child(closed: Seq<Node>, node: Node, start: Point)
    requires
        closed.len() > 0,
        closed.last().g >= 0,
        node.g == closed.last().g + 1,
        node.parent == Some(closed.last().pos),
        adjacent(closed.last().pos, node.pos),
    ensures
        linked(closed, node, start),
{
    reveal(linked);
    assert(node.parent == Some(closed[closed.len() - 1].pos));
}

/// Whether no two nodes of `nodes` stand on one cell.
pub open spec fn distinct(nodes: Seq<Node>) -> bool {
    forall|i: int, j: int|
        0 <= i < j < nodes.len() ==> (#[trigger] nodes[i]).pos != (#[trigger] nodes[j]).pos
}

/// Whether the walk to `node` can be read off the closed list: the node and
/// every closed node stand on free cells and hang on the list, which holds no
/// cell twice.
pub open spec fn traceable(
    closed: Seq<Node>,
    node: Node,
    width: usize,
    height: usize,
    start: Point,
    walls: Seq<Point>,
) -> bool {
    &&& free_cell(node.pos, width, height, walls)
    &&& linked(closed, node, start)
    &&& distinct(closed)
    &&& forall|i: int|
        0 <= i < closed.len() ==> free_cell((#[trigger] closed[i]).pos, width, height, walls)
            && linked(closed, closed[i], start)
}

/// What holds of the two lists throughout a search.
pub open spec fn frontier_ok(
    open: Seq<Node>,
    closed: Seq<Node>,
    width: usize,
    height: usize,
    start: Point,
    end: Point,
    walls: Seq<Point>,
) -> bool {
    &&& forall|i: int|
        0 <= i < open.len() ==> node_ok(#[trigger] open[i], width, height, start, end, walls)
            && open[i].g <= closed.len() && !has_pos(closed, open[i].pos) && linked(
            closed,
            open[i],
            start,
        )
    &&& forall|i: int|
        0 <= i < closed.len() ==> node_ok(#[trigger] closed[i], width, height, start, end, walls)
            && closed[i].g < closed.len() && closed[i].pos != end && linked(
            closed,
            closed[i],
            start,
        )
    &&& distinct(open)
    &&& distinct(closed)
    &&& discovered(open, closed, start)
}

/// Whether every free cell one move from `pos` is discovered.
pub open spec fn expanded(
    open: Seq<Node>,
    closed: Seq<Node>,
    pos: Point,
    width: usize,
    height: usize,
    walls: Seq<Point>,
) -> bool {
    forall|p: Point| #[trigger]
        adjacent(pos, p) && free_cell(p, width, height, walls) ==> discovered(open, closed, p)
}

/// Whether the first `n` nodes of `closed` are expanded.
pub open spec fn all_expanded(
    open: Seq<Node>,
    closed: Seq<Node>,
    n: int,
    width: usize,
    height: usize,
    walls: Seq<Point>,
) -> bool {
    forall|i: int|
        0 <= i < n ==> expanded(open, closed, (#[trigger] closed[i]).pos, width, height, walls)
}

/// Whether the node at `k` in `open` stands `depth` moves from the start on a
/// walk of `total` moves in all, and every node behind it has an `f` above
/// `total`.
pub open spec fn lead(open: Seq<Node>, k: int, total: int, depth: int) -> bool {
    &&& 0 <= k < open.len()
    &&& open[k].f == total
    &&& open[k].g == depth
    &&& forall|j: int| k < j < open.len() ==> (#[trigger] open[j]).f > total
}

/// Whether a search may add the cell `p` to `open`.
pub open spec fn admits(
    open: Seq<Node>,
    closed: Seq<Node>,
    p: Point,
    width: usize,
    height: usize,
    walls: Seq<Point>,
) -> bool {
    free_cell(p, width, height, walls) && !discovered(open, closed, p)
}

/// The open list after a search has looked from `best` in the direction
/// `dir`.
pub open spec fn grown(
    open: Seq<Node>,
    closed: Seq<Node>,
    best: Node,
    dir: Dirs,
    width: usize,
    height: usize,
    end: Point,
    walls: Seq<Point>,
) -> Seq<Node> {
    let p = neighbour(best.pos, dir);
    if admits(open, closed, p, width, height, walls) {
        open.push(Node::made(p, Some(best), end))
    } else {
        open
    }
}

/// A list with one node more holds the cells it held and the cell of that
/// node.
pub proof fn lemma_has_pos_push(nodes: Seq<Node>, node: Node, p: Point)
    ensures
        has_pos(nodes.push(node), p) <==> has_pos(nodes, p) || node.pos == p,
{
    let more = nodes.push(node);
    if has_pos(nodes, p) {
        let j = choose|j: int| 0 <= j < nodes.len() && (#[trigger] nodes[j]).pos == p;
        assert(more[j].pos == p);
    }
    if node.pos == p {
        assert(more[nodes.len() as int].pos == p);
    }
    if has_pos(more, p) {
        let j = choose|j: int| 0 <= j < more.len() && (#[trigger] more[j]).pos == p;
        if j < nodes.len() {
            assert(nodes[j].pos == p);
        }
    }
}

/// A list with one node less holds the cells it held, but for the cell of
/// that node where no other node stands on it.
pub proof fn lemma_has_pos_remove(nodes: Seq<Node>, k: int, p: Point)
    requires
        0 <= k < nodes.len(),
    ensures
        has_pos(nodes, p) <==> has_pos(nodes.remove(k), p) || nodes[k].pos == p,
{
    let less = nodes.remove(k);
    if has_pos(nodes, p) && nodes[k].pos != p {
        let j = choose|j: int| 0 <= j < nodes.len() && (#[trigger] nodes[j]).pos == p;
        if j < k {
            assert(less[j].pos == p);
        } else {
            assert(less[j - 1].pos == p);
        }
    }
    if has_pos(less, p) {
        let j = choose|j: int| 0 <= j < less.len() && (#[trigger] less[j]).pos == p;
        if j < k {
            assert(nodes[j].pos == p);
        } else {
            assert(nodes[j + 1].pos == p);
        }
    }
}

/// A cell one move from `pos` lies in one of the four directions.
pub proof fn lemma_adjacent_is_neighbour(pos: Point, p: Point)
    requires
        adjacent(pos, p),
    ensures
        exists|k: int| 0 <= k < 4 && p == neighbour(pos, #[trigger] Dirs::of(k)),
{
    if p.y == pos.y - 1 {
        assert(p == neighbour(pos, Dirs::of(0)));
    } else if p.x == pos.x + 1 {
        assert(p == neighbour(pos, Dirs::of(1)));
    } else if p.y == pos.y + 1 {
        assert(p == neighbour(pos, Dirs::of(2)));
    } else {
        assert(p == neighbour(pos, Dirs::of(3)));
    }
}

/// Looking in one direction from the node closed last keeps what holds of
/// the two lists, and leaves the cell in that direction discovered if it is
/// free.
#[verifier::rlimit(50)]
pub proof fn lemma_grown_keeps(
    open: Seq<Node>,
    closed: Seq<Node>,
    best: Node,
    dir: Dirs,
    width: usize,
    height: usize,
    start: Point,
    end: Point,
    walls: Seq<Point>,
)
    requires
        frontier_ok(open, closed, width, height, start, end, walls),
        closed.len() > 0,
        best == closed.last(),
        best.g < closed.len(),
        closed.len() <= width * height,
        searchable(width, height),
        in_grid(end, width, height),
    ensures
        frontier_ok(
            grown(open, closed, best, dir, width, height, end, walls),
            closed,
            width,
            height,
            start,
            end,
            walls,
        ),
        forall|q: Point|
            has_pos(open, q) ==> has_pos(
                grown(open, closed, best, dir, width, height, end, walls),
                q,
            ),
        free_cell(neighbour(best.pos, dir), width, height, walls) ==> discovered(
            grown(open, closed, best, dir, width, height, end, walls),
            closed,
            neighbour(best.pos, dir),
        ),
{
    let p = neighbour(best.pos, dir);
    let after = grown(open, closed, best, dir, width, height, end, walls);
    assert(node_ok(closed[closed.len() - 1], width, height, start, end, walls));
    if admits(open, closed, p, width, height, walls) {
        let child = Node::made(p, Some(best), end);
        assert(after == open.push(child));
        assert(manhattan(p, end) <= width + height);
        assert(0 <= best.g);
        assert(child.g == best.g + 1);
        assert(child.h == manhattan(p, end));
        assert(child.f == child.g + child.h);
        assert(adjacent(best.pos, p));
        let route = choose|route: Seq<Point>| is_trace(route, best, start, width, height, walls);
        let longer = route.push(p);
        assert(is_trace(longer, child, start, width, height, walls)) by {
            assert forall|i: int| 0 <= i < longer.len() implies free_cell(
                #[trigger] longer[i],
                width,
                height,
                walls,
            ) by {
                if i < route.len() {
                    assert(longer[i] == route[i]);
                }
            }
            assert forall|i: int| 0 <= i < longer.len() - 1 implies adjacent(
                #[trigger] longer[i],
                longer[i + 1],
            ) by {
                if i < route.len() - 1 {
                    assert(adjacent(route[i], route[i + 1]));
                }
            }
        }
        assert(node_ok(child, width, height, start, end, walls));
        lemma_linked_child(closed, child, start);
        assert forall|q: Point| has_pos(open, q) implies has_pos(after, q) by {
            lemma_has_pos_push(open, child, q);
        }
        lemma_has_pos_push(open, child, p);
        lemma_has_pos_push(open, child, start);
        assert forall|i: int| 0 <= i < after.len() implies node_ok(
            #[trigger] after[i],
            width,
            height,
            start,
            end,
            walls,
        ) && after[i].g <= closed.len() && !has_pos(closed, after[i].pos) && linked(
            closed,
            after[i],
            start,
        ) by {
            if i < open.len() {
                assert(after[i] == open[i]);
            }
        }
        assert(distinct(after)) by {
            assert forall|i: int, j: int| 0 <= i < j < after.len() implies (#[trigger] after[i]).pos
                != (#[trigger] after[j]).pos by {
                assert(after[i] == open[i]);
                if j < open.len() {
                    assert(after[j] == open[j]);
                }
            }
        }
    }
}

/// Moving a node that does not stand on `end` from the open list to the end
/// of the closed list keeps what holds of the two lists.
#[verifier::rlimit(50)]
pub proof fn lemma_close_keeps(
    open: Seq<Node>,
    closed: Seq<Node>,
    k: int,
    width: usize,
    height: usize,
    start: Point,
    end: Point,
    walls: Seq<Point>,
)
    requires
        frontier_ok(open, closed, width, height, start, end, walls),
        0 <= k < open.len(),
        open[k].pos != end,
    ensures
        frontier_ok(open.remove(k), closed.push(open[k]), width, height, start, end, walls),
        !has_pos(open.remove(k), open[k].pos),
{
    let best = open[k];
    let less = open.remove(k);
    let more = closed.push(best);
    assert(discovered(less, more, start)) by {
        lemma_has_pos_remove(open, k, start);
        lemma_has_pos_push(closed, best, start);
    }
    assert forall|i: int| 0 <= i < less.len() implies (#[trigger] less[i]).pos != best.pos
        && node_ok(less[i], width, height, start, end, walls) && less[i].g <= closed.len()
        && !has_pos(more, less[i].pos) && linked(more, less[i], start) by {
        let from = if i < k { i } else { i + 1 };
        assert(less[i] == open[from]);
        if from < k {
            assert(open[from].pos != open[k].pos);
        } else {
            assert(open[k].pos != open[from].pos);
        }
        lemma_linked_push(closed, best, less[i], start);
        lemma_has_pos_push(closed, best, less[i].pos);
    }
    assert forall|i: int| 0 <= i < more.len() implies node_ok(
        #[trigger] more[i],
        width,
        height,
        start,
        end,
        walls,
    ) && more[i].g < more.len() && more[i].pos != end && linked(more, more[i], start) by {
        if i < closed.len() {
            assert(more[i] == closed[i]);
        }
        lemma_linked_push(closed, best, more[i], start);
    }
    assert(distinct(less)) by {
        assert forall|i: int, j: int| 0 <= i < j < less.len() implies (#[trigger] less[i]).pos != (
        #[trigger] less[j]).pos by {
            let a = if i < k { i } else { i + 1 };
            let b = if j < k { j } else { j + 1 };
            assert(less[i] == open[a]);
            assert(less[j] == open[b]);
        }
    }
    assert(distinct(more)) by {
        assert forall|i: int, j: int| 0 <= i < j < more.len() implies (#[trigger] more[i]).pos != (
        #[trigger] more[j]).pos by {
            assert(more[i] == closed[i]);
            if j < closed.len() {
                assert(more[j] == closed[j]);
            }
        }
    }
    if has_pos(less, best.pos) {
        let j = choose|j: int| 0 <= j < less.len() && (#[trigger] less[j]).pos == best.pos;
        assert(less[j].pos != best.pos);
    }
}

/// Moving a node from the open list to the end of the closed list leaves the
/// nodes closed before expanded.
pub proof fn lemma_close_keeps_expanded(
    open: Seq<Node>,
    closed: Seq<Node>,
    k: int,
    width: usize,
    height: usize,
    walls: Seq<Point>,
)
    requires
        all_expanded(open, closed, closed.len() as int, width, height, walls),
        0 <= k < open.len(),
    ensures
        all_expanded(
            open.remove(k),
            closed.push(open[k]),
            closed.len() as int,
            width,
            height,
            walls,
        ),
{
    let best = open[k];
    let less = open.remove(k);
    let more = closed.push(best);
    assert forall|i: int| 0 <= i < closed.len() implies expanded(
        less,
        more,
        (#[trigger] more[i]).pos,
        width,
        height,
        walls,
    ) by {
        assert(more[i] == closed[i]);
        assert(expanded(open, closed, closed[i].pos, width, height, walls));
        assert forall|p: Point| #[trigger]
            adjacent(closed[i].pos, p) && free_cell(p, width, height, walls) implies discovered(
            less,
            more,
            p,
        ) by {
            lemma_has_pos_remove(open, k, p);
            lemma_has_pos_push(closed, best, p);
        }
    }
}

/// In a grid without walls, no node has an `f` below the Manhattan distance
/// from `start` to `end`.
pub proof fn lemma_f_bound(
    node: Node,
    width: usize,
    height: usize,
    start: Point,
    end: Point,
    walls: Seq<Point>,
)
    requires
        node_ok(node, width, height, start, end, walls),
    ensures
        node.f >= manhattan(start, end),
{
}

/// From a cell of the grid other than `end`, a move in one of the four
/// directions leads nearer to `end`.
pub proof fn lemma_some_move_nears(pos: Point, end: Point, width: usize, height: usize)
    requires
        in_grid(pos, width, height),
        in_grid(end, width, height),
        width <= i32::MAX,
        height <= i32::MAX,
        pos != end,
    ensures
        exists|k: int|
            0 <= k < 4 && manhattan(neighbour(pos, #[trigger] Dirs::of(k)), end) < manhattan(
                pos,
                end,
            ),
{
    if end.y < pos.y {
        assert(manhattan(neighbour(pos, Dirs::of(0)), end) < manhattan(pos, end));
    } else if end.x > pos.x {
        assert(manhattan(neighbour(pos, Dirs::of(1)), end) < manhattan(pos, end));
    } else if end.y > pos.y {
        assert(manhattan(neighbour(pos, Dirs::of(2)), end) < manhattan(pos, end));
    } else {
        assert(manhattan(neighbour(pos, Dirs::of(3)), end) < manhattan(pos, end));
    }
}

/// With nothing left in the open list, every cell of a walk over free cells
/// that begins on a closed cell is closed.
pub proof fn lemma_covered(
    closed: Seq<Node>,
    route: Seq<Point>,
    i: int,
    width: usize,
    height: usize,
    walls: Seq<Point>,
)
    requires
        all_expanded(Seq::<Node>::empty(), closed, closed.len() as int, width, height, walls),
        is_route(route, width, height, walls),
        has_pos(closed, route[0]),
        0 <= i < route.len(),
    ensures
        has_pos(closed, route[i]),
    decreases i,
{
    if i > 0 {
        lemma_covered(closed, route, i - 1, width, height, walls);
        let j = choose|j: int| 0 <= j < closed.len() && (#[trigger] closed[j]).pos == route[i - 1];
        assert(expanded(Seq::<Node>::empty(), closed, closed[j].pos, width, height, walls));
        assert(adjacent(route[i - 1], route[i - 1 + 1]));
        assert(free_cell(route[i], width, height, walls));
        assert(adjacent(closed[j].pos, route[i]) && free_cell(route[i], width, height, walls));
        assert(discovered(Seq::<Node>::empty(), closed, route[i]));
    }
}

} // verus!

//! The search as a function of what it is asked.

use vstd::prelude::*;
use crate::point::Point;
use crate::node::Node;
use crate::dirs::Dirs;
use crate::grid::valid_query;
use crate::frontier::{is_best, grown, neighbour};
use crate::search::SearchError;

verus! {

/// The place in `open` of the node that a search takes next.
pub open spec fn best_of(open: Seq<Node>) -> int {
    choose|k: int| is_best(open, k)
}

/// Only one place in `open` is that of the node to take next.
pub proof fn lemma_best_unique(open: Seq<Node>, k: int)
    requires
        is_best(open, k),
    ensures
        best_of(open) == k,
{
    let other = best_of(open);
    assert(is_best(open, other));
    if other < k {
        assert(open[other].f < open[k].f);
        assert(open[k].f <= open[other].f);
    }
    if k < other {
        assert(open[k].f < open[other].f);
        assert(open[other].f <= open[k].f);
    }
}

/// The open list after a search has looked from `best` in the first `d`
/// directions.
pub open spec fn expand(
    open: Seq<Node>,
    closed: Seq<Node>,
    best: Node,
    d: nat,
    width: usize,
    height: usize,
    end: Point,
    walls: Seq<Point>,
) -> Seq<Node>
    decreases d,
{
    if d == 0 {
        open
    } else {
        grown(
            expand(open, closed, best, (d - 1) as nat, width, height, end, walls),
            closed,
            best,
            Dirs::of(d - 1),
            width,
            height,
            end,
            walls,
        )
    }
}

/// The open and the closed list at which a search stops that stands at the
/// lists `open` and `closed` and may close `rounds` nodes more.
///
/// The search stops with an empty open list. Else it takes the node at
/// `best_of(open)`: it stops if that node stands on `end`, and else closes
/// the node and goes on with its neighbours in the open list.
pub open spec fn settle(
    open: Seq<Node>,
    closed: Seq<Node>,
    rounds: nat,
    width: usize,
    height: usize,
    end: Point,
    walls: Seq<Point>,
) -> (Seq<Node>, Seq<Node>)
    decreases rounds,
{
    if open.len() == 0 || open[best_of(open)].pos == end || rounds == 0 {
        (open, closed)
    } else {
        let k = best_of(open);
        let shut = closed.push(open[k]);
        settle(
            expand(open.remove(k), shut, open[k], 4, width, height, end, walls),
            shut,
            (rounds - 1) as nat,
            width,
            height,
            end,
            walls,
        )
    }
}

/// The lists that a search from `start` begins with: the node of `start`
/// alone in the open list.
pub open spec fn initial(start: Point, end: Point) -> Seq<Node> {
    Seq::<Node>::empty().push(Node::made(start, None, end))
}

/// The open and the closed list at which the search of a grid stops. Each
/// cell is closed at most once, so the search may close as many nodes as the
/// grid has cells.
pub open spec fn search_lists(
    width: usize,
    height: usize,
    start: Point,
    end: Point,
    walls: Seq<Point>,
) -> (Seq<Node>, Seq<Node>) {
    settle(
        initial(start, end),
        Seq::<Node>::empty(),
        (width * height) as nat,
        width,
        height,
        end,
        walls,
    )
}

/// What a search gives that stops at the open list `open`: the node to take
/// next, which stands on `end`, or no walk.
pub open spec fn outcome(open: Seq<Node>, end: Point) -> Result<Node, SearchError> {
    if open.len() > 0 && open[best_of(open)].pos == end {
        Ok(open[best_of(open)])
    } else {
        Err(SearchError::NoPath)
    }
}

/// What a search of the grid of `width` by `height` cells gives for a walk
/// from `start` to `end` that avoids `walls`.
pub open spec fn search_result(
    width: usize,
    height: usize,
    start: Point,
    end: Point,
    walls: Seq<Point>,
) -> Result<Node, SearchError> {
    if !valid_query(width, height, start, end, walls) {
        Err(SearchError::InvalidInput)
    } else {
        outcome(search_lists(width, height, start, end, walls).0, end)
    }
}

/// The node that `node` was reached from, `n` times over, as the closed list
/// has it.
pub open spec fn ancestor(closed: Seq<Node>, node: Node, n: nat) -> Node
    decreases n,
{
    if n == 0 {
        node
    } else {
        let nearer = ancestor(closed, node, (n - 1) as nat);
        closed[choose|j: int| 0 <= j < closed.len() && nearer.parent == Some(closed[j].pos)]
    }
}

/// Whether `route` is the walk to `node` that the closed list has: its last
/// cell is that of `node`, and each cell before is that of the parent of the
/// node after it.
pub open spec fn walked(route: Seq<Point>, closed: Seq<Node>, node: Node) -> bool {
    &&& route.len() == node.g + 1
    &&& forall|i: int|
        0 <= i < route.len() ==> #[trigger] route[i] == ancestor(
            closed,
            node,
            (node.g - i) as nat,
        ).pos
}

/// Whether two lists of walls block the same cells.
pub open spec fn same_walls(a: Seq<Point>, b: Seq<Point>) -> bool {
    forall|p: Point| #[trigger] a.contains(p) == b.contains(p)
}

/// Looking round from a node gives the same open list with either of two
/// lists of walls that block the same cells.
pub proof fn lemma_expand_same_walls(
    open: Seq<Node>,
    closed: Seq<Node>,
    best: Node,
    d: nat,
    width: usize,
    height: usize,
    end: Point,
    a: Seq<Point>,
    b: Seq<Point>,
)
    requires
        same_walls(a, b),
    ensures
        expand(open, closed, best, d, width, height, end, a) == expand(
            open,
            closed,
            best,
            d,
            width,
            height,
            end,
            b,
        ),
    decreases d,
{
    if d > 0 {
        lemma_expand_same_walls(open, closed, best, (d - 1) as nat, width, height, end, a, b);
        let p = neighbour(best.pos, Dirs::of(d - 1));
        assert(a.contains(p) == b.contains(p));
    }
}

/// A search stops at the same lists with either of two lists of walls that
/// block the same cells, whatever lists it stands at.
pub proof fn lemma_settle_same_walls(
    open: Seq<Node>,
    closed: Seq<Node>,
    rounds: nat,
    width: usize,
    height: usize,
    end: Point,
    a: Seq<Point>,
    b: Seq<Point>,
)
    requires
        same_walls(a, b),
    ensures
        settle(open, closed, rounds, width, height, end, a) == settle(
            open,
            closed,
            rounds,
            width,
            height,
            end,
            b,
        ),
    decreases rounds,
{
    if !(open.len() == 0 || open[best_of(open)].pos == end || rounds == 0) {
        let k = best_of(open);
        let shut = closed.push(open[k]);
        lemma_expand_same_walls(open.remove(k), shut, open[k], 4, width, height, end, a, b);
        lemma_settle_same_walls(
            expand(open.remove(k), shut, open[k], 4, width, height, end, a),
            shut,
            (rounds - 1) as nat,
            width,
            height,
            end,
            a,
            b,
        );
    }
}

/// The order in which the walls are listed, and how often each is listed,
/// does not matter: two lists of walls with the same cells give the same
/// result.
pub proof fn lemma_walls_as_set(
    width: usize,
    height: usize,
    start: Point,
    end: Point,
    a: Seq<Point>,
    b: Seq<Point>,
)
    requires
        a.to_set() == b.to_set(),
    ensures
        search_result(width, height, start, end, a) == search_result(width, height, start, end, b),
        search_lists(width, height, start, end, a) == search_lists(width, height, start, end, b),
{
    assert forall|p: Point| #[trigger] a.contains(p) == b.contains(p) by {
        assert(a.to_set().contains(p) == a.contains(p));
        assert(b.to_set().contains(p) == b.contains(p));
    }
    assert(a.contains(start) == b.contains(start));
    assert(a.contains(end) == b.contains(end));
    lemma_settle_same_walls(
        initial(start, end),
        Seq::<Node>::empty(),
        (width * height) as nat,
        width,
        height,
        end,
        a,
        b,
    );
}

} // verus!

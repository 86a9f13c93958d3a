//! Why a search of a grid without walls walks straight towards the end: the
//! node it takes next is always one move nearer than the node before.

use vstd::prelude::*;
use crate::point::{Point, manhattan};
use crate::node::Node;
use crate::dirs::Dirs;
use crate::grid::{in_grid, searchable};
use crate::frontier::{
    is_best, neighbour, node_ok, frontier_ok, lead, admits, grown, lemma_f_bound,
};

verus! {

/// What holds of the open list of a grid without walls after the search has
/// looked from `best`, the node closed last, in the first `d` directions.
///
/// The first `base` nodes were in the list before; those from `tail` on had
/// an `f` above `total`. `found` says whether one of the `d` directions led
/// nearer to `end`; the node of the last such cell is then at `lead_at`.
pub open spec fn chase(
    open: Seq<Node>,
    closed: Seq<Node>,
    best: Node,
    d: int,
    base: int,
    tail: int,
    found: bool,
    lead_at: int,
    total: int,
    end: Point,
) -> bool {
    &&& best.f == total
    &&& best.g + 1 == closed.len()
    &&& 0 <= tail <= base <= open.len()
    &&& forall|j: int| 0 <= j < base ==> (#[trigger] open[j]).g <= best.g
    &&& forall|j: int, k: int|
        base <= j < open.len() && d <= k < 4 ==> (#[trigger] open[j]).pos != neighbour(
            best.pos,
            #[trigger] Dirs::of(k),
        )
    &&& found ==> lead(open, lead_at, total, best.g + 1)
    &&& !found ==> forall|j: int| tail <= j < open.len() ==> (#[trigger] open[j]).f > total
    &&& !found ==> forall|k: int|
        0 <= k < d ==> manhattan(neighbour(best.pos, #[trigger] Dirs::of(k)), end) >= best.h
}

/// In a grid without walls the node that the search takes next is the one
/// that `lead` speaks of.
pub proof fn lemma_best_is_lead(
    open: Seq<Node>,
    closed: Seq<Node>,
    k: int,
    lead_at: int,
    width: usize,
    height: usize,
    start: Point,
    end: Point,
    walls: Seq<Point>,
)
    requires
        frontier_ok(open, closed, width, height, start, end, walls),
        lead(open, lead_at, manhattan(start, end), closed.len() as int),
        is_best(open, k),
    ensures
        k == lead_at,
{
    lemma_f_bound(open[k], width, height, start, end, walls);
    assert(open[k].f <= open[lead_at].f);
    if k < lead_at {
        assert(open[k].f < open[lead_at].f);
    }
    if lead_at < k {
        assert(open[k].f > manhattan(start, end));
    }
}

/// When the node at `k` has moved from the open list to the closed list,
/// `chase` holds with no direction looked at.
pub proof fn lemma_chase_start(
    open: Seq<Node>,
    closed: Seq<Node>,
    k: int,
    width: usize,
    height: usize,
    start: Point,
    end: Point,
    walls: Seq<Point>,
)
    requires
        frontier_ok(open, closed, width, height, start, end, walls),
        lead(open, k, manhattan(start, end), closed.len() as int),
    ensures
        chase(
            open.remove(k),
            closed.push(open[k]),
            open[k],
            0,
            open.len() - 1,
            k,
            false,
            0,
            manhattan(start, end),
            end,
        ),
{
    let less = open.remove(k);
    assert forall|j: int| 0 <= j < less.len() implies (#[trigger] less[j]).g <= open[k].g && (k
        <= j ==> less[j].f > manhattan(start, end)) by {
        if j < k {
            assert(less[j] == open[j]);
        } else {
            assert(less[j] == open[j + 1]);
        }
    }
}

/// Looking in the next direction keeps `chase`. A cell nearer to `end` gets
/// a node, which is then the one that `lead` speaks of.
#[verifier::rlimit(50)]
pub proof fn lemma_chase_step(
    open: Seq<Node>,
    closed: Seq<Node>,
    best: Node,
    d: int,
    base: int,
    tail: int,
    found: bool,
    lead_at: int,
    width: usize,
    height: usize,
    start: Point,
    end: Point,
    walls: Seq<Point>,
)
    requires
        frontier_ok(open, closed, width, height, start, end, walls),
        walls.len() == 0,
        closed.len() > 0,
        best == closed.last(),
        closed.len() <= width * height,
        searchable(width, height),
        in_grid(end, width, height),
        0 <= d < 4,
        chase(open, closed, best, d, base, tail, found, lead_at, manhattan(start, end), end),
    ensures
        chase(
            grown(open, closed, best, Dirs::of(d), width, height, end, walls),
            closed,
            best,
            d + 1,
            base,
            tail,
            found || manhattan(neighbour(best.pos, Dirs::of(d)), end) < best.h,
            if manhattan(neighbour(best.pos, Dirs::of(d)), end) < best.h {
                open.len() as int
            } else {
                lead_at
            },
            manhattan(start, end),
            end,
        ),
{
    let total = manhattan(start, end);
    let p = neighbour(best.pos, Dirs::of(d));
    let after = grown(open, closed, best, Dirs::of(d), width, height, end, walls);
    let nears = manhattan(p, end) < best.h;
    let child = Node::made(p, Some(best), end);
    assert(node_ok(closed[closed.len() - 1], width, height, start, end, walls));
    assert(manhattan(p, end) <= width + height);
    assert(child.g == best.g + 1);
    assert(child.h == manhattan(p, end));
    assert(child.f == child.g + child.h);
    assert(child.pos == p);
    assert forall|k: int| d + 1 <= k < 4 implies p != neighbour(best.pos, #[trigger] Dirs::of(k)) by {}
    if nears {
        assert(manhattan(p, end) == best.h - 1);
        assert(manhattan(start, p) >= best.g + 1);
        assert(in_grid(p, width, height));
        assert(!walls.contains(p));
        assert forall|j: int| 0 <= j < open.len() implies (#[trigger] open[j]).pos != p by {
            if j < base {
                assert(node_ok(open[j], width, height, start, end, walls));
                assert(open[j].g <= best.g);
            } else {
                assert(open[j].pos != neighbour(best.pos, Dirs::of(d)));
            }
        }
        assert forall|j: int| 0 <= j < closed.len() implies (#[trigger] closed[j]).pos != p by {
            assert(node_ok(closed[j], width, height, start, end, walls));
        }
        assert(admits(open, closed, p, width, height, walls));
        assert(after == open.push(child));
        assert(after[open.len() as int] == child);
        assert(lead(after, open.len() as int, total, best.g + 1));
    }
    if after.len() > open.len() {
        assert(after == open.push(child));
        assert forall|j: int| 0 <= j < after.len() implies (j < open.len() ==> #[trigger] after[j]
            == open[j]) && (j == open.len() ==> after[j] == child) by {}
        if !nears {
            assert(child.f > total);
        }
    } else {
        assert(after == open);
    }
}

} // verus!

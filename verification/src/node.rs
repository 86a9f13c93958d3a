//! The search state of one cell.

use vstd::prelude::*;
use crate::point::{Point, manhattan, manhattan_distance};

verus! {

/// The cost of one move between neighbouring cells.
pub const MOVE_COST: i32 = 1;

/// The data of one cell along a search.
///
/// `parent` is the position of the node this one was reached from, `None` for
/// the node a search starts at. `g` is the cost of the moves from the start
/// to `pos`, `h` the Manhattan distance from `pos` to the end, and `f` their
/// sum.
#[derive(Clone, Copy, Debug)]
pub struct Node {
    pub parent: Option<Point>,
    pub pos: Point,
    pub g: i32,
    pub h: i32,
    pub f: i32,
}

impl PartialEq for Node {
    /// Two nodes are equal when they stand on the same cell.
    fn eq(&self, other: &Self) -> (r: bool) {
        self.pos.x == other.pos.x && self.pos.y == other.pos.y
    }
}

impl vstd::std_specs::cmp::PartialEqSpecImpl for Node {
    open spec fn obeys_eq_spec() -> bool {
        true
    }

    open spec fn eq_spec(&self, other: &Self) -> bool {
        self.pos.x == other.pos.x && self.pos.y == other.pos.y
    }
}

impl Node {
    /// The cost of reaching a node from `parent`: one move more than the
    /// parent's cost, and nothing where there is no parent.
    pub open spec fn cost_after(parent: Option<Node>) -> int {
        match parent {
            Some(p) => p.g + MOVE_COST,
            None => 0,
        }
    }

    /// The node that `new` builds.
    pub open spec fn made(pos: Point, parent: Option<Node>, end_pos: Point) -> Node {
        Node {
            parent: match parent {
                Some(p) => Some(p.pos),
                None => None,
            },
            pos,
            g: Self::cost_after(parent) as i32,
            h: manhattan(pos, end_pos) as i32,
            f: (Self::cost_after(parent) + manhattan(pos, end_pos)) as i32,
        }
    }

    /// Whether the scores of the node at `pos` after `parent` fit in 32 bits.
    pub open spec fn scores_fit(pos: Point, parent: Option<Node>, end_pos: Point) -> bool {
        &&& i32::MIN <= Self::cost_after(parent) <= i32::MAX
        &&& i32::MIN <= Self::cost_after(parent) + manhattan(pos, end_pos) <= i32::MAX
        &&& manhattan(pos, end_pos) <= i32::MAX
    }

    /// Whether the node's scores are those of its cell: `h` is the Manhattan
    /// distance to `end_pos`, and `f` is the sum of `g` and `h`.
    pub open spec fn scored(self, end_pos: Point) -> bool {
        &&& self.h == manhattan(self.pos, end_pos)
        &&& self.f == self.g + self.h
    }

    /// The node of the cell `pos`, reached from `parent_node` or, with
    /// `None`, the node a search starts at.
    pub fn new(pos: Point, parent_node: Option<Node>, end_pos: &Point) -> (node: Node)
        requires
            Self::scores_fit(pos, parent_node, *end_pos),
        ensures
            node == Self::made(pos, parent_node, *end_pos),
            node.scored(*end_pos),
            node.pos == pos,
            node.g == Self::cost_after(parent_node),
            parent_node is None ==> node.parent is None && node.g == 0,
            parent_node matches Some(p) ==> node.parent == Some(p.pos) && node.g == p.g + 1,
    {
        let h: i32 = manhattan_distance(&pos, end_pos) as i32;
        match parent_node {
            Some(parent) => {
                let g: i32 = parent.g + MOVE_COST;
                Node { parent: Some(parent.pos), pos, g, h, f: g + h }
            },
            None => Node { parent: None, pos, g: 0, h, f: h },
        }
    }
}

} // verus!

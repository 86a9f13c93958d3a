//! The four directions of a move.

use vstd::prelude::*;
use crate::point::Point;

verus! {

/// A cardinal direction. North is the direction of falling `y`.
#[derive(PartialEq, Eq, Structural, Clone, Copy, Debug)]
pub enum Dirs {
    N,
    E,
    S,
    W,
}

impl Dirs {
    /// The offset of one move in the direction.
    pub open spec fn offset(self) -> Point {
        match self {
            Dirs::N => Point { x: 0, y: -1i32 },
            Dirs::E => Point { x: 1, y: 0 },
            Dirs::S => Point { x: 0, y: 1 },
            Dirs::W => Point { x: -1i32, y: 0 },
        }
    }

    /// The direction that a search tries in place `k`: north, east, south,
    /// then west.
    pub open spec fn of(k: int) -> Dirs {
        if k == 0 {
            Dirs::N
        } else if k == 1 {
            Dirs::E
        } else if k == 2 {
            Dirs::S
        } else {
            Dirs::W
        }
    }

    /// The offset of one move in the direction.
    pub fn get(dir: &Dirs) -> (step: Point)
        ensures
            step == dir.offset(),
    {
        match dir {
            Dirs::N => Point { x: 0, y: -1 },
            Dirs::E => Point { x: 1, y: 0 },
            Dirs::S => Point { x: 0, y: 1 },
            Dirs::W => Point { x: -1, y: 0 },
        }
    }

    /// The four directions in the order in which a search tries them.
    pub fn iter() -> (all: Vec<Dirs>)
        ensures
            all.len() == 4,
            forall|k: int| 0 <= k < 4 ==> #[trigger] all[k] == Dirs::of(k),
    {
        let mut all: Vec<Dirs> = Vec::new();
        all.push(Dirs::N);
        all.push(Dirs::E);
        all.push(Dirs::S);
        all.push(Dirs::W);
        all
    }
}

} // verus!

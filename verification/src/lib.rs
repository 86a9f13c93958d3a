//! Shortest routes on a bounded grid of cells, found by A* search with the
//! Manhattan distance as heuristic and moves in the four cardinal directions.

pub mod point;
pub mod node;
pub mod dirs;
pub mod frontier;
pub mod chase;
pub mod model;
pub mod grid;
pub mod search;

pub use crate::dirs::Dirs;
pub use crate::node::Node;
pub use crate::point::Point;
pub use crate::search::{a_star, a_star_route, search, Found, SearchError};

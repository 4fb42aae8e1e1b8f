//! Counting islands of land in a rectangular terrain map.
//!
//! The map is held in a flat, overflow-checked rectangular grid; islands are
//! maximal sets of land cells joined horizontally or vertically.

pub mod args;
pub mod cli_arg;
pub mod count_islands;
pub mod error;
pub mod non_empty_rect_list_2d;
pub mod reach;
pub mod visited_world;
pub mod world;

pub use args::{ArgError, Args};
pub use cli_arg::CliArg;
pub use count_islands::count_islands;
pub use error::{Error, Result};
pub use non_empty_rect_list_2d::NonEmptyRectList2D;
pub use visited_world::VisitedWorld;
pub use world::{Terrain, World};

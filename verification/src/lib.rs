//! Constraint propagation for a very large Nurikabe-like tile puzzle.
//!
//! The grid is divided by clue tiles into groups of unprocessed cells. Every
//! distinct group outline is a shape with a curated list of candidate
//! solutions. The solver commits the cells on which all candidates that are
//! still feasible agree, lowers the clues next to newly active cells, and
//! revisits the groups around every clue whose surroundings changed.
//!
//! The parts, from the bottom up:
//! - `tile`, `grid`, `overlay`: the tile codes, the grid store, and the
//!   copy-on-write layer over a shared grid;
//! - `cells`, `flood`, `component`: coordinate lists, flood fill and the
//!   canonical form of a group;
//! - `shape`, `cache`, `codec`: the shape library, the group cache and its
//!   stored form;
//! - `engine`: which candidates are feasible and what they force;
//! - `driver`, `measure`, `soundness`, `headroom`, `revisit`: the
//!   propagation loop, why it ends, what it keeps true, why no clue falls
//!   below 1, and why every cell put on the stack is looked at;
//! - `trial`: the search over the candidates of chosen groups;
//! - `discover`, `labels`, `seeding`, `seeds`, `picture`, `window`, `paint`,
//!   `flag`, `dat`: finding the shapes of a grid, curating them, and looking
//!   at grids and shapes.

pub mod tile;
pub mod cells;
pub mod grid;
pub mod overlay;
pub mod flood;
pub mod error;
pub mod shape;
pub mod cache;
pub mod engine;
pub mod measure;
pub mod driver;
pub mod trial;
pub mod dat;
pub mod flag;
pub mod labels;
pub mod seeding;
pub mod picture;
pub mod window;
pub mod paint;
pub mod codec;
pub mod seeds;
pub mod discover;
pub mod component;
pub mod soundness;
pub mod headroom;
pub mod revisit;

pub use cache::{canonical_group_at, get_group, resolve_group, CacheEntry, GroupCache};
pub use cells::Coord;
pub use driver::{apply_patches, propagate, solve_step, try_solve};
pub use engine::{find_solution_valid_at, has_locally_unique_solution, Patch};
pub use error::SolveError;
pub use flood::{find_group, normalize_group};
pub use grid::{Grid, GridError, TileStore};
pub use overlay::MapWithPatches;
pub use shape::{LibraryError, Shape, ShapeId, ShapeLibrary, Solution};
pub use tile::{ACTIVE, BACKGROUND, H, NOT_ACTIVE, ORANGE, PINK, UNPROCESSED, W};
pub use trial::{breadth_first_solver, Branch};

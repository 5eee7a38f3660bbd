//! Procedural dungeon generation: a tile grid, seven generation strategies
//! behind one interface, connectivity pruning with exit placement, and the
//! partition of a finished level into spawn regions.
//!
//! * [`map`] holds the grid, [`rect`] the boxes of rooms, [`pathing`] the
//!   distances over the grid and what they say about walking on it.
//! * [`map_builders`] holds the generators, what they share, and the table
//!   that chooses among them.
//! * [`random_table`] and [`spawner`] choose what appears on a finished
//!   level.
//! * [`dice`] and [`lines`] are what the library takes from `rltk`: its
//!   dice and its straight lines.

pub mod dice;
pub mod lines;
pub mod map;
pub mod map_builders;
pub mod pathing;
pub mod random_table;
pub mod rect;
pub mod spawner;

pub use map::{EntityRef, Grid, Position, TileType, MAPCOUNT, MAPHEIGHT, MAPWIDTH};
pub use random_table::{RandomEntry, RandomTable};
pub use rect::Rect;

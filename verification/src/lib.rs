//! A sparse spatial pool of occupant-bearing tiles on an integer plane.
//!
//! Each tile caches a fixed-size set of its nearest neighbouring tiles, so
//! the flat position-to-tile store doubles as a navigable local graph.  The
//! pool maintains that graph incrementally: when a tile is added, a local
//! relaxation refines a candidate neighbour set toward a fixed point instead
//! of rescanning the whole pool.

pub mod position;
pub mod entity;
pub mod combat;
pub mod tile;
pub mod tilepool_error;
pub mod tilepool;
pub mod worldpool;
pub mod world;
pub mod keys;

pub use position::Pos;
pub use position::Positionable;
pub use entity::Entity;
pub use entity::Unit;
pub use combat::Combat;
pub use tile::NeighbourArray;
pub use tile::Tile;
pub use tilepool_error::TilePoolError;
pub use tilepool::TilePool;
pub use worldpool::WorldPool;
pub use world::World;
pub use world::WorldState;
pub use keys::KeyMessage;

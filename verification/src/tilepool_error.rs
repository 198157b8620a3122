//! The closed set of failure conditions raised by `TilePool` operations.

use vstd::prelude::*;
use crate::position::Pos;

verus! {

/// Errors which can occur while using a `TilePool`.  None are retried
/// internally; every failure is surfaced to the caller as a typed value.
#[derive(PartialEq, Eq, Clone, Copy, Debug)]
pub enum TilePoolError {
    /// A `NeighbourArray` could not be created because the `TilePool` has
    /// too few `Tiles`.
    SizeError(usize),
    /// There was an error while retrieving a `Tile` from a `TilePool`: a
    /// listed neighbour is absent from the pool, so the graph is corrupt.
    RetrievalError(Pos),
    /// An insertion was attempted on a filled `Tile`.
    FilledTileError(Pos),
    /// A neighbour was repeated in a `NeighbourArray`.
    RepeatedNeighbour(Pos),
    /// There was an error converting a variable-length sequence into a
    /// `NeighbourArray`.
    ConversionError,
}

} // verus!

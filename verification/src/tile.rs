//! A pool entry: an optional occupant plus its cached neighbour set.

use vstd::prelude::*;
use crate::position::Pos;
use crate::entity::Entity;

verus! {

/// The number of neighbours a `Tile` tracks.
pub const NEIGHBOURS: usize = 5;

/// An array of neighbours for a `Tile`.  A well-formed one holds exactly
/// `NEIGHBOURS` pairwise-distinct positions; the slots carry no order.
pub type NeighbourArray = Vec<Pos>;

/// A `Tile` contains an optional `Entity` and tracks its nearest
/// neighbours.  The occupant is the only part external callers may set;
/// the neighbour set is recomputed only by the pool's relaxation.
pub struct Tile {
    /// The optional `Entity`.
    inner: Option<Entity>,
    /// The nearest neighbours of the `Tile`.
    neighbours: NeighbourArray,
}

impl Tile {
    /// The occupant of the tile, for use in contracts.
    pub closed spec fn occupant(&self) -> Option<Entity> {
        self.inner
    }

    /// The cached neighbour positions, for use in contracts.
    pub closed spec fn nbrs(&self) -> Seq<Pos> {
        self.neighbours@
    }

    /// Creates a new `Tile` from parts.
    pub fn new(inner: Option<Entity>, neighbours: NeighbourArray) -> (r: Self)
        ensures
            r.occupant() == inner,
            r.nbrs() == neighbours@,
    {
        Self { inner, neighbours }
    }

    /// Creates a new `Tile` without an `Entity`.
    pub fn new_empty(neighbours: NeighbourArray) -> (r: Self)
        ensures
            r.occupant() is None,
            r.nbrs() == neighbours@,
    {
        Self::new(None, neighbours)
    }

    /// Read-only access to the cached neighbour positions.
    pub fn get_neighbours(&self) -> (r: &NeighbourArray)
        ensures
            r@ == self.nbrs(),
    {
        &self.neighbours
    }

    /// Read-only access to the occupant.
    pub fn get_inner(&self) -> (r: &Option<Entity>)
        ensures
            *r == self.occupant(),
    {
        &self.inner
    }

    /// Replaces the occupant, leaving the neighbour set untouched.
    pub fn set_inner(&mut self, inner: Option<Entity>)
        ensures
            final(self).occupant() == inner,
            final(self).nbrs() == old(self).nbrs(),
    {
        self.inner = inner;
    }

    /// Removes and returns the occupant, leaving the neighbour set
    /// untouched.
    pub fn take_inner(&mut self) -> (r: Option<Entity>)
        ensures
            r == old(self).occupant(),
            final(self).occupant() is None,
            final(self).nbrs() == old(self).nbrs(),
    {
        self.inner.take()
    }
}

} // verus!

//! The simulation world: the entity pool and its renderable snapshot.

use vstd::prelude::*;
use crate::position::Pos;
use crate::entity::entity_byte;
use crate::worldpool::WorldPool;

verus! {

/// A flattened, read-only snapshot of the world: each entity's position
/// and render hint, in the pool's entry order.  Snapshots are what the
/// owner hands to rendering or transport collaborators; the live pool is
/// never shared.
pub type WorldState = Vec<(Pos, u8)>;

/// The simulation world.  It is exclusively owned by the single driver
/// that serialises all mutations.
pub struct World {
    world: WorldPool,
}

impl World {
    /// The underlying pool, for use in contracts.
    pub closed spec fn pool(&self) -> WorldPool {
        self.world
    }

    /// Creates a world over the given pool.
    pub fn new(world: WorldPool) -> (r: World)
        ensures
            r.pool() == world,
    {
        World { world }
    }

    /// Advances one tick and returns the snapshot of the current state,
    /// for the driver to send to its rendering collaborator.
    pub fn update(&mut self) -> (r: WorldState)
        ensures
            final(self).pool() == old(self).pool(),
            r@.len() == old(self).pool()@.len(),
            forall|i: int|
                0 <= i < r@.len() ==> (#[trigger] r@[i]) == (
                old(self).pool()@[i].0,
                entity_byte(old(self).pool()@[i].1),
            ),
    {
        let entries = self.world.entry_slice();
        let n = entries.len();
        let mut out: WorldState = Vec::new();
        let mut i: usize = 0;
        while i < n
            invariant
                n == entries@.len(),
                entries@ == self.pool()@,
                *self == *old(self),
                i <= n,
                out@.len() == i,
                forall|k: int|
                    0 <= k < i ==> (#[trigger] out@[k]) == (
                    entries@[k].0,
                    entity_byte(entries@[k].1),
                ),
            decreases n - i,
        {
            out.push((entries[i].0, entries[i].1.as_byte()));
            i += 1;
        }
        out
    }
}

} // verus!

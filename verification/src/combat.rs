//! Conflict resolution between two entities contending for one position.

use vstd::prelude::*;
use crate::position::Pos;
use crate::entity::Entity;
use crate::worldpool::WorldPool;

verus! {

/// A `Combat` instance is a conflict between two `Entity`s: an attacker
/// moving onto a defended position.
pub struct Combat {
    attacker: Entity,
    location: Pos,
}

impl Combat {
    /// The attacking entity, for use in contracts.
    pub closed spec fn attacker(&self) -> Entity {
        self.attacker
    }

    /// The contested position, for use in contracts.
    pub closed spec fn location(&self) -> Pos {
        self.location
    }

    /// Creates a new conflict of `attacker` over the defended
    /// `location`.
    pub fn new(attacker: Entity, location: Pos) -> (r: Self)
        ensures
            r.attacker() == attacker,
            r.location() == location,
    {
        Combat { attacker, location }
    }

    /// Consume the instance and resolve it against the pool.
    ///
    /// The attacker wins: it takes the contested position, the defender
    /// is gone, and every other entry is untouched.
    pub fn resolve(self, pool: &mut WorldPool) -> (r: bool)
        requires
            old(pool).wf(),
        ensures
            r == true,
            final(pool).wf(),
            final(pool).has_key(self.location()),
            final(pool).entity_at(self.location()) == self.attacker(),
            forall|q: Pos|
                q != self.location() ==> final(pool).has_key(q) == old(pool).has_key(q),
            forall|q: Pos|
                q != self.location() && old(pool).has_key(q) ==> final(pool).entity_at(q)
                    == old(pool).entity_at(q),
    {
        let Combat { attacker, location } = self;
        pool.remove_from(&location);
        match pool.add_to(location, attacker) {
            Ok(()) => true,
            Err(_) => {
                // unreachable: the position was just vacated
                true
            },
        }
    }
}

} // verus!

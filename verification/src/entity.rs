//! The occupants that tiles can hold.

use vstd::prelude::*;

verus! {

/// A `Unit` is a combatant.
#[derive(PartialEq, Eq, Clone, Copy, Debug)]
pub struct Unit;

/// An `Entity` is some inhabitant of a `Tile`.
#[derive(PartialEq, Eq, Clone, Debug)]
pub enum Entity {
    /// A `Unit` Entity.
    Unit(Box<Unit>),
}

/// The single-byte render hint of an entity, used by external rendering
/// collaborators and never by the pool itself.  A `Unit` renders as 85,
/// the ASCII code of `U`.
pub open spec fn entity_byte(e: Entity) -> u8 {
    match e {
        Entity::Unit(_) => 85u8,
    }
}

impl Entity {
    /// The render hint for this entity.
    pub fn as_byte(&self) -> (r: u8)
        ensures
            r == entity_byte(*self),
    {
        match self {
            Entity::Unit(_) => 85u8,
        }
    }
}

impl From<Box<Unit>> for Entity {
    fn from(from: Box<Unit>) -> (r: Self)
        ensures
            r == (Entity::Unit(from)),
    {
        Entity::Unit(from)
    }
}

impl vstd::std_specs::convert::FromSpecImpl<Box<Unit>> for Entity {
    open spec fn obeys_from_spec() -> bool {
        true
    }

    open spec fn from_spec(v: Box<Unit>) -> Entity {
        Entity::Unit(v)
    }
}

} // verus!

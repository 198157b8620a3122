//! The flat pool of entities, keyed by position.

use vstd::prelude::*;
use crate::position::Pos;
use crate::entity::Entity;
use crate::entity::Unit;
use crate::combat::Combat;

verus! {

/// A `WorldPool` is a collection of `Entity`s mapped to positions, keys
/// unique.
pub struct WorldPool {
    world: Vec<(Pos, Entity)>,
}

impl View for WorldPool {
    type V = Seq<(Pos, Entity)>;

    /// The pool's entries, in insertion order.
    closed spec fn view(&self) -> Seq<(Pos, Entity)> {
        self.world@
    }
}

impl WorldPool {
    /// Whether some entry carries the key `p`.
    pub open spec fn has_key(self, p: Pos) -> bool {
        exists|i: int| 0 <= i < self@.len() && self@[i].0 == p
    }

    /// The index of the entry carrying the key `p`; meaningful only when
    /// `has_key(p)` holds, and unique once the pool is well-formed.
    pub open spec fn key_index(self, p: Pos) -> int {
        choose|i: int| 0 <= i < self@.len() && self@[i].0 == p
    }

    /// The entity stored under the key `p`.
    pub open spec fn entity_at(self, p: Pos) -> Entity {
        self@[self.key_index(p)].1
    }

    /// Well-formedness: keys are pairwise distinct.
    pub open spec fn wf(self) -> bool {
        forall|i: int, j: int| 0 <= i < j < self@.len() ==> self@[i].0 != self@[j].0
    }

    /// An entry whose key is `p` sits at index `i`: then `key_index(p)`
    /// is exactly `i` once keys are distinct.
    proof fn lemma_key_index_is(self, p: Pos, i: int)
        requires
            self.wf(),
            0 <= i < self@.len(),
            self@[i].0 == p,
        ensures
            self.has_key(p),
            self.key_index(p) == i,
    {
        assert(self.has_key(p));
        let j = self.key_index(p);
        assert(0 <= j < self@.len() && self@[j].0 == p);
        if i < j {
            assert(self@[i].0 != self@[j].0);
        } else if j < i {
            assert(self@[j].0 != self@[i].0);
        }
    }

    /// Creates a `WorldPool` from a list of entries whose keys are
    /// pairwise distinct, as the keys of any map are.
    pub fn new(world: Vec<(Pos, Entity)>) -> (r: Self)
        requires
            forall|i: int, j: int| 0 <= i < j < world@.len() ==> world@[i].0 != world@[j].0,
        ensures
            r.wf(),
            r@ == world@,
    {
        WorldPool { world }
    }

    /// The number of entities in the pool.
    pub fn len(&self) -> (r: usize)
        ensures
            r == self@.len(),
    {
        self.world.len()
    }

    /// Read-only access to the pool's entries, in insertion order, for
    /// snapshotting.
    pub fn entry_slice(&self) -> (r: &Vec<(Pos, Entity)>)
        ensures
            r@ == self@,
    {
        &self.world
    }

    /// Looks up the entity stored at `pos`.
    pub fn get(&self, pos: &Pos) -> (r: Option<&Entity>)
        ensures
            r is Some <==> self.has_key(*pos),
            self.wf() && r is Some ==> *r.unwrap() == self.entity_at(*pos),
    {
        let n = self.world.len();
        let mut i: usize = 0;
        while i < n
            invariant
                n == self.world@.len(),
                i <= n,
                forall|k: int| 0 <= k < i ==> self.world@[k].0 != *pos,
            decreases n - i,
        {
            if self.world[i].0 == *pos {
                proof {
                    if self.wf() {
                        self.lemma_key_index_is(*pos, i as int);
                    }
                }
                return Some(&self.world[i].1);
            }
            i += 1;
        }
        None
    }

    /// Attempts to add `entity` to the `WorldPool`.
    ///
    /// Tries to insert `entity` at `dest`; if the space is already
    /// filled, `entity` is returned.
    pub fn add_to(&mut self, dest: Pos, entity: Entity) -> (r: Result<(), Entity>)
        requires
            old(self).wf(),
        ensures
            final(self).wf(),
            old(self).has_key(dest) ==> r == Err::<(), Entity>(entity) && final(self)@ == old(
                self,
            )@,
            !old(self).has_key(dest) ==> {
                &&& r is Ok
                &&& final(self)@ == old(self)@.push((dest, entity))
                &&& final(self).has_key(dest)
                &&& final(self).entity_at(dest) == entity
                &&& forall|q: Pos|
                    q != dest ==> final(self).has_key(q) == old(self).has_key(q)
                &&& forall|q: Pos|
                    q != dest && old(self).has_key(q) ==> final(self).entity_at(q) == old(
                        self,
                    ).entity_at(q)
            },
    {
        let n = self.world.len();
        let mut i: usize = 0;
        while i < n
            invariant
                *self == *old(self),
                self.wf(),
                n == self@.len(),
                i <= n,
                forall|k: int| 0 <= k < i ==> self@[k].0 != dest,
            decreases n - i,
        {
            if self.world[i].0 == dest {
                // The position is occupied: hand the entity back.
                return Err(entity);
            }
            i += 1;
        }
        // The position is vacant: insert the entity.
        let ghost pre = *self;
        self.world.push((dest, entity));
        proof {
            let m = pre@.len() as int;
            assert(self@[m] == (dest, entity));
            assert(self.wf()) by {
                assert forall|a: int, b: int| 0 <= a < b < self@.len() implies self@[a].0
                    != self@[b].0 by {
                    if b == m {
                        assert(pre@[a].0 != dest);
                    }
                }
            }
            self.lemma_key_index_is(dest, m);
            assert forall|q: Pos| q != dest implies final(self).has_key(q) == pre.has_key(
                q,
            ) by {
                if pre.has_key(q) {
                    let k = pre.key_index(q);
                    assert(self@[k].0 == q);
                }
                if self.has_key(q) {
                    let k = self.key_index(q);
                    assert(k < m && pre@[k].0 == q);
                }
            }
            assert forall|q: Pos| q != dest && pre.has_key(q) implies final(self).entity_at(q)
                == pre.entity_at(q) by {
                let k = pre.key_index(q);
                assert(pre@[k].0 == q);
                self.lemma_key_index_is(q, k);
            }
        }
        Ok(())
    }

    /// Places `entity` into the `WorldPool`.
    ///
    /// If the location `entity` is being placed at is occupied, a
    /// `Combat` instance is returned for the caller to resolve; the pool
    /// is untouched until then.
    pub fn move_to(&mut self, dest: Pos, entity: Entity) -> (r: Result<(), Combat>)
        requires
            old(self).wf(),
        ensures
            final(self).wf(),
            old(self).has_key(dest) ==> (r matches Err(combat) && combat.attacker() == entity
                && combat.location() == dest && final(self)@ == old(self)@),
            !old(self).has_key(dest) ==> {
                &&& r is Ok
                &&& final(self)@ == old(self)@.push((dest, entity))
                &&& final(self).has_key(dest)
                &&& final(self).entity_at(dest) == entity
                &&& forall|q: Pos|
                    q != dest ==> final(self).has_key(q) == old(self).has_key(q)
                &&& forall|q: Pos|
                    q != dest && old(self).has_key(q) ==> final(self).entity_at(q) == old(
                        self,
                    ).entity_at(q)
            },
    {
        let occupied = self.get(&dest).is_some();
        if occupied {
            // Initiate combat, to be resolved by the caller.
            Err(Combat::new(entity, dest))
        } else {
            match self.add_to(dest, entity) {
                Ok(()) => Ok(()),
                Err(entity) => {
                    // unreachable: the position was just seen vacant
                    Err(Combat::new(entity, dest))
                },
            }
        }
    }

    /// Attempts to extract an `Entity` from the `WorldPool`.
    ///
    /// If an `Entity` is found at `pos`, it is removed and returned.
    pub fn remove_from(&mut self, pos: &Pos) -> (r: Option<Entity>)
        requires
            old(self).wf(),
        ensures
            final(self).wf(),
            !old(self).has_key(*pos) ==> r is None && final(self)@ == old(self)@,
            old(self).has_key(*pos) ==> {
                &&& r == Some(old(self).entity_at(*pos))
                &&& final(self)@ == old(self)@.remove(old(self).key_index(*pos))
                &&& !final(self).has_key(*pos)
                &&& forall|q: Pos|
                    q != *pos ==> final(self).has_key(q) == old(self).has_key(q)
                &&& forall|q: Pos|
                    q != *pos && old(self).has_key(q) ==> final(self).entity_at(q) == old(
                        self,
                    ).entity_at(q)
            },
    {
        let n = self.world.len();
        let mut i: usize = 0;
        while i < n
            invariant
                *self == *old(self),
                self.wf(),
                n == self@.len(),
                i <= n,
                forall|k: int| 0 <= k < i ==> self@[k].0 != *pos,
            decreases n - i,
        {
            if self.world[i].0 == *pos {
                proof {
                    self.lemma_key_index_is(*pos, i as int);
                }
                let ghost pre = *self;
                let entry = self.world.remove(i);
                proof {
                    pre@.remove_ensures(i as int);
                    assert(self.wf()) by {
                        assert forall|a: int, b: int|
                            0 <= a < b < self@.len() implies self@[a].0 != self@[b].0 by {
                            let pa = if a < i as int {
                                a
                            } else {
                                a + 1
                            };
                            let pb = if b < i as int {
                                b
                            } else {
                                b + 1
                            };
                            assert(self@[a] == pre@[pa] && self@[b] == pre@[pb]);
                        }
                    }
                    assert forall|q: Pos| q != *pos implies final(self).has_key(q)
                        == pre.has_key(q) by {
                        if pre.has_key(q) {
                            let k = pre.key_index(q);
                            if k < i as int {
                                assert(self@[k].0 == q);
                            } else {
                                assert(self@[k - 1].0 == q);
                            }
                        }
                        if self.has_key(q) {
                            let k = self.key_index(q);
                            let pk = if k < i as int {
                                k
                            } else {
                                k + 1
                            };
                            assert(pre@[pk].0 == q);
                        }
                    }
                    assert(!final(self).has_key(*pos)) by {
                        if self.has_key(*pos) {
                            let k = self.key_index(*pos);
                            let pk = if k < i as int {
                                k
                            } else {
                                k + 1
                            };
                            assert(pre@[pk].0 == *pos && pk != i as int);
                        }
                    }
                    assert forall|q: Pos|
                        q != *pos && pre.has_key(q) implies final(self).entity_at(q)
                            == pre.entity_at(q) by {
                        let k = pre.key_index(q);
                        assert(pre@[k].0 == q);
                        if k < i as int {
                            assert(self@[k] == pre@[k]);
                            self.lemma_key_index_is(q, k);
                        } else {
                            assert(self@[k - 1] == pre@[k]);
                            self.lemma_key_index_is(q, k - 1);
                        }
                    }
                }
                return Some(entry.1);
            }
            i += 1;
        }
        None
    }
}

impl Default for WorldPool {
    /// A small starting world: three units at fixed positions.
    fn default() -> (r: Self)
        ensures
            r.wf(),
            r@.len() == 3,
            r@[0].0 == (Pos { x: 0, y: 0 }) && r@[0].1 is Unit,
            r@[1].0 == (Pos { x: 0, y: 3 }) && r@[1].1 is Unit,
            r@[2].0 == (Pos { x: 3, y: 2 }) && r@[2].1 is Unit,
    {
        let mut world: Vec<(Pos, Entity)> = Vec::new();
        world.push((Pos::new(0, 0), Entity::from(Box::new(Unit))));
        world.push((Pos::new(0, 3), Entity::from(Box::new(Unit))));
        world.push((Pos::new(3, 2), Entity::from(Box::new(Unit))));
        WorldPool::new(world)
    }
}

} // verus!

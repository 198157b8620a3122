//! The pool of tiles and the neighbour-graph maintenance algorithm.
//!
//! A `TilePool` maps positions to tiles, each tile caching the
//! `NEIGHBOURS` pool members nearest to it.  The pool is only queryable
//! once it holds at least `MINIMUM_TILES` tiles; with fewer there are not
//! enough distinct points to fill a neighbour set without self-reference.
//! Neighbour sets are refined by a local relaxation over
//! neighbour-of-neighbour lookups, never by a global scan.

use vstd::prelude::*;
use crate::position::Pos;
use crate::position::dist2;
use crate::position::pos_lt;
use crate::entity::Entity;
use crate::tile::Tile;
use crate::tile::NeighbourArray;
use crate::tile::NEIGHBOURS;
use crate::tilepool_error::TilePoolError;

verus! {

/// The minimum number of tiles for a `TilePool` to be queryable.
pub const MINIMUM_TILES: usize = NEIGHBOURS + 1;

/// The positions in `s` are pairwise distinct.
pub open spec fn all_distinct(s: Seq<Pos>) -> bool {
    forall|i: int, j: int| 0 <= i < j < s.len() ==> s[i] != s[j]
}

/// The candidate `o` would improve the working set `ns` for `pos`: it is
/// strictly closer to `pos` than some tracked member, and hence than the
/// farthest tracked member.
pub open spec fn improves(ns: Seq<Pos>, o: Pos, pos: Pos) -> bool {
    exists|k: int| 0 <= k < ns.len() && dist2(o, pos) < dist2(#[trigger] ns[k], pos)
}

/// The total of the tracked members' squared distances to `pos`.  Every
/// replacement strictly shrinks it, which bounds the relaxation.
pub open spec fn sum_dist(ns: Seq<Pos>, pos: Pos) -> int
    decreases ns.len(),
{
    if ns.len() == 0 {
        0
    } else {
        dist2(ns[0], pos) + sum_dist(ns.skip(1), pos)
    }
}

proof fn lemma_square_nonneg(x: int)
    by (nonlinear_arith)
    ensures
        x * x >= 0,
{
}

proof fn lemma_dist2_nonneg(a: Pos, b: Pos)
    ensures
        dist2(a, b) >= 0,
{
    lemma_square_nonneg(a.x - b.x);
    lemma_square_nonneg(a.y - b.y);
}

proof fn lemma_sum_dist_nonneg(ns: Seq<Pos>, pos: Pos)
    ensures
        sum_dist(ns, pos) >= 0,
    decreases ns.len(),
{
    if ns.len() > 0 {
        lemma_dist2_nonneg(ns[0], pos);
        lemma_sum_dist_nonneg(ns.skip(1), pos);
    }
}

/// Replacing one tracked member changes the distance total by exactly the
/// difference of the two members' distances.
proof fn lemma_sum_dist_update(ns: Seq<Pos>, m: int, o: Pos, pos: Pos)
    requires
        0 <= m < ns.len(),
    ensures
        sum_dist(ns.update(m, o), pos) == sum_dist(ns, pos) - dist2(ns[m], pos) + dist2(o, pos),
    decreases ns.len(),
{
    if m == 0 {
        assert(ns.update(0, o).skip(1) =~= ns.skip(1));
    } else {
        lemma_sum_dist_update(ns.skip(1), m - 1, o, pos);
        assert(ns.update(m, o).skip(1) =~= ns.skip(1).update(m - 1, o));
        assert(ns.update(m, o)[0] == ns[0]);
    }
}

/// Pairwise-distinct positions all drawn from `small` cannot outnumber
/// it.
proof fn lemma_pigeonhole(big: Seq<Pos>, small: Seq<Pos>)
    requires
        all_distinct(big),
        forall|i: int| 0 <= i < big.len() ==> small.contains(#[trigger] big[i]),
    ensures
        big.len() <= small.len(),
{
    broadcast use vstd::seq_lib::seq_to_set_is_finite;

    assert(big.no_duplicates()) by {
        assert forall|i: int, j: int|
            0 <= i < big.len() && 0 <= j < big.len() && i != j implies big[i] != big[j] by {
            if i < j {
                assert(big[i] != big[j]);
            } else {
                assert(big[j] != big[i]);
            }
        }
    }
    big.unique_seq_to_set();
    small.lemma_cardinality_of_set();
    assert(big.to_set() <= small.to_set()) by {
        assert forall|p: Pos| big.to_set().contains(p) implies small.to_set().contains(p) by {
            assert(big.contains(p));
            assert(small.contains(p));
        }
    }
    vstd::set_lib::lemma_len_subset(big.to_set(), small.to_set());
}

/// Whether the working set already tracks `o`.
fn seed_contains(ns: &NeighbourArray, o: &Pos) -> (r: bool)
    ensures
        r == ns@.contains(*o),
{
    let n = ns.len();
    let mut k: usize = 0;
    while k < n
        invariant
            n == ns@.len(),
            k <= n,
            forall|m: int| 0 <= m < k ==> ns@[m] != *o,
        decreases n - k,
    {
        if ns[k] == *o {
            proof {
                assert(ns@[k as int] == *o);
            }
            return true;
        }
        k += 1;
    }
    false
}

/// An owned copy of a neighbour array.
fn copy_neighbours(src: &NeighbourArray) -> (r: NeighbourArray)
    ensures
        r@ == src@,
{
    let n = src.len();
    let mut out: NeighbourArray = Vec::new();
    let mut k: usize = 0;
    while k < n
        invariant
            n == src@.len(),
            k <= n,
            out@.len() == k,
            forall|m: int| 0 <= m < k ==> out@[m] == src@[m],
        decreases n - k,
    {
        out.push(src[k]);
        k += 1;
    }
    proof {
        assert(out@ =~= src@);
    }
    out
}

/// The index of the tracked member farthest from `pos`, ties broken
/// toward the greater position in the total order, for determinism.
fn farthest_index(ns: &NeighbourArray, pos: &Pos) -> (r: usize)
    requires
        ns@.len() > 0,
        all_distinct(ns@),
    ensures
        0 <= r < ns@.len(),
        forall|k: int| 0 <= k < ns@.len() ==> dist2(#[trigger] ns@[k], *pos) <= dist2(
            ns@[r as int],
            *pos,
        ),
        forall|k: int|
            0 <= k < ns@.len() && k != r ==> dist2(#[trigger] ns@[k], *pos) < dist2(
                ns@[r as int],
                *pos,
            ) || pos_lt(ns@[k], ns@[r as int]),
{
    let n = ns.len();
    let mut max_index: usize = 0;
    let mut max_dist: u128 = ns[0].dist2_from(pos);
    let mut k: usize = 1;
    while k < n
        invariant
            n == ns@.len(),
            all_distinct(ns@),
            1 <= k <= n,
            max_index < k,
            max_dist == dist2(ns@[max_index as int], *pos),
            forall|m: int| 0 <= m < k ==> dist2(#[trigger] ns@[m], *pos) <= dist2(
                ns@[max_index as int],
                *pos,
            ),
            forall|m: int|
                0 <= m < k && m != max_index ==> dist2(#[trigger] ns@[m], *pos) < dist2(
                    ns@[max_index as int],
                    *pos,
                ) || pos_lt(ns@[m], ns@[max_index as int]),
        decreases n - k,
    {
        let d = ns[k].dist2_from(pos);
        let ghost om = max_index as int;
        if d > max_dist || (d == max_dist && (ns[max_index].x < ns[k].x || (ns[max_index].x
            == ns[k].x && ns[max_index].y < ns[k].y))) {
            max_index = k;
            max_dist = d;
            proof {
                assert forall|m: int|
                    0 <= m < k + 1 && m != k as int implies dist2(ns@[m], *pos) < dist2(
                    ns@[k as int],
                    *pos,
                ) || pos_lt(ns@[m], ns@[k as int]) by {
                    if m != om {
                        assert(dist2(ns@[m], *pos) < dist2(ns@[om], *pos) || pos_lt(
                            ns@[m],
                            ns@[om],
                        ));
                    }
                }
            }
        } else {
            proof {
                assert(ns@[om] != ns@[k as int]);
                assert(dist2(ns@[k as int], *pos) < dist2(ns@[om], *pos) || pos_lt(
                    ns@[k as int],
                    ns@[om],
                ));
            }
        }
        k += 1;
    }
    max_index
}

/// A `TilePool` is a collection of `Tile`s mapped to positions.  Keys are
/// unique and a tile, once created, is never removed.
pub struct TilePool {
    tiles: Vec<(Pos, Tile)>,
}

impl View for TilePool {
    type V = Seq<(Pos, Tile)>;

    /// The pool's entries, in insertion order.
    closed spec fn view(&self) -> Seq<(Pos, Tile)> {
        self.tiles@
    }
}

impl TilePool {
    /// Whether some entry carries the key `p`.
    pub open spec fn has_key(self, p: Pos) -> bool {
        exists|i: int| 0 <= i < self@.len() && self@[i].0 == p
    }

    /// The index of the entry carrying the key `p`; meaningful only when
    /// `has_key(p)` holds, and unique once the pool is well-formed.
    pub open spec fn key_index(self, p: Pos) -> int {
        choose|i: int| 0 <= i < self@.len() && self@[i].0 == p
    }

    /// The tile stored under the key `p`.
    pub open spec fn tile_at(self, p: Pos) -> Tile {
        self@[self.key_index(p)].1
    }

    /// A stored tile is consistent with the pool: it tracks exactly
    /// `NEIGHBOURS` pairwise-distinct positions, none of them its own,
    /// every one a current pool key.
    pub open spec fn tile_ok(self, p: Pos, t: Tile) -> bool {
        &&& t.nbrs().len() == NEIGHBOURS
        &&& forall|j: int, k: int|
            0 <= j < k < t.nbrs().len() ==> t.nbrs()[j] != t.nbrs()[k]
        &&& forall|j: int|
            0 <= j < t.nbrs().len() ==> t.nbrs()[j] != p && self.has_key(#[trigger] t.nbrs()[j])
    }

    /// Well-formedness: keys are pairwise distinct and every stored tile
    /// is consistent with the pool.  Constructors establish this and
    /// every pool operation preserves it.
    pub open spec fn wf(self) -> bool {
        &&& forall|i: int, j: int|
            0 <= i < j < self@.len() ==> self@[i].0 != self@[j].0
        &&& forall|i: int|
            0 <= i < self@.len() ==> self.tile_ok(#[trigger] self@[i].0, self@[i].1)
    }

    /// An entry whose key is `p` sits at index `i`: then `key_index(p)`
    /// is exactly `i` once keys are distinct.
    proof fn lemma_key_index_is(self, p: Pos, i: int)
        requires
            self.wf(),
            0 <= i < self@.len(),
            self@[i].0 == p,
        ensures
            self.has_key(p),
            self.key_index(p) == i,
    {
        assert(self.has_key(p));
        let j = self.key_index(p);
        assert(0 <= j < self@.len() && self@[j].0 == p);
        if i < j {
            assert(self@[i].0 != self@[j].0);
        } else if j < i {
            assert(self@[j].0 != self@[i].0);
        }
    }

    /// `ns` is a valid working set for `pos`: exactly `NEIGHBOURS`
    /// pairwise-distinct current pool keys, none equal to `pos`.
    pub open spec fn seed_ok(self, ns: Seq<Pos>, pos: Pos) -> bool {
        &&& ns.len() == NEIGHBOURS
        &&& all_distinct(ns)
        &&& forall|k: int| 0 <= k < ns.len() ==> self.has_key(#[trigger] ns[k]) && ns[k] != pos
    }

    /// Every neighbour listed by the tracked member in slot `k` is the
    /// query position itself, already tracked, or no closer to `pos` than
    /// the farthest tracked member.
    pub open spec fn slot_cleared(self, ns: Seq<Pos>, k: int, pos: Pos) -> bool {
        forall|j: int|
            0 <= j < self.tile_at(ns[k]).nbrs().len() ==> {
                let o = #[trigger] self.tile_at(ns[k]).nbrs()[j];
                o == pos || ns.contains(o) || !improves(ns, o, pos)
            }
    }

    /// `ns` is a local fixed point for `pos`: no neighbour reachable from
    /// any tracked member is closer to `pos` than the farthest tracked
    /// member.
    pub open spec fn fixed_point(self, ns: Seq<Pos>, pos: Pos) -> bool {
        forall|k: int| 0 <= k < ns.len() ==> self.slot_cleared(ns, k, pos)
    }

    /// A pool key that is neither the query position nor already in
    /// `acc`.  One always exists while `acc` is shorter than a full
    /// neighbour set, because the pool holds at least `MINIMUM_TILES`
    /// distinct keys.
    fn pick_replacement(&self, acc: &NeighbourArray, pos: &Pos) -> (r: Pos)
        requires
            self.wf(),
            self@.len() >= MINIMUM_TILES,
            !self.has_key(*pos),
            acc@.len() < NEIGHBOURS,
        ensures
            self.has_key(r),
            r != *pos,
            !acc@.contains(r),
    {
        let n = self.tiles.len();
        let mut e: usize = 0;
        while e < n
            invariant
                n == self@.len(),
                e <= n,
                !self.has_key(*pos),
                forall|k: int| 0 <= k < e ==> acc@.contains(#[trigger] self@[k].0),
            decreases n - e,
        {
            let cand = self.tiles[e].0;
            if !seed_contains(acc, &cand) {
                proof {
                    assert(self@[e as int].0 == cand);
                    if cand == *pos {
                        assert(self.has_key(*pos));
                    }
                }
                return cand;
            }
            e += 1;
        }
        proof {
            let keys = Seq::new(self@.len(), |i: int| self@[i].0);
            assert(all_distinct(keys));
            assert forall|i: int| 0 <= i < keys.len() implies acc@.contains(
                #[trigger] keys[i],
            ) by {
                assert(acc@.contains(self@[i].0));
            }
            lemma_pigeonhole(keys, acc@);
            assert(false);
        }
        self.tiles[0].0
    }

    /// Repairs a candidate working set for `pos`: keeps, in order, every
    /// slot that is a current pool key, not the query position, and not a
    /// duplicate of an earlier slot; replaces everything else with
    /// arbitrary pool keys not already tracked.  A seed that was already
    /// valid passes through unchanged.
    fn repair_seed(&self, seed: NeighbourArray, pos: &Pos) -> (r: NeighbourArray)
        requires
            self.wf(),
            self@.len() >= MINIMUM_TILES,
            !self.has_key(*pos),
        ensures
            self.seed_ok(r@, *pos),
            self.seed_ok(seed@, *pos) ==> r@ == seed@,
    {
        let mut acc: NeighbourArray = Vec::new();
        let len = seed.len();
        let mut i: usize = 0;
        while i < len && acc.len() < NEIGHBOURS
            invariant
                len == seed@.len(),
                i <= len,
                acc@.len() <= NEIGHBOURS,
                acc@.len() <= i,
                all_distinct(acc@),
                forall|k: int|
                    0 <= k < acc@.len() ==> self.has_key(#[trigger] acc@[k]) && acc@[k] != *pos,
                self.seed_ok(seed@, *pos) ==> acc@ == seed@.take(i as int),
            decreases len - i,
        {
            let cand = seed[i];
            let keep = cand != *pos && self.get(&cand).is_some() && !seed_contains(&acc, &cand);
            proof {
                if self.seed_ok(seed@, *pos) {
                    assert(seed@.take(i as int).push(seed@[i as int]) =~= seed@.take(i + 1));
                    if !keep {
                        // a valid seed keeps every slot: its slots are
                        // keys, differ from `pos`, and never repeat
                        assert(acc@.len() == i);
                        if acc@.contains(cand) {
                            let m = choose|m: int| 0 <= m < acc@.len() && acc@[m] == cand;
                            assert(seed@[m] == seed@[i as int]);
                        }
                    }
                }
            }
            if keep {
                acc.push(cand);
            }
            i += 1;
        }
        proof {
            if self.seed_ok(seed@, *pos) {
                assert(acc@ == seed@.take(seed@.len() as int));
                assert(seed@.take(seed@.len() as int) =~= seed@);
            }
        }
        while acc.len() < NEIGHBOURS
            invariant
                acc@.len() <= NEIGHBOURS,
                all_distinct(acc@),
                self.wf(),
                self@.len() >= MINIMUM_TILES,
                !self.has_key(*pos),
                forall|k: int|
                    0 <= k < acc@.len() ==> self.has_key(#[trigger] acc@[k]) && acc@[k] != *pos,
                self.seed_ok(seed@, *pos) ==> acc@ == seed@,
            decreases NEIGHBOURS - acc@.len(),
        {
            let extra = self.pick_replacement(&acc, pos);
            acc.push(extra);
        }
        acc
    }

    /// Pairs every input position with a `NeighbourArray` of all the
    /// other input positions.  Given `MINIMUM_TILES` distinct positions,
    /// "nearest `NEIGHBOURS`" is trivially "all others", so this builds
    /// the exact neighbour sets for the pool's minimum seed.
    ///
    /// Fails with `ConversionError` when the input is not exactly
    /// `MINIMUM_TILES` long, and with `RepeatedNeighbour` carrying a
    /// duplicated position when two inputs are equal.
    pub fn connect_neighbours(neighbours: Vec<Pos>) -> (r: Result<
        Vec<(Pos, NeighbourArray)>,
        TilePoolError,
    >)
        ensures
            r is Ok <==> (neighbours@.len() == MINIMUM_TILES && all_distinct(neighbours@)),
            (match r {
                Ok(out) => {
                    &&& out@.len() == neighbours@.len()
                    &&& forall|i: int|
                        0 <= i < out@.len() ==> (#[trigger] out@[i]).0 == neighbours@[i]
                    &&& forall|i: int|
                        0 <= i < out@.len() ==> (#[trigger] out@[i]).1@.len() == neighbours@.len()
                            - 1
                    &&& forall|i: int, k: int|
                        0 <= i < out@.len() && 0 <= k < out@[i].1@.len()
                            ==> (#[trigger] out@[i].1@[k]) == neighbours@[
                            if k < i {
                                k
                            } else {
                                k + 1
                            }
                        ]
                },
                Err(e) => {
                    if neighbours@.len() != MINIMUM_TILES {
                        e == TilePoolError::ConversionError
                    } else {
                        match e {
                            TilePoolError::RepeatedNeighbour(p) => exists|i: int, j: int|
                                0 <= i < j < neighbours@.len() && neighbours@[i] == p
                                    && neighbours@[j] == p,
                            _ => false,
                        }
                    }
                },
            }),
    {
        let n = neighbours.len();
        if n != MINIMUM_TILES {
            return Err(TilePoolError::ConversionError);
        }
        // Check for duplicates.
        let mut i: usize = 0;
        while i < n
            invariant
                n == neighbours@.len(),
                n == MINIMUM_TILES,
                i <= n,
                forall|a: int, b: int| 0 <= a < i && a < b < n ==> neighbours@[a] != neighbours@[b],
            decreases n - i,
        {
            let mut j: usize = i + 1;
            while j < n
                invariant
                    n == neighbours@.len(),
                    n == MINIMUM_TILES,
                    i < j <= n,
                    forall|b: int| i < b < j ==> neighbours@[i as int] != neighbours@[b],
                decreases n - j,
            {
                if neighbours[i] == neighbours[j] {
                    proof {
                        let p = neighbours@[j as int];
                        assert((i as int) < (j as int) && (j as int) < neighbours@.len()
                            && neighbours@[i as int] == p && neighbours@[j as int] == p);
                    }
                    return Err(TilePoolError::RepeatedNeighbour(neighbours[j]));
                }
                j += 1;
            }
            i += 1;
        }
        // For each position in turn, collect all the others.
        let mut out: Vec<(Pos, NeighbourArray)> = Vec::new();
        let mut i: usize = 0;
        while i < n
            invariant
                n == neighbours@.len(),
                out@.len() == i,
                i <= n,
                forall|k: int| 0 <= k < i ==> (#[trigger] out@[k]).0 == neighbours@[k],
                forall|k: int| 0 <= k < i ==> (#[trigger] out@[k]).1@.len() == n - 1,
                forall|k: int, m: int|
                    0 <= k < i && 0 <= m < out@[k].1@.len() ==> (#[trigger] out@[k].1@[m])
                        == neighbours@[
                        if m < k {
                            m
                        } else {
                            m + 1
                        }
                    ],
            decreases n - i,
        {
            let mut arr: NeighbourArray = Vec::new();
            let mut j: usize = 0;
            while j < n
                invariant
                    n == neighbours@.len(),
                    i < n,
                    j <= n,
                    arr@.len() == (if j <= i {
                        j as int
                    } else {
                        j - 1
                    }),
                    forall|m: int|
                        0 <= m < arr@.len() ==> (#[trigger] arr@[m]) == neighbours@[
                        if m < i {
                            m
                        } else {
                            m + 1
                        }
                    ],
                decreases n - j,
            {
                if j != i {
                    arr.push(neighbours[j]);
                }
                j += 1;
            }
            out.push((neighbours[i], arr));
            i += 1;
        }
        Ok(out)
    }

    /// Scans the neighbours of the tracked member in slot `i` and makes
    /// at most one replacement: the first listed neighbour strictly
    /// closer to `pos` than the farthest tracked member evicts that
    /// farthest member.  Returns whether a replacement happened; a
    /// working set that was already a fixed point is never changed.
    fn scan_slot(&self, ns: &mut NeighbourArray, i: usize, pos: &Pos) -> (r: Result<
        bool,
        TilePoolError,
    >)
        requires
            self.wf(),
            self@.len() >= MINIMUM_TILES,
            !self.has_key(*pos),
            self.seed_ok(old(ns)@, *pos),
            i < NEIGHBOURS,
        ensures
            r is Ok,
            (match r {
                Ok(true) => {
                    &&& self.seed_ok(final(ns)@, *pos)
                    &&& sum_dist(final(ns)@, *pos) < sum_dist(old(ns)@, *pos)
                    &&& !self.fixed_point(old(ns)@, *pos)
                },
                Ok(false) => final(ns)@ == old(ns)@ && self.slot_cleared(
                    old(ns)@,
                    i as int,
                    *pos,
                ),
                Err(_) => false,
            }),
    {
        let p_i = ns[i];
        let tile = match self.get(&p_i) {
            Some(tile) => tile,
            None => {
                // unreachable once the seed is valid: every slot is a
                // pool key, so the lookup cannot miss
                return Err(TilePoolError::RetrievalError(p_i));
            },
        };
        let nbrs = tile.get_neighbours();
        let n = nbrs.len();
        let ghost t = self.tile_at(old(ns)@[i as int]);
        let mut j: usize = 0;
        while j < n
            invariant
                self.wf(),
                self@.len() >= MINIMUM_TILES,
                !self.has_key(*pos),
                self.seed_ok(ns@, *pos),
                ns@ == old(ns)@,
                i < NEIGHBOURS,
                t == self.tile_at(ns@[i as int]),
                nbrs@ == t.nbrs(),
                n == nbrs@.len(),
                j <= n,
                forall|m: int|
                    0 <= m < j ==> {
                        let o = #[trigger] t.nbrs()[m];
                        o == *pos || ns@.contains(o) || !improves(ns@, o, *pos)
                    },
            decreases n - j,
        {
            let o = nbrs[j];
            if o != *pos && !seed_contains(ns, &o) {
                let m = farthest_index(ns, pos);
                let d_o = o.dist2_from(pos);
                let d_m = ns[m].dist2_from(pos);
                if d_o < d_m {
                    proof {
                        // the candidate improves the set, so the old set
                        // was no fixed point
                        assert(improves(ns@, o, *pos));
                        assert(!self.slot_cleared(ns@, i as int, *pos));
                        // the candidate is a key of the pool: it is
                        // listed by a stored tile
                        assert(self.has_key(o));
                        lemma_sum_dist_update(ns@, m as int, o, *pos);
                    }
                    let ghost before = ns@;
                    ns[m] = o;
                    proof {
                        assert(ns@ == before.update(m as int, o));
                        assert forall|a: int, b: int|
                            0 <= a < b < ns@.len() implies ns@[a] != ns@[b] by {
                            if a != m && b != m {
                                assert(before[a] != before[b]);
                            } else {
                                assert(!before.contains(o));
                            }
                        }
                    }
                    return Ok(true);
                }
            }
            j += 1;
        }
        Ok(false)
    }

    /// Attempts to create a default `TilePool`: the minimum seed of
    /// `MINIMUM_TILES` empty tiles at `(0, 0)` through
    /// `(0, MINIMUM_TILES - 1)`, each tracking all the others.
    pub fn default() -> (r: Result<Self, TilePoolError>)
        ensures
            (match r {
                Ok(pool) => {
                    &&& pool.wf()
                    &&& pool@.len() == MINIMUM_TILES
                    &&& forall|i: int|
                        0 <= i < pool@.len() ==> (#[trigger] pool@[i]).0 == (Pos {
                            x: 0,
                            y: i as i32,
                        })
                    &&& forall|i: int|
                        0 <= i < pool@.len() ==> (#[trigger] pool@[i]).1.occupant() is None
                    &&& forall|i: int|
                        0 <= i < pool@.len() ==> (#[trigger] pool@[i]).1.nbrs().len() == NEIGHBOURS
                    &&& forall|i: int, k: int|
                        0 <= i < pool@.len() && 0 <= k < pool@[i].1.nbrs().len()
                            ==> (#[trigger] pool@[i].1.nbrs()[k]) == (Pos {
                            x: 0,
                            y: (if k < i {
                                k
                            } else {
                                k + 1
                            }) as i32,
                        })
                },
                Err(_) => false,
            }),
    {
        // The minimum seed of distinct positions.
        let mut seed: Vec<Pos> = Vec::new();
        let mut index: usize = 0;
        while index < MINIMUM_TILES
            invariant
                seed@.len() == index,
                index <= MINIMUM_TILES,
                forall|k: int|
                    0 <= k < index ==> (#[trigger] seed@[k]) == (Pos { x: 0, y: k as i32 }),
            decreases MINIMUM_TILES - index,
        {
            seed.push(Pos::new(0, index as i32));
            index += 1;
        }
        proof {
            assert forall|a: int, b: int| 0 <= a < b < seed@.len() implies seed@[a]
                != seed@[b] by {
                assert(seed@[a].y == a as i32 && seed@[b].y == b as i32);
            }
        }
        let ghost seedv = seed@;
        let mut pairs = match Self::connect_neighbours(seed) {
            Ok(pairs) => pairs,
            Err(e) => {
                return Err(e);
            },
        };
        let ghost pairsv = pairs@;
        let mut tiles: Vec<(Pos, Tile)> = Vec::new();
        while pairs.len() > 0
            invariant
                pairsv.len() == MINIMUM_TILES,
                tiles@.len() + pairs@.len() == pairsv.len(),
                forall|k: int|
                    0 <= k < pairs@.len() ==> (#[trigger] pairs@[k]) == pairsv[tiles@.len() + k],
                forall|k: int|
                    0 <= k < tiles@.len() ==> (#[trigger] tiles@[k]).0 == pairsv[k].0
                        && tiles@[k].1.occupant() is None && tiles@[k].1.nbrs() == pairsv[k].1@,
            decreases pairs@.len(),
        {
            let ghost prev = pairs@;
            let pr = pairs.remove(0);
            proof {
                prev.remove_ensures(0);
            }
            let (pos, arr) = pr;
            tiles.push((pos, Tile::new_empty(arr)));
        }
        let pool = TilePool { tiles };
        proof {
            assert forall|i: int| 0 <= i < pool@.len() implies pool.tile_ok(
                #[trigger] pool@[i].0,
                pool@[i].1,
            ) by {
                let t = pool@[i].1;
                assert(t.nbrs().len() == NEIGHBOURS);
                assert forall|j: int|
                    0 <= j < t.nbrs().len() implies t.nbrs()[j] != pool@[i].0 && pool.has_key(
                    #[trigger] t.nbrs()[j],
                ) by {
                    let m = if j < i {
                        j
                    } else {
                        j + 1
                    };
                    assert(t.nbrs()[j] == seedv[m]);
                    assert(0 <= m < pool@.len() && pool@[m].0 == seedv[m]);
                }
            }
            assert(pool.wf());
        }
        Ok(pool)
    }

    /// Creates an empty `TilePool`.
    pub fn new() -> (r: Self)
        ensures
            r.wf(),
            r@.len() == 0,
    {
        TilePool { tiles: Vec::new() }
    }

    /// The number of tiles in the pool.
    pub fn len(&self) -> (r: usize)
        ensures
            r == self@.len(),
    {
        self.tiles.len()
    }

    /// Read-only access to the pool's entries, in insertion order, for
    /// snapshotting.
    pub fn entry_slice(&self) -> (r: &Vec<(Pos, Tile)>)
        ensures
            r@ == self@,
    {
        &self.tiles
    }

    /// The seed invariant: in a well-formed pool holding exactly
    /// `MINIMUM_TILES` tiles, every tile's neighbour set is exactly the
    /// set of all the other tiles' positions — `NEIGHBOURS` distinct
    /// keys other than the tile's own leave no room for choice.
    pub proof fn lemma_seed_pool_neighbours(self, p: Pos)
        requires
            self.wf(),
            self@.len() == MINIMUM_TILES,
            self.has_key(p),
        ensures
            forall|q: Pos|
                self.tile_at(p).nbrs().contains(q) <==> (self.has_key(q) && q != p),
    {
        let t = self.tile_at(p);
        let ip = self.key_index(p);
        assert(0 <= ip < self@.len() && self@[ip].0 == p);
        assert(self.tile_ok(p, t));
        let keys = Seq::new(self@.len(), |i: int| self@[i].0);
        let small = keys.remove(ip);
        keys.remove_ensures(ip);
        assert forall|q: Pos| self.has_key(q) && q != p implies t.nbrs().contains(q) by {
            if !t.nbrs().contains(q) {
                let big = t.nbrs().push(q);
                assert(all_distinct(big)) by {
                    assert forall|a: int, b: int| 0 <= a < b < big.len() implies big[a]
                        != big[b] by {
                        if b == big.len() - 1 {
                            assert(big[a] == t.nbrs()[a]);
                            assert(!t.nbrs().contains(q));
                        }
                    }
                }
                assert forall|a: int| 0 <= a < big.len() implies small.contains(
                    #[trigger] big[a],
                ) by {
                    let v = big[a];
                    assert(self.has_key(v) && v != p);
                    let iv = self.key_index(v);
                    assert(0 <= iv < keys.len() && keys[iv] == v);
                    assert(iv != ip);
                    if iv < ip {
                        assert(small[iv] == v);
                    } else {
                        assert(small[iv - 1] == v);
                    }
                }
                lemma_pigeonhole(big, small);
                assert(false);
            }
        }
        assert forall|q: Pos| t.nbrs().contains(q) implies self.has_key(q) && q != p by {
            let j = choose|j: int| 0 <= j < t.nbrs().len() && t.nbrs()[j] == q;
            assert(t.nbrs()[j] != p && self.has_key(t.nbrs()[j]));
        }
    }

    /// On the minimum pool a fixed point is exact: the one pool key a
    /// valid fixed-point working set leaves out lies at least as far
    /// from the query as every tracked member, so the set holds the
    /// `NEIGHBOURS` nearest pool members.  (On larger pools the
    /// relaxation guarantees only local consistency: it never reaches
    /// cells that no tracked member's cached set mentions.)
    pub proof fn lemma_minimum_pool_exactness(self, ns: Seq<Pos>, pos: Pos, q: Pos)
        requires
            self.wf(),
            self@.len() == MINIMUM_TILES,
            !self.has_key(pos),
            self.seed_ok(ns, pos),
            self.fixed_point(ns, pos),
            self.has_key(q),
            !ns.contains(q),
        ensures
            forall|k: int| 0 <= k < ns.len() ==> dist2(#[trigger] ns[k], pos) <= dist2(q, pos),
    {
        // the first tracked member's tile lists every other pool key,
        // `q` among them
        let s = ns[0];
        assert(ns.contains(s));
        assert(self.has_key(s));
        self.lemma_seed_pool_neighbours(s);
        assert(self.tile_at(s).nbrs().contains(q));
        let j = choose|j: int|
            0 <= j < self.tile_at(s).nbrs().len() && self.tile_at(s).nbrs()[j] == q;
        // the fixed point cleared slot 0, so the candidate `q` cannot
        // improve the set
        assert(self.slot_cleared(ns, 0, pos));
        assert(self.tile_at(ns[0]).nbrs()[j] == q);
        assert(q == pos || ns.contains(q) || !improves(ns, q, pos));
        assert(!improves(ns, q, pos));
        assert forall|k: int| 0 <= k < ns.len() implies dist2(#[trigger] ns[k], pos) <= dist2(
            q,
            pos,
        ) by {
            if dist2(q, pos) < dist2(ns[k], pos) {
                assert(improves(ns, q, pos));
            }
        }
    }

    /// A pool whose entries keep their keys and neighbour sets, changing
    /// at most the occupant at index `i`, stays well formed and keeps
    /// every other tile.
    proof fn lemma_occupant_update(self, post: TilePool, i: int)
        requires
            self.wf(),
            0 <= i < self@.len(),
            post@.len() == self@.len(),
            forall|k: int| 0 <= k < self@.len() ==> (#[trigger] post@[k]).0 == self@[k].0,
            forall|k: int|
                0 <= k < self@.len() ==> (#[trigger] post@[k]).1.nbrs() == self@[k].1.nbrs(),
            forall|k: int|
                0 <= k < self@.len() && k != i ==> (#[trigger] post@[k]).1 == self@[k].1,
        ensures
            post.wf(),
            forall|q: Pos| post.has_key(q) == self.has_key(q),
            post.has_key(self@[i].0),
            post.tile_at(self@[i].0) == post@[i].1,
            self.tile_at(self@[i].0) == self@[i].1,
            forall|q: Pos|
                q != self@[i].0 && self.has_key(q) ==> post.tile_at(q) == self.tile_at(q),
    {
        assert forall|q: Pos| post.has_key(q) == self.has_key(q) by {
            if self.has_key(q) {
                let k = self.key_index(q);
                assert(post@[k].0 == q);
            }
            if post.has_key(q) {
                let k = post.key_index(q);
                assert(self@[k].0 == q);
            }
        }
        assert(post.wf()) by {
            assert forall|k: int| 0 <= k < post@.len() implies post.tile_ok(
                #[trigger] post@[k].0,
                post@[k].1,
            ) by {
                assert(self.tile_ok(self@[k].0, self@[k].1));
            }
        }
        post.lemma_key_index_is(self@[i].0, i);
        self.lemma_key_index_is(self@[i].0, i);
        assert forall|q: Pos| q != self@[i].0 && self.has_key(q) implies post.tile_at(q)
            == self.tile_at(q) by {
            let k = self.key_index(q);
            assert(self@[k].0 == q);
            assert(k != i);
            post.lemma_key_index_is(q, k);
        }
    }

    /// Attempts to add `entity` to the `TilePool`.
    ///
    /// Tries to insert `entity` into an existing tile if it exists and
    /// is empty, then creates a new tile for `entity`.  If a tile at
    /// `pos` exists but is filled, `entity` is returned together with
    /// `FilledTileError`; if no tile exists and the neighbour
    /// computation fails, `entity` is returned together with that error
    /// and no tile is created.
    pub fn add_to(&mut self, pos: &Pos, entity: Entity) -> (r: Result<
        (),
        (Entity, TilePoolError),
    >)
        requires
            old(self).wf(),
        ensures
            final(self).wf(),
            old(self).has_key(*pos) && old(self).tile_at(*pos).occupant() is None ==> {
                &&& r is Ok
                &&& final(self)@.len() == old(self)@.len()
                &&& final(self).has_key(*pos)
                &&& final(self).tile_at(*pos).occupant() == Some(entity)
                &&& final(self).tile_at(*pos).nbrs() == old(self).tile_at(*pos).nbrs()
                &&& forall|q: Pos| final(self).has_key(q) == old(self).has_key(q)
                &&& forall|q: Pos|
                    q != *pos && old(self).has_key(q) ==> final(self).tile_at(q) == old(
                        self,
                    ).tile_at(q)
            },
            old(self).has_key(*pos) && old(self).tile_at(*pos).occupant() is Some ==> r == Err::<
                (),
                (Entity, TilePoolError),
            >((entity, TilePoolError::FilledTileError(*pos))) && final(self)@ == old(self)@,
            !old(self).has_key(*pos) && old(self)@.len() < MINIMUM_TILES ==> r == Err::<
                (),
                (Entity, TilePoolError),
            >((entity, TilePoolError::SizeError(old(self)@.len() as usize))) && final(self)@
                == old(self)@,
            !old(self).has_key(*pos) && old(self)@.len() >= MINIMUM_TILES ==> {
                &&& r is Ok
                &&& final(self)@.len() == old(self)@.len() + 1
                &&& final(self).has_key(*pos)
                &&& final(self).tile_at(*pos).occupant() == Some(entity)
                &&& old(self).seed_ok(final(self).tile_at(*pos).nbrs(), *pos)
                &&& old(self).fixed_point(final(self).tile_at(*pos).nbrs(), *pos)
                &&& forall|q: Pos|
                    final(self).has_key(q) <==> old(self).has_key(q) || q == *pos
                &&& forall|q: Pos|
                    old(self).has_key(q) ==> final(self).tile_at(q) == old(self).tile_at(q)
            },
    {
        // Check if a tile already exists at `pos`.
        let n = self.tiles.len();
        let mut i: usize = 0;
        while i < n
            invariant
                *self == *old(self),
                self.wf(),
                n == self@.len(),
                i <= n,
                forall|k: int| 0 <= k < i ==> self@[k].0 != *pos,
            decreases n - i,
        {
            if self.tiles[i].0 == *pos {
                proof {
                    self.lemma_key_index_is(*pos, i as int);
                }
                if self.tiles[i].1.get_inner().is_some() {
                    // The tile is filled: hand the occupant back.
                    return Err((entity, TilePoolError::FilledTileError(*pos)));
                }
                // The tile is empty: place the occupant in it.
                let ghost pre = *self;
                let ghost prev = self.tiles@;
                let (p, mut t) = self.tiles.remove(i);
                t.set_inner(Some(entity));
                self.tiles.insert(i, (p, t));
                proof {
                    prev.remove_ensures(i as int);
                    prev.remove(i as int).insert_ensures(i as int, (p, t));
                    assert forall|k: int| 0 <= k < prev.len() && k != i as int implies (
                    #[trigger] self@[k]) == prev[k] by {
                        if k < i as int {
                            assert(prev.remove(i as int)[k] == prev[k]);
                        } else {
                            assert(prev.remove(i as int)[k - 1] == prev[k]);
                        }
                    }
                    pre.lemma_occupant_update(*self, i as int);
                }
                return Ok(());
            }
            i += 1;
        }
        // No tile exists: compute neighbours and create a new tile.
        let neighbours = match self.calc_neighbours(Vec::new(), pos) {
            Ok(neighbours) => neighbours,
            Err(e) => {
                return Err((entity, e));
            },
        };
        let ghost pre = *self;
        self.tiles.push((*pos, Tile::new(Some(entity), neighbours)));
        proof {
            let m = pre@.len() as int;
            assert(self@ == pre@.push(self@[m]));
            assert forall|q: Pos| final(self).has_key(q) <==> pre.has_key(q) || q == *pos by {
                if pre.has_key(q) {
                    let k = pre.key_index(q);
                    assert(self@[k].0 == q);
                }
                if self.has_key(q) && q != *pos {
                    let k = self.key_index(q);
                    assert(k < m && pre@[k].0 == q);
                }
                assert(self@[m].0 == *pos);
            }
            assert(self.wf()) by {
                assert forall|a: int, b: int| 0 <= a < b < self@.len() implies self@[a].0
                    != self@[b].0 by {
                    if b == m && pre@[a].0 == *pos {
                        assert(pre.has_key(*pos));
                    }
                }
                assert forall|k: int| 0 <= k < self@.len() implies self.tile_ok(
                    #[trigger] self@[k].0,
                    self@[k].1,
                ) by {
                    if k < m {
                        assert(pre.tile_ok(pre@[k].0, pre@[k].1));
                        assert forall|j: int|
                            0 <= j < self@[k].1.nbrs().len() implies self@[k].1.nbrs()[j]
                            != self@[k].0 && self.has_key(#[trigger] self@[k].1.nbrs()[j]) by {
                            assert(pre.has_key(pre@[k].1.nbrs()[j]));
                        }
                    }
                }
            }
            self.lemma_key_index_is(*pos, m);
            assert forall|q: Pos| pre.has_key(q) implies final(self).tile_at(q) == pre.tile_at(
                q,
            ) by {
                let k = pre.key_index(q);
                assert(pre@[k].0 == q);
                self.lemma_key_index_is(q, k);
            }
        }
        Ok(())
    }

    /// Attempts to extract an `Entity` from the `TilePool`.
    ///
    /// If an `Entity` is found at `pos`, it is removed and returned; the
    /// tile itself always stays, neighbour set untouched.
    pub fn remove_from(&mut self, pos: &Pos) -> (r: Option<Entity>)
        requires
            old(self).wf(),
        ensures
            final(self).wf(),
            old(self).has_key(*pos) && old(self).tile_at(*pos).occupant() is Some ==> {
                &&& r == old(self).tile_at(*pos).occupant()
                &&& final(self)@.len() == old(self)@.len()
                &&& final(self).tile_at(*pos).occupant() is None
                &&& final(self).tile_at(*pos).nbrs() == old(self).tile_at(*pos).nbrs()
                &&& forall|q: Pos| final(self).has_key(q) == old(self).has_key(q)
                &&& forall|q: Pos|
                    q != *pos && old(self).has_key(q) ==> final(self).tile_at(q) == old(
                        self,
                    ).tile_at(q)
            },
            !(old(self).has_key(*pos) && old(self).tile_at(*pos).occupant() is Some) ==> r
                is None && final(self)@ == old(self)@,
    {
        let n = self.tiles.len();
        let mut i: usize = 0;
        while i < n
            invariant
                *self == *old(self),
                self.wf(),
                n == self@.len(),
                i <= n,
                forall|k: int| 0 <= k < i ==> self@[k].0 != *pos,
            decreases n - i,
        {
            if self.tiles[i].0 == *pos {
                proof {
                    self.lemma_key_index_is(*pos, i as int);
                }
                if self.tiles[i].1.get_inner().is_none() {
                    // The tile is already empty: nothing to extract.
                    return None;
                }
                let ghost pre = *self;
                let ghost prev = self.tiles@;
                let (p, mut t) = self.tiles.remove(i);
                let taken = t.take_inner();
                self.tiles.insert(i, (p, t));
                proof {
                    prev.remove_ensures(i as int);
                    prev.remove(i as int).insert_ensures(i as int, (p, t));
                    assert forall|k: int| 0 <= k < prev.len() && k != i as int implies (
                    #[trigger] self@[k]) == prev[k] by {
                        if k < i as int {
                            assert(prev.remove(i as int)[k] == prev[k]);
                        } else {
                            assert(prev.remove(i as int)[k - 1] == prev[k]);
                        }
                    }
                    pre.lemma_occupant_update(*self, i as int);
                }
                return taken;
            }
            i += 1;
        }
        None
    }

    /// Ensures the passed `NeighbourArray` is optimised with its nearest
    /// neighbours in the `TilePool` for `pos`.
    ///
    /// Fails with `SizeError` while the pool holds fewer than
    /// `MINIMUM_TILES` tiles.  If `pos` already has a tile, that tile's
    /// stored set is returned directly.  Otherwise the seed is repaired
    /// to a valid working set and relaxed to a local fixed point: the
    /// result is `NEIGHBOURS` distinct pool keys, none of them `pos`, and
    /// no neighbour listed by any of them is closer to `pos` than the
    /// farthest of them.  A seed that is already such a fixed point comes
    /// back unchanged, so the computation is idempotent.  The closer the
    /// seed is to the optimal solution, the lower the running time.
    pub fn calc_neighbours(&self, neighbours: NeighbourArray, pos: &Pos) -> (r: Result<
        NeighbourArray,
        TilePoolError,
    >)
        requires
            self.wf(),
        ensures
            self@.len() < MINIMUM_TILES ==> r == Err::<NeighbourArray, TilePoolError>(
                TilePoolError::SizeError(self@.len() as usize),
            ),
            self@.len() >= MINIMUM_TILES ==> r is Ok,
            self@.len() >= MINIMUM_TILES && self.has_key(*pos) ==> (r matches Ok(out)
                && out@ == self.tile_at(*pos).nbrs()),
            self@.len() >= MINIMUM_TILES && !self.has_key(*pos) ==> (r matches Ok(out)
                && self.seed_ok(out@, *pos) && self.fixed_point(out@, *pos)),
            self@.len() >= MINIMUM_TILES && !self.has_key(*pos) && self.seed_ok(
                neighbours@,
                *pos,
            ) && self.fixed_point(neighbours@, *pos) ==> (r matches Ok(out) && out@
                == neighbours@),
    {
        // Check that there are enough tiles in the pool.
        if self.len() < MINIMUM_TILES {
            return Err(TilePoolError::SizeError(self.len()));
        }
        // A position that already has a tile keeps its stored set.
        if let Some(tile) = self.get(pos) {
            return Ok(copy_neighbours(tile.get_neighbours()));
        }
        // Repair the seed, then relax it to a local fixed point.  Every
        // replacement strictly shrinks the tracked distance total and
        // restarts the scan, so the relaxation terminates.
        let ghost seedin = neighbours@;
        let mut ns = self.repair_seed(neighbours, pos);
        proof {
            lemma_sum_dist_nonneg(ns@, *pos);
        }
        let mut i: usize = 0;
        while i < NEIGHBOURS
            invariant
                self.wf(),
                self@.len() >= MINIMUM_TILES,
                !self.has_key(*pos),
                self.seed_ok(ns@, *pos),
                i <= NEIGHBOURS,
                sum_dist(ns@, *pos) >= 0,
                forall|k: int| 0 <= k < i ==> self.slot_cleared(ns@, k, *pos),
                self.seed_ok(seedin, *pos) && self.fixed_point(seedin, *pos) ==> ns@ == seedin,
            decreases sum_dist(ns@, *pos), NEIGHBOURS - i,
        {
            let rep = match self.scan_slot(&mut ns, i, pos) {
                Ok(rep) => rep,
                Err(e) => {
                    return Err(e);
                },
            };
            if rep {
                proof {
                    lemma_sum_dist_nonneg(ns@, *pos);
                }
                i = 0;
            } else {
                i += 1;
            }
        }
        Ok(ns)
    }

    /// Looks up the tile stored at `pos`.
    pub fn get(&self, pos: &Pos) -> (r: Option<&Tile>)
        ensures
            r is Some <==> self.has_key(*pos),
            self.wf() && r is Some ==> *r.unwrap() == self.tile_at(*pos),
    {
        let n = self.tiles.len();
        let mut i: usize = 0;
        while i < n
            invariant
                n == self.tiles@.len(),
                0 <= i <= n,
                forall|k: int| 0 <= k < i ==> self.tiles@[k].0 != *pos,
            decreases n - i,
        {
            if self.tiles[i].0 == *pos {
                proof {
                    if self.wf() {
                        self.lemma_key_index_is(*pos, i as int);
                    }
                }
                return Some(&self.tiles[i].1);
            }
            i += 1;
        }
        None
    }
}

} // verus!
